//! The node and scope rows of an analysis.

use vstd::prelude::*;
use vstd::string::*;

use super::interner::StringInterner;
use super::{
    node_id, scope_id, AnalysisError, AnalysisNode, AnalysisScope, AnalysisScopeKind,
};
use crate::order::{ranks, stable_order, Pair};
use crate::scope::{Scope, ScopeModel, ScopeType};
use crate::syntax::{RowModel, SyntaxTree};
use crate::{analysis, order, scope, syntax};

use super::interner;

verus! {

/// A row number that may be missing.
pub open spec fn optional_row(row: Option<int>) -> Option<u32> {
    match row {
        Some(row) => Some(row as u32),
        None => None,
    }
}

/// The place of a node among the children of its parent.
pub open spec fn ordinal_of(rows: Seq<RowModel>, i: int) -> int {
    match syntax::parent_of(rows, i) {
        Some(parent) => syntax::children_upto(rows, parent, i).len() as int,
        None => 0,
    }
}

/// The persisted flags of a node: named, extra, error, missing.
pub open spec fn flags_of(row: RowModel) -> int {
    (if row.named {
        1int
    } else {
        0
    }) + (if row.extra {
        2int
    } else {
        0
    }) + (if row.error {
        4int
    } else {
        0
    }) + (if row.missing {
        8int
    } else {
        0
    })
}

/// Whether a node row records a syntax node.
pub open spec fn node_is(
    node: AnalysisNode,
    rows: Seq<RowModel>,
    table: Seq<Seq<char>>,
    i: int,
) -> bool {
    &&& node.parent == optional_row(syntax::parent_of(rows, i))
    &&& node.child_ordinal == ordinal_of(rows, i)
    &&& interner::names(table, node.kind, rows[i].kind)
    &&& node.start_byte == rows[i].start_byte
    &&& node.end_byte == rows[i].end_byte
    &&& node.flags == flags_of(rows[i])
    &&& node.id.0@ == analysis::node_id_of(
        node.parent,
        node.child_ordinal,
        rows[i].kind,
        node.flags,
    )
}

/// Whether node rows record a syntax tree.
pub open spec fn nodes_are(
    nodes: Seq<AnalysisNode>,
    rows: Seq<RowModel>,
    table: Seq<Seq<char>>,
) -> bool {
    &&& nodes.len() == rows.len()
    &&& forall|i: int| 0 <= i < nodes.len() ==> node_is(#[trigger] nodes[i], rows, table, i)
}

/// The kinds of the nodes, in order.
pub open spec fn kinds_of(rows: Seq<RowModel>) -> Seq<Seq<char>> {
    rows.map_values(|row: RowModel| row.kind)
}

/// A table does not shrink when more texts join.
pub proof fn lemma_joined_lengths(table: Seq<Seq<char>>, texts: Seq<Seq<char>>, k: int)
    requires
        0 <= k <= texts.len(),
    ensures
        interner::all_joined(table, texts.take(k)).len() <= interner::all_joined(table, texts).len(),
        interner::extends(
            interner::all_joined(table, texts),
            interner::all_joined(table, texts.take(k)),
        ),
{
    interner::lemma_joined_in_lots(table, texts.take(k), texts.skip(k));
    assert(texts.take(k) + texts.skip(k) =~= texts);
    interner::lemma_joining_extends(interner::all_joined(table, texts.take(k)), texts.skip(k));
}

fn flag_bits(named: bool, extra: bool, error: bool, missing: bool) -> (flags: u8)
    ensures
        flags == (if named {
            1int
        } else {
            0
        }) + (if extra {
            2int
        } else {
            0
        }) + (if error {
            4int
        } else {
            0
        }) + (if missing {
            8int
        } else {
            0
        }),
{
    let mut flags: u8 = 0;
    if named {
        flags += 1;
    }
    if extra {
        flags += 2;
    }
    if error {
        flags += 4;
    }
    if missing {
        flags += 8;
    }
    flags
}

/// Records the nodes of a syntax tree, and adds their kinds to the strings.
pub(crate) fn collect_nodes(tree: &SyntaxTree, strings: &mut StringInterner) -> (r: Result<
    Vec<AnalysisNode>,
    AnalysisError,
>)
    requires
        old(strings).is_wf(),
        tree@.len() <= u32::MAX,
    ensures
        final(strings).is_wf(),
        match r {
            Ok(nodes) => {
                &&& final(strings).texts() == interner::all_joined(
                    old(strings).texts(),
                    kinds_of(tree@),
                )
                &&& nodes_are(nodes@, tree@, final(strings).texts())
            },
            Err(error) => {
                &&& error == AnalysisError::TooManyRows
                &&& interner::all_joined(old(strings).texts(), kinds_of(tree@)).len() > u32::MAX + 1
            },
        },
{
    let length: usize = tree.len();
    let ghost rows = tree@;
    let ghost start = strings.texts();
    let ghost kinds = kinds_of(rows);
    let mut counts: Vec<u32> = Vec::new();
    while counts.len() < length
        invariant
            counts@.len() <= length,
            forall|p: int| 0 <= p < counts@.len() ==> #[trigger] counts@[p] == 0,
        decreases length - counts@.len(),
    {
        counts.push(0);
    }
    let mut nodes: Vec<AnalysisNode> = Vec::new();
    let mut i: usize = 0;
    assert(kinds.take(0) =~= Seq::empty());
    while i < length
        invariant
            i <= length,
            length == tree@.len(),
            rows == tree@,
            length <= u32::MAX,
            kinds == kinds_of(rows),
            start == old(strings).texts(),
            counts@.len() == length,
            nodes@.len() == i,
            strings.is_wf(),
            strings.texts() == interner::all_joined(start, kinds.take(i as int)),
            forall|p: int|
                0 <= p < length ==> #[trigger] counts@[p] == syntax::children_upto(
                    rows,
                    p,
                    i as int,
                ).len() && counts@[p] <= i,
            forall|k: int|
                0 <= k < i ==> node_is(#[trigger] nodes@[k], rows, strings.texts(), k),
        decreases length - i,
    {
        let ghost before = strings.texts();
        let row = tree.row(i);
        proof {
            assert(kinds.take(i + 1) =~= kinds.take(i as int).push(kinds[i as int]));
            interner::lemma_joined_push(start, kinds.take(i as int), kinds[i as int]);
            lemma_joined_lengths(start, kinds, i + 1);
        }
        let kind = match strings.intern(row.kind) {
            Ok(kind) => kind,
            Err(error) => {
                return Err(error);
            },
        };
        let flags = flag_bits(row.named, row.extra, row.error, row.missing);
        let mut parent: Option<u32> = None;
        let mut child_ordinal: u32 = 0;
        if let Some(p) = tree.parent(i) {
            parent = Some(p as u32);
            child_ordinal = counts[p];
            assert(syntax::children_upto(rows, p as int, i + 1).len() == syntax::children_upto(
                rows,
                p as int,
                i as int,
            ).len() + 1);
            counts.set(p, child_ordinal + 1);
        }
        let id = node_id(parent, child_ordinal, row.kind, flags);
        nodes.push(
            AnalysisNode {
                id,
                parent,
                child_ordinal,
                kind,
                start_byte: row.start_byte as u64,
                end_byte: row.end_byte as u64,
                flags,
            },
        );
        proof {
            assert(interner::extends(strings.texts(), before)) by {
                assert(strings.texts().take(before.len() as int) =~= before);
            }
            assert forall|k: int| 0 <= k < i implies node_is(
                #[trigger] nodes@[k],
                rows,
                strings.texts(),
                k,
            ) by {
                interner::lemma_names_stay(strings.texts(), before, nodes@[k].kind, rows[k].kind);
            }
        }
        i += 1;
    }
    assert(kinds.take(length as int) =~= kinds);
    Ok(nodes)
}

/// The persisted kind of a scope.
pub open spec fn scope_kind_of(scope_type: ScopeType) -> AnalysisScopeKind {
    match scope_type {
        ScopeType::Global => AnalysisScopeKind::Global,
        ScopeType::Function => AnalysisScopeKind::Function,
        ScopeType::Block => AnalysisScopeKind::Block,
        ScopeType::Class => AnalysisScopeKind::Class,
        ScopeType::Module => AnalysisScopeKind::Module,
    }
}

fn scope_kind(scope_type: ScopeType) -> (kind: AnalysisScopeKind)
    ensures
        kind == scope_kind_of(scope_type),
{
    match scope_type {
        ScopeType::Global => AnalysisScopeKind::Global,
        ScopeType::Function => AnalysisScopeKind::Function,
        ScopeType::Block => AnalysisScopeKind::Block,
        ScopeType::Class => AnalysisScopeKind::Class,
        ScopeType::Module => AnalysisScopeKind::Module,
    }
}

/// What scope rows are ordered by: depth, start, end, kind.
pub open spec fn scope_key_of(scope: ScopeModel) -> Pair<u64, Pair<u64, Pair<u64, u64>>> {
    Pair(
        scope.depth as u64,
        Pair(
            scope.start_byte as u64,
            Pair(scope.end_byte as u64, scope_kind_of(scope.scope_type).code_spec() as u64),
        ),
    )
}

/// The ordering keys of scopes.
pub open spec fn scope_keys_of(scopes: Seq<ScopeModel>) -> Seq<
    Pair<u64, Pair<u64, Pair<u64, u64>>>,
> {
    scopes.map_values(|scope: ScopeModel| scope_key_of(scope))
}

/// The row of a scope.
pub open spec fn scope_row(scopes: Seq<ScopeModel>, s: int) -> int {
    order::rank(scope_keys_of(scopes), s)
}

/// The row of a scope's parent.
pub open spec fn parent_scope_row(scopes: Seq<ScopeModel>, s: int) -> Option<int> {
    match scopes[s].parent {
        Some(parent) => Some(scope_row(scopes, parent)),
        None => None,
    }
}

/// Whether a scope row records a scope.
pub open spec fn scope_is(row: AnalysisScope, scopes: Seq<ScopeModel>, s: int) -> bool {
    &&& row.parent == optional_row(parent_scope_row(scopes, s))
    &&& row.kind == scope_kind_of(scopes[s].scope_type)
    &&& row.depth == scopes[s].depth
    &&& row.start_byte == scopes[s].start_byte
    &&& row.end_byte == scopes[s].end_byte
    &&& row.id.0@ == analysis::scope_id_of(
        row.parent,
        row.kind,
        row.depth,
        row.start_byte,
        row.end_byte,
    )
}

/// Whether scope rows record scopes, in the order of their rows.
pub open spec fn scopes_are(table: Seq<AnalysisScope>, scopes: Seq<ScopeModel>) -> bool {
    &&& table.len() == scopes.len()
    &&& forall|s: int|
        0 <= s < scopes.len() ==> scope_is(table[#[trigger] scope_row(scopes, s)], scopes, s)
}

/// Whether a list holds the row of each scope.
pub open spec fn lists_scope_rows(places: Seq<usize>, scopes: Seq<ScopeModel>) -> bool {
    &&& places.len() == scopes.len()
    &&& forall|s: int|
        0 <= s < scopes.len() ==> #[trigger] places[s] == scope_row(scopes, s) && places[s]
            < scopes.len()
}

/// Different scopes have different rows.
pub open spec fn scope_rows_are_distinct(scopes: Seq<ScopeModel>) -> bool {
    forall|s: int, t: int|
        0 <= s < scopes.len() && 0 <= t < scopes.len() && #[trigger] scope_row(scopes, s)
            == #[trigger] scope_row(scopes, t) ==> s == t
}

/// Records scopes, and gives the row of each.
pub(crate) fn collect_scopes(scopes: &Vec<Scope>) -> (r: (Vec<AnalysisScope>, Vec<usize>))
    requires
        scope::scopes_form_a_tree(scope::scope_views(scopes@)),
        scopes@.len() <= u32::MAX,
    ensures
        scopes_are(r.0@, scope::scope_views(scopes@)),
        lists_scope_rows(r.1@, scope::scope_views(scopes@)),
        scope_rows_are_distinct(scope::scope_views(scopes@)),
{
    let length: usize = scopes.len();
    let ghost views = scope::scope_views(scopes@);
    let mut keys: Vec<Pair<u64, Pair<u64, Pair<u64, u64>>>> = Vec::new();
    let mut s: usize = 0;
    while s < length
        invariant
            s <= length,
            length == scopes@.len(),
            views == scope::scope_views(scopes@),
            keys@.len() == s,
            forall|k: int| 0 <= k < s ==> #[trigger] keys@[k] == scope_key_of(views[k]),
        decreases length - s,
    {
        let item = &scopes[s];
        assert(views[s as int] == item@);
        keys.push(
            Pair(
                item.depth as u64,
                Pair(
                    item.start_byte as u64,
                    Pair(item.end_byte as u64, scope_kind(item.scope_type).code() as u64),
                ),
            ),
        );
        s += 1;
    }
    assert(keys@ =~= scope_keys_of(views));
    let places = ranks(&keys);
    let order = stable_order(&keys);
    proof {
        order::lemma_ranks(keys@, order@);
    }
    let mut table: Vec<AnalysisScope> = Vec::new();
    let mut j: usize = 0;
    while j < length
        invariant
            j <= length,
            length == scopes@.len(),
            length <= u32::MAX,
            views == scope::scope_views(scopes@),
            scope::scopes_form_a_tree(views),
            keys@ == scope_keys_of(views),
            lists_scope_rows(places@, views),
            order@.len() == length,
            forall|k: int| 0 <= k < length ==> #[trigger] order@[k] < length,
            table@.len() == j,
            forall|k: int| 0 <= k < j ==> scope_is(#[trigger] table@[k], views, order@[k] as int),
        decreases length - j,
    {
        let at = order[j];
        let item = &scopes[at];
        proof {
            assert(views[at as int] == item@);
            assert(scope::scope_fits(views, at as int));
        }
        let parent: Option<u32> = match item.parent {
            Some(parent) => {
                assert(places@[parent as int] == scope_row(views, parent as int));
                Some(places[parent] as u32)
            },
            None => None,
        };
        let kind = scope_kind(item.scope_type);
        let depth: u32 = item.depth as u32;
        let start_byte: u64 = item.start_byte as u64;
        let end_byte: u64 = item.end_byte as u64;
        let id = scope_id(parent, kind, depth, start_byte, end_byte);
        table.push(AnalysisScope { id, parent, kind, depth, start_byte, end_byte });
        j += 1;
    }
    proof {
        assert forall|s: int| 0 <= s < views.len() implies scope_is(
            table@[#[trigger] scope_row(views, s)],
            views,
            s,
        ) by {
            let j = order::rank(keys@, s);
            assert(order@[j] == s);
            assert(scope_is(table@[j], views, order@[j] as int));
        }
        assert forall|s: int, t: int|
            0 <= s < views.len() && 0 <= t < views.len() && #[trigger] scope_row(views, s)
                == #[trigger] scope_row(views, t) implies s == t by {
            assert(order@[order::rank(keys@, s)] == s);
            assert(order@[order::rank(keys@, t)] == t);
        }
    }
    (table, places)
}

} // verus!
