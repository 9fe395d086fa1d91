//! The reference and resolution rows of an analysis.

use vstd::prelude::*;
use vstd::string::*;

use super::interner::StringInterner;
use super::symbols::{Candidate, CandidateModel};
use super::{
    def_use_id, missing_id, reference_id, AnalysisDefUse, AnalysisError, AnalysisNode,
    AnalysisReference, AnalysisReferenceRole, AnalysisResolution, AnalysisSymbol,
};
use crate::order::{stable_order, Pair};
use crate::scope::{has_field, identifier_kind, is_lexical_reference, ScopeAnalyzer, ScopeModel};
use crate::syntax::{RowModel, SyntaxTree};
use crate::text::same_text;
use crate::{analysis, order, scope, syntax};

use super::{interner, rows, symbols};

verus! {

/// Whether a node of this kind only groups or destructures.
pub open spec fn is_grouping_kind(kind: Seq<char>) -> bool {
    kind == "parenthesized_expression"@ || kind == "object_pattern"@ || kind == "array_pattern"@
        || kind == "pair_pattern"@ || kind == "rest_pattern"@ || kind == "assignment_pattern"@
}

/// Whether the way up from a node to a container leads through nothing but
/// grouping and destructuring.
pub open spec fn climbs_to(rows: Seq<RowModel>, container: int, current: int) -> bool
    decreases current,
{
    current == container || match syntax::parent_of(rows, current) {
        None => false,
        Some(parent) => {
            let kind = rows[parent].kind;
            &&& kind != "member_expression"@ && kind != "subscript_expression"@
            &&& is_grouping_kind(kind) || kind == "update_expression"@ || parent == container
            &&& 0 <= parent < current && climbs_to(rows, container, parent)
        },
    }
}

/// Whether an assignment to a container assigns to a node in it.
pub open spec fn is_target(rows: Seq<RowModel>, container: int, node: int) -> bool {
    rows[container].start_byte <= rows[node].start_byte && rows[node].end_byte
        <= rows[container].end_byte && climbs_to(rows, container, node)
}

/// The role of a node that some assignment around it writes to.
pub open spec fn written_role(rows: Seq<RowModel>, node: int, ancestor: Option<int>) -> Option<
    AnalysisReferenceRole,
>
    decreases
            (match ancestor {
                Some(parent) => parent + 1,
                None => 0,
            }),
{
    match ancestor {
        None => None,
        Some(parent) => {
            let kind = rows[parent].kind;
            let assigned = match syntax::child_by_field(rows, parent, "left"@) {
                Some(left) => is_target(rows, left, node),
                None => false,
            };
            if kind == "assignment_expression"@ && assigned {
                Some(AnalysisReferenceRole::Write)
            } else if kind == "augmented_assignment_expression"@ && assigned {
                Some(AnalysisReferenceRole::ReadWrite)
            } else if (kind == "for_in_statement"@ || kind == "for_of_statement"@) && assigned {
                Some(AnalysisReferenceRole::Write)
            } else if kind == "update_expression"@ && is_target(rows, parent, node) {
                Some(AnalysisReferenceRole::ReadWrite)
            } else {
                match syntax::parent_of(rows, parent) {
                    Some(next) => if 0 <= next < parent {
                        written_role(rows, node, Some(next))
                    } else {
                        None
                    },
                    None => None,
                }
            }
        },
    }
}

/// The role of a node that nothing writes to, by the place it is used in.
pub open spec fn used_role(rows: Seq<RowModel>, current: int) -> AnalysisReferenceRole
    decreases current,
{
    match syntax::parent_of(rows, current) {
        None => AnalysisReferenceRole::Read,
        Some(parent) => {
            let kind = rows[parent].kind;
            let field = rows[current].field;
            if kind == "call_expression"@ && field == Some("function"@) {
                AnalysisReferenceRole::Call
            } else if kind == "new_expression"@ && field == Some("constructor"@) {
                AnalysisReferenceRole::Construct
            } else if kind == "export_specifier"@ && field == Some("name"@) {
                AnalysisReferenceRole::Export
            } else if is_grouping_kind(kind) && 0 <= parent < current {
                used_role(rows, parent)
            } else {
                AnalysisReferenceRole::Read
            }
        },
    }
}

/// What an identifier does at a node.
pub open spec fn role_of(rows: Seq<RowModel>, node: int) -> AnalysisReferenceRole {
    match written_role(rows, node, syntax::parent_of(rows, node)) {
        Some(role) => role,
        None => used_role(rows, node),
    }
}

/// What references are collected from: the tree, its text, its scopes, and
/// the symbols.
pub struct Context {
    pub rows: Seq<RowModel>,
    pub source: Seq<char>,
    pub scopes: Seq<ScopeModel>,
    pub inner: Seq<int>,
    pub candidates: Seq<CandidateModel>,
}

/// The candidate behind a symbol row.
pub open spec fn symbol_at(candidates: Seq<CandidateModel>, j: int) -> CandidateModel {
    candidates[symbols::kept(candidates)[j]]
}

/// The first `count` symbols that belong to a scope row.
pub open spec fn symbols_in(candidates: Seq<CandidateModel>, scope: int, count: int) -> Seq<int>
    decreases count,
{
    if count <= 0 {
        Seq::empty()
    } else if symbol_at(candidates, count - 1).scope == scope {
        symbols_in(candidates, scope, count - 1).push(count - 1)
    } else {
        symbols_in(candidates, scope, count - 1)
    }
}

/// The first `count` of some symbols that have a name.
pub open spec fn named_among(
    candidates: Seq<CandidateModel>,
    list: Seq<int>,
    name: Seq<char>,
    count: int,
) -> Seq<int>
    decreases count,
{
    if count <= 0 {
        Seq::empty()
    } else if symbol_at(candidates, list[count - 1]).name == name {
        named_among(candidates, list, name, count - 1).push(list[count - 1])
    } else {
        named_among(candidates, list, name, count - 1)
    }
}

/// The symbols of a scope that have a name.
pub open spec fn symbols_named(context: Context, name: Seq<char>, s: int) -> Seq<int> {
    let list = symbols_in(
        context.candidates,
        rows::scope_row(context.scopes, s),
        symbols::kept(context.candidates).len() as int,
    );
    named_among(context.candidates, list, name, list.len() as int)
}

/// What a name stands for in a scope: the one symbol of that name in the
/// nearest scope that has any.
pub open spec fn resolution_of(context: Context, name: Seq<char>, s: int) -> (
    Option<int>,
    AnalysisResolution,
)
    decreases s,
{
    let found = symbols_named(context, name, s);
    if found.len() == 1 {
        (Some(found[0]), AnalysisResolution::Resolved)
    } else if found.len() > 1 {
        (None, AnalysisResolution::Ambiguous)
    } else {
        match context.scopes[s].parent {
            Some(parent) => if 0 <= parent < s {
                resolution_of(context, name, parent)
            } else {
                (None, AnalysisResolution::Unresolved)
            },
            None => (None, AnalysisResolution::Unresolved),
        }
    }
}

/// The model of a reference ahead of ordering.
pub struct PendingModel {
    pub node: int,
    pub scope: int,
    pub name: Seq<char>,
    pub role: AnalysisReferenceRole,
    pub target: Option<int>,
    pub resolution: AnalysisResolution,
}

/// Whether a node declares a candidate.
pub open spec fn is_binding(candidates: Seq<CandidateModel>, node: int) -> bool {
    exists|k: int| 0 <= k < candidates.len() && (#[trigger] candidates[k]).node == node
}

/// Whether a node refers to a name.
pub open spec fn is_reference(context: Context, i: int) -> bool {
    scope::bindings::is_identifier_kind(context.rows[i].kind) && !is_binding(context.candidates, i)
        && scope::is_lexical(context.rows, i)
}

/// The reference at a node.
pub open spec fn pending_of(context: Context, i: int) -> PendingModel {
    let s = scope::outer_scope(context.rows, context.inner, i);
    let name = syntax::text_of(context.rows, context.source, i);
    let found = resolution_of(context, name, s);
    PendingModel {
        node: i,
        scope: rows::scope_row(context.scopes, s),
        name,
        role: role_of(context.rows, i),
        target: found.0,
        resolution: found.1,
    }
}

/// The references at the first `count` nodes.
pub open spec fn pending_upto(context: Context, count: int) -> Seq<PendingModel>
    decreases count,
{
    if count <= 0 {
        Seq::empty()
    } else if is_reference(context, count - 1) {
        pending_upto(context, count - 1).push(pending_of(context, count - 1))
    } else {
        pending_upto(context, count - 1)
    }
}

/// All references, in source order.
pub open spec fn all_pending(context: Context) -> Seq<PendingModel> {
    pending_upto(context, context.rows.len() as int)
}

/// The names of references.
pub open spec fn pending_names(pending: Seq<PendingModel>) -> Seq<Seq<char>> {
    pending.map_values(|reference: PendingModel| reference.name)
}

/// What references are ordered by: symbol, start, end, role. Those without a
/// symbol come last.
pub open spec fn pending_key(rows: Seq<RowModel>, reference: PendingModel) -> Pair<
    u64,
    Pair<u64, Pair<u64, u64>>,
> {
    Pair(
        (match reference.target {
            Some(target) => target as u64,
            None => u32::MAX as u64,
        }),
        Pair(
            rows[reference.node].start_byte as u64,
            Pair(rows[reference.node].end_byte as u64, reference.role.code_spec() as u64),
        ),
    )
}

/// The ordering keys of references.
pub open spec fn pending_keys(rows: Seq<RowModel>, pending: Seq<PendingModel>) -> Seq<
    Pair<u64, Pair<u64, Pair<u64, u64>>>,
> {
    pending.map_values(|reference: PendingModel| pending_key(rows, reference))
}

/// The references in row order.
pub open spec fn ordered_references(context: Context) -> Seq<PendingModel> {
    let pending = all_pending(context);
    order::arranged(pending, pending_keys(context.rows, pending))
}

/// Whether a reference row records a reference.
pub open spec fn reference_is(
    row: AnalysisReference,
    nodes: Seq<AnalysisNode>,
    table: Seq<Seq<char>>,
    reference: PendingModel,
) -> bool {
    &&& row.node == reference.node
    &&& row.scope == reference.scope
    &&& interner::names(table, row.name, reference.name)
    &&& row.role == reference.role
    &&& row.id.0@ == analysis::reference_id_of(nodes[reference.node].id.0@, reference.role)
}

/// Whether reference rows record references.
pub open spec fn references_are(
    table_rows: Seq<AnalysisReference>,
    nodes: Seq<AnalysisNode>,
    table: Seq<Seq<char>>,
    ordered: Seq<PendingModel>,
) -> bool {
    &&& table_rows.len() == ordered.len()
    &&& forall|r: int|
        0 <= r < table_rows.len() ==> reference_is(
            #[trigger] table_rows[r],
            nodes,
            table,
            ordered[r],
        )
}

/// The identity of a symbol row, or that of a missing one.
pub open spec fn target_id(symbols: Seq<AnalysisSymbol>, target: Option<int>) -> Seq<u8> {
    match target {
        Some(target) => symbols[target].id.0@,
        None => analysis::no_id(),
    }
}

/// Whether a resolution row records what a reference resolves to.
pub open spec fn def_use_is(
    row: AnalysisDefUse,
    references: Seq<AnalysisReference>,
    symbols: Seq<AnalysisSymbol>,
    ordered: Seq<PendingModel>,
    r: int,
) -> bool {
    &&& row.reference == r
    &&& row.symbol == rows::optional_row(ordered[r].target)
    &&& row.resolution == ordered[r].resolution
    &&& row.id.0@ == analysis::def_use_id_of(
        references[r].id.0@,
        target_id(symbols, ordered[r].target),
        ordered[r].resolution,
    )
}

/// Whether resolution rows record what references resolve to.
pub open spec fn def_uses_are(
    table_rows: Seq<AnalysisDefUse>,
    references: Seq<AnalysisReference>,
    symbols: Seq<AnalysisSymbol>,
    ordered: Seq<PendingModel>,
) -> bool {
    &&& table_rows.len() == ordered.len()
    &&& forall|r: int|
        0 <= r < table_rows.len() ==> def_use_is(
            #[trigger] table_rows[r],
            references,
            symbols,
            ordered,
            r,
        )
}

/// How many of the first `count` references lead to a symbol.
pub open spec fn uses_of(pending: Seq<PendingModel>, symbol: int, count: int) -> nat
    decreases count,
{
    if count <= 0 {
        0
    } else {
        uses_of(pending, symbol, count - 1) + if pending[count - 1].target == Some(symbol) {
            1nat
        } else {
            0
        }
    }
}

/// How many references lead to the first `count` symbols.
pub open spec fn uses_before(pending: Seq<PendingModel>, count: int) -> nat
    decreases count,
{
    if count <= 0 {
        0
    } else {
        uses_before(pending, count - 1) + uses_of(pending, count - 1, pending.len() as int)
    }
}

/// Whether every symbol row counts the references that lead to it.
pub open spec fn ranges_are(symbols: Seq<AnalysisSymbol>, pending: Seq<PendingModel>) -> bool {
    forall|j: int|
        0 <= j < symbols.len() ==> (#[trigger] symbols[j]).reference_first == uses_before(
            pending,
            j,
        ) && symbols[j].reference_count == uses_of(pending, j, pending.len() as int)
}

fn grouping_kind(tree: &SyntaxTree, i: usize) -> (r: bool)
    requires
        i < tree@.len(),
    ensures
        r == is_grouping_kind(tree@[i as int].kind),
{
    tree.is_kind(i, "parenthesized_expression") || tree.is_kind(i, "object_pattern")
        || tree.is_kind(i, "array_pattern") || tree.is_kind(i, "pair_pattern") || tree.is_kind(
        i,
        "rest_pattern",
    ) || tree.is_kind(i, "assignment_pattern")
}

fn is_direct_assignment_target(tree: &SyntaxTree, container: usize, node: usize) -> (r: bool)
    requires
        container < tree@.len(),
        node < tree@.len(),
    ensures
        r == is_target(tree@, container as int, node as int),
{
    let outer = tree.row(container);
    let own = tree.row(node);
    if !(outer.start_byte <= own.start_byte && own.end_byte <= outer.end_byte) {
        return false;
    }
    let mut current: usize = node;
    while current != container
        invariant
            current < tree@.len(),
            container < tree@.len(),
            node < tree@.len(),
            tree@[container as int].start_byte <= tree@[node as int].start_byte,
            tree@[node as int].end_byte <= tree@[container as int].end_byte,
            climbs_to(tree@, container as int, node as int) == climbs_to(
                tree@,
                container as int,
                current as int,
            ),
        decreases current,
    {
        let parent = match tree.parent(current) {
            Some(parent) => parent,
            None => {
                return false;
            },
        };
        if tree.is_kind(parent, "member_expression") || tree.is_kind(
            parent,
            "subscript_expression",
        ) {
            return false;
        }
        if !(grouping_kind(tree, parent) || tree.is_kind(parent, "update_expression")) && parent
            != container {
            return false;
        }
        current = parent;
    }
    true
}

fn role_if_written(tree: &SyntaxTree, node: usize) -> (r: Option<AnalysisReferenceRole>)
    requires
        node < tree@.len(),
    ensures
        r == written_role(tree@, node as int, syntax::parent_of(tree@, node as int)),
{
    let mut ancestor: Option<usize> = tree.parent(node);
    loop
        invariant
            node < tree@.len(),
            ancestor matches Some(p) ==> p < tree@.len(),
            written_role(tree@, node as int, syntax::parent_of(tree@, node as int))
                == written_role(tree@, node as int, syntax::index_view(ancestor)),
        decreases
                (match ancestor {
                    Some(parent) => parent + 1,
                    None => 0,
                }),
    {
        let parent = match ancestor {
            Some(parent) => parent,
            None => {
                return None;
            },
        };
        let assigned = match tree.child_by_field_name(parent, "left") {
            Some(left) => is_direct_assignment_target(tree, left, node),
            None => false,
        };
        if tree.is_kind(parent, "assignment_expression") && assigned {
            return Some(AnalysisReferenceRole::Write);
        }
        if tree.is_kind(parent, "augmented_assignment_expression") && assigned {
            return Some(AnalysisReferenceRole::ReadWrite);
        }
        if (tree.is_kind(parent, "for_in_statement") || tree.is_kind(parent, "for_of_statement"))
            && assigned {
            return Some(AnalysisReferenceRole::Write);
        }
        if tree.is_kind(parent, "update_expression") && is_direct_assignment_target(
            tree,
            parent,
            node,
        ) {
            return Some(AnalysisReferenceRole::ReadWrite);
        }
        ancestor = tree.parent(parent);
    }
}

/// What an identifier does at a node.
pub(crate) fn reference_role(tree: &SyntaxTree, node: usize) -> (role: AnalysisReferenceRole)
    requires
        node < tree@.len(),
    ensures
        role == role_of(tree@, node as int),
{
    if let Some(role) = role_if_written(tree, node) {
        return role;
    }
    let mut current: usize = node;
    loop
        invariant
            current < tree@.len(),
            node < tree@.len(),
            role_of(tree@, node as int) == used_role(tree@, current as int),
        decreases current,
    {
        let parent = match tree.parent(current) {
            Some(parent) => parent,
            None => {
                return AnalysisReferenceRole::Read;
            },
        };
        if tree.is_kind(parent, "call_expression") && has_field(tree, current, "function") {
            return AnalysisReferenceRole::Call;
        }
        if tree.is_kind(parent, "new_expression") && has_field(tree, current, "constructor") {
            return AnalysisReferenceRole::Construct;
        }
        if tree.is_kind(parent, "export_specifier") && has_field(tree, current, "name") {
            return AnalysisReferenceRole::Export;
        }
        if !grouping_kind(tree, parent) {
            return AnalysisReferenceRole::Read;
        }
        current = parent;
    }
}

/// A reference ahead of ordering.
pub struct PendingReference {
    pub node: usize,
    pub scope: usize,
    pub name_row: u32,
    pub role: AnalysisReferenceRole,
    pub target: Option<usize>,
    pub resolution: AnalysisResolution,
}

/// Whether a pending reference records a reference.
pub open spec fn pending_is(
    pending: PendingReference,
    table: Seq<Seq<char>>,
    model: PendingModel,
) -> bool {
    &&& pending.node == model.node
    &&& pending.scope == model.scope
    &&& interner::names(table, pending.name_row, model.name)
    &&& pending.role == model.role
    &&& syntax::index_view(pending.target) == model.target
    &&& pending.resolution == model.resolution
}

/// Whether pending references record references.
pub open spec fn pending_are(
    pending: Seq<PendingReference>,
    table: Seq<Seq<char>>,
    models: Seq<PendingModel>,
) -> bool {
    &&& pending.len() == models.len()
    &&& forall|k: int|
        0 <= k < pending.len() ==> pending_is(#[trigger] pending[k], table, models[k])
}

/// Whether the symbols of candidates are listed by scope row.
pub open spec fn lists_symbols(
    by_scope: Seq<Vec<usize>>,
    candidates: Seq<CandidateModel>,
    count: int,
) -> bool {
    forall|row: int|
        0 <= row < by_scope.len() ==> syntax::index_views((#[trigger] by_scope[row])@)
            == symbols_in(candidates, row, count)
}

fn list_symbols(candidates: &Vec<Candidate>, sources: &Vec<usize>, scopes: usize) -> (by_scope: Vec<
    Vec<usize>,
>)
    requires
        syntax::index_views(sources@) == symbols::kept(symbols::candidate_views(candidates@)),
        symbols::candidates_are_in(candidates@, usize::MAX as int, scopes as int),
    ensures
        by_scope@.len() == scopes,
        lists_symbols(
            by_scope@,
            symbols::candidate_views(candidates@),
            sources@.len() as int,
        ),
{
    let ghost views = symbols::candidate_views(candidates@);
    let mut by_scope: Vec<Vec<usize>> = Vec::new();
    while by_scope.len() < scopes
        invariant
            by_scope@.len() <= scopes,
            lists_symbols(by_scope@, views, 0),
        decreases scopes - by_scope@.len(),
    {
        let list: Vec<usize> = Vec::new();
        assert(syntax::index_views(list@) =~= Seq::empty());
        by_scope.push(list);
    }
    let mut j: usize = 0;
    while j < sources.len()
        invariant
            j <= sources@.len(),
            views == symbols::candidate_views(candidates@),
            syntax::index_views(sources@) == symbols::kept(views),
            symbols::candidates_are_in(candidates@, usize::MAX as int, scopes as int),
            by_scope@.len() == scopes,
            lists_symbols(by_scope@, views, j as int),
        decreases sources@.len() - j,
    {
        proof {
            lemma_kept_in_range(views, views.len() as int, j as int);
            assert(symbols::kept(views)[j as int] == sources@[j as int] as int);
            assert(views[sources@[j as int] as int] == candidates@[sources@[j as int] as int]@);
        }
        let row = candidates[sources[j]].scope;
        let ghost before = by_scope@;
        by_scope[row].push(j);
        proof {
            assert forall|other: int| 0 <= other < by_scope@.len() implies syntax::index_views(
                (#[trigger] by_scope@[other])@,
            ) == symbols_in(views, other, j + 1) by {
                assert(syntax::index_views(before[other]@) == symbols_in(views, other, j as int));
                if other == row {
                    assert(syntax::index_views(by_scope@[other]@) =~= syntax::index_views(
                        before[other]@,
                    ).push(j as int));
                }
            }
        }
        j += 1;
    }
    by_scope
}

/// Kept candidates are candidates.
pub proof fn lemma_kept_in_range(candidates: Seq<CandidateModel>, count: int, j: int)
    requires
        0 <= j < symbols::kept_upto(candidates, count).len(),
    ensures
        0 <= symbols::kept_upto(candidates, count)[j] < count,
    decreases count,
{
    if count > 0 {
        let shorter = symbols::kept_upto(candidates, count - 1);
        if j < shorter.len() {
            lemma_kept_in_range(candidates, count - 1, j);
        }
    }
}

proof fn lemma_symbols_in_range(candidates: Seq<CandidateModel>, scope: int, count: int, k: int)
    requires
        0 <= k < symbols_in(candidates, scope, count).len(),
    ensures
        0 <= symbols_in(candidates, scope, count)[k] < count,
    decreases count,
{
    if count > 0 {
        if k < symbols_in(candidates, scope, count - 1).len() {
            lemma_symbols_in_range(candidates, scope, count - 1, k);
        }
    }
}

fn find_named(
    candidates: &Vec<Candidate>,
    sources: &Vec<usize>,
    list: &Vec<usize>,
    name: &str,
) -> (r: (usize, Option<usize>))
    requires
        syntax::index_views(sources@) == symbols::kept(symbols::candidate_views(candidates@)),
        forall|k: int| 0 <= k < list@.len() ==> #[trigger] list@[k] < sources@.len(),
    ensures
        ({
            let found = named_among(
                symbols::candidate_views(candidates@),
                syntax::index_views(list@),
                name@,
                list@.len() as int,
            );
            &&& r.0 == found.len()
            &&& found.len() > 0 ==> syntax::index_view(r.1) == Some(found[0]) && 0 <= found[0]
                < sources@.len()
        }),
{
    let ghost views = symbols::candidate_views(candidates@);
    let ghost indexes = syntax::index_views(list@);
    let mut count: usize = 0;
    let mut first: Option<usize> = None;
    let mut k: usize = 0;
    while k < list.len()
        invariant
            k <= list@.len(),
            views == symbols::candidate_views(candidates@),
            indexes == syntax::index_views(list@),
            syntax::index_views(sources@) == symbols::kept(views),
            forall|j: int| 0 <= j < list@.len() ==> #[trigger] list@[j] < sources@.len(),
            count <= k,
            count == named_among(views, indexes, name@, k as int).len(),
            count > 0 ==> syntax::index_view(first) == Some(
                named_among(views, indexes, name@, k as int)[0],
            ) && 0 <= named_among(views, indexes, name@, k as int)[0] < sources@.len(),
        decreases list@.len() - k,
    {
        let j = list[k];
        proof {
            assert(indexes[k as int] == j as int);
            lemma_kept_in_range(views, views.len() as int, j as int);
            assert(symbols::kept(views)[j as int] == sources@[j as int] as int);
            assert(views[sources@[j as int] as int] == candidates@[sources@[j as int] as int]@);
        }
        if same_text(candidates[sources[j]].name.as_str(), name) {
            if count == 0 {
                first = Some(j);
            }
            count += 1;
        }
        k += 1;
    }
    (count, first)
}

/// Whether the pieces of a context are those of an analyzed tree.
pub open spec fn is_context(
    context: Context,
    tree: SyntaxTree,
    source: Seq<char>,
    analyzer: ScopeAnalyzer,
    candidates: Seq<Candidate>,
) -> bool {
    &&& context.rows == tree@
    &&& context.source == source
    &&& context.scopes == analyzer@.scopes
    &&& context.inner == analyzer@.inner
    &&& context.candidates == symbols::candidate_views(candidates)
    &&& context.inner.len() == context.rows.len()
}

fn resolve(
    analyzer: &ScopeAnalyzer,
    places: &Vec<usize>,
    by_scope: &Vec<Vec<usize>>,
    candidates: &Vec<Candidate>,
    sources: &Vec<usize>,
    name: &str,
    from: usize,
    context: Ghost<Context>,
) -> (r: (Option<usize>, AnalysisResolution))
    requires
        from < analyzer@.scopes.len(),
        context@.scopes == analyzer@.scopes,
        context@.candidates == symbols::candidate_views(candidates@),
        rows::lists_scope_rows(places@, analyzer@.scopes),
        by_scope@.len() == analyzer@.scopes.len(),
        lists_symbols(by_scope@, context@.candidates, sources@.len() as int),
        syntax::index_views(sources@) == symbols::kept(context@.candidates),
    ensures
        syntax::index_view(r.0) == resolution_of(context@, name@, from as int).0,
        r.1 == resolution_of(context@, name@, from as int).1,
        r.0 matches Some(target) ==> target < sources@.len(),
{
    let scopes = analyzer.get_scopes();
    let ghost count = symbols::kept(context@.candidates).len() as int;
    proof {
        assert(syntax::index_views(sources@).len() == sources@.len());
    }
    let mut s: usize = from;
    loop
        invariant
            s < scopes@.len(),
            scope::scope_views(scopes@) == context@.scopes,
            scope::scopes_form_a_tree(context@.scopes),
            context@.candidates == symbols::candidate_views(candidates@),
            rows::lists_scope_rows(places@, context@.scopes),
            by_scope@.len() == context@.scopes.len(),
            count == sources@.len(),
            count == symbols::kept(context@.candidates).len(),
            lists_symbols(by_scope@, context@.candidates, count),
            syntax::index_views(sources@) == symbols::kept(context@.candidates),
            resolution_of(context@, name@, from as int) == resolution_of(
                context@,
                name@,
                s as int,
            ),
        decreases s,
    {
        proof {
            assert(places@[s as int] == rows::scope_row(context@.scopes, s as int));
            assert(scope::scope_fits(context@.scopes, s as int));
            assert(context@.scopes[s as int] == scopes@[s as int]@);
        }
        let row = places[s];
        let list = &by_scope[row];
        proof {
            assert(syntax::index_views(list@) == symbols_in(
                context@.candidates,
                row as int,
                count,
            ));
            assert forall|k: int| 0 <= k < list@.len() implies #[trigger] list@[k]
                < sources@.len() by {
                assert(syntax::index_views(list@)[k] == list@[k] as int);
                lemma_symbols_in_range(context@.candidates, row as int, count, k);
            }
            assert(syntax::index_views(list@).len() == list@.len());
        }
        let (found, first) = find_named(candidates, sources, list, name);
        if found == 1 {
            return (first, AnalysisResolution::Resolved);
        }
        if found > 1 {
            return (None, AnalysisResolution::Ambiguous);
        }
        match scopes[s].parent {
            Some(parent) => {
                s = parent;
            },
            None => {
                return (None, AnalysisResolution::Unresolved);
            },
        }
    }
}

fn mark_bindings(candidates: &Vec<Candidate>, nodes: usize) -> (flags: Vec<bool>)
    requires
        symbols::candidates_are_in(candidates@, nodes as int, usize::MAX as int),
    ensures
        flags@.len() == nodes,
        forall|i: int|
            0 <= i < nodes ==> #[trigger] flags@[i] == is_binding(
                symbols::candidate_views(candidates@),
                i,
            ),
{
    let ghost views = symbols::candidate_views(candidates@);
    let mut flags: Vec<bool> = Vec::new();
    while flags.len() < nodes
        invariant
            flags@.len() <= nodes,
            forall|i: int| 0 <= i < flags@.len() ==> !#[trigger] flags@[i],
        decreases nodes - flags@.len(),
    {
        flags.push(false);
    }
    let mut k: usize = 0;
    while k < candidates.len()
        invariant
            k <= candidates@.len(),
            views == symbols::candidate_views(candidates@),
            symbols::candidates_are_in(candidates@, nodes as int, usize::MAX as int),
            flags@.len() == nodes,
            forall|i: int|
                0 <= i < nodes ==> #[trigger] flags@[i] == (exists|j: int|
                    0 <= j < k && (#[trigger] views[j]).node == i),
        decreases candidates@.len() - k,
    {
        let ghost before = flags@;
        assert(views[k as int] == candidates@[k as int]@);
        flags.set(candidates[k].node, true);
        proof {
            assert forall|i: int| 0 <= i < nodes implies #[trigger] flags@[i] == (exists|j: int|
                0 <= j < k + 1 && (#[trigger] views[j]).node == i) by {
                assert(before[i] == (exists|j: int| 0 <= j < k && (#[trigger] views[j]).node == i));
                if i == views[k as int].node {
                    assert(flags@[i]);
                } else if exists|j: int| 0 <= j < k + 1 && (#[trigger] views[j]).node == i {
                    let j = choose|j: int| 0 <= j < k + 1 && (#[trigger] views[j]).node == i;
                    assert(j < k);
                }
            }
        }
        k += 1;
    }
    flags
}

proof fn lemma_pending_prefix(context: Context, a: int, b: int)
    requires
        0 <= a <= b,
    ensures
        pending_upto(context, a).len() <= pending_upto(context, b).len(),
        pending_upto(context, b).take(pending_upto(context, a).len() as int) == pending_upto(
            context,
            a,
        ),
        pending_upto(context, b).len() <= b,
    decreases b,
{
    if a < b {
        lemma_pending_prefix(context, a, b - 1);
        let n = pending_upto(context, a).len() as int;
        assert(pending_upto(context, b).take(n) =~= pending_upto(context, b - 1).take(n));
    } else {
        let all = pending_upto(context, a);
        assert(all.take(all.len() as int) =~= all);
        if b > 0 {
            lemma_pending_prefix(context, b - 1, b - 1);
        }
    }
}

/// Collects the references of a tree in source order, and adds their names to
/// the strings.
pub(crate) fn collect_references(
    tree: &SyntaxTree,
    source: &str,
    analyzer: &ScopeAnalyzer,
    places: &Vec<usize>,
    candidates: &Vec<Candidate>,
    sources: &Vec<usize>,
    strings: &mut StringInterner,
    context: Ghost<Context>,
) -> (r: Result<Vec<PendingReference>, AnalysisError>)
    requires
        old(strings).is_wf(),
        syntax::covers(tree@, source@),
        is_context(context@, *tree, source@, *analyzer, candidates@),
        scope::inner_scopes_exist(analyzer@),
        rows::lists_scope_rows(places@, analyzer@.scopes),
        syntax::index_views(sources@) == symbols::kept(context@.candidates),
        symbols::candidates_are_in(
            candidates@,
            tree@.len() as int,
            analyzer@.scopes.len() as int,
        ),
    ensures
        final(strings).is_wf(),
        match r {
            Ok(pending) => {
                &&& final(strings).texts() == interner::all_joined(
                    old(strings).texts(),
                    pending_names(all_pending(context@)),
                )
                &&& pending_are(pending@, final(strings).texts(), all_pending(context@))
                &&& targets_exist(pending@, sources@.len() as int)
                &&& pending@.len() <= tree@.len()
                &&& forall|k: int|
                    0 <= k < pending@.len() ==> (#[trigger] pending@[k]).node < tree@.len()
                        && pending@[k].scope < analyzer@.scopes.len()
            },
            Err(error) => {
                &&& error == AnalysisError::TooManyRows
                &&& interner::all_joined(
                    old(strings).texts(),
                    pending_names(all_pending(context@)),
                ).len() > u32::MAX + 1
            },
        },
{
    let length: usize = tree.len();
    let ghost start = strings.texts();
    let ghost names = pending_names(all_pending(context@));
    let scopes = analyzer.get_scopes();
    let scope_count: usize = scopes.len();
    assert(scope::scope_views(scopes@).len() == scope_count);
    let by_scope = list_symbols(candidates, sources, scope_count);
    let bindings = mark_bindings(candidates, length);
    let mut pending: Vec<PendingReference> = Vec::new();
    let mut i: usize = 0;
    proof {
        assert(pending_names(pending_upto(context@, 0)) =~= Seq::empty());
    }
    while i < length
        invariant
            i <= length,
            length == tree@.len(),
            start == old(strings).texts(),
            names == pending_names(all_pending(context@)),
            strings.is_wf(),
            syntax::covers(tree@, source@),
            is_context(context@, *tree, source@, *analyzer, candidates@),
            scope::inner_scopes_exist(analyzer@),
            scope::scopes_form_a_tree(analyzer@.scopes),
            rows::lists_scope_rows(places@, analyzer@.scopes),
            by_scope@.len() == analyzer@.scopes.len(),
            lists_symbols(by_scope@, context@.candidates, sources@.len() as int),
            syntax::index_views(sources@) == symbols::kept(context@.candidates),
            bindings@.len() == length,
            forall|k: int|
                0 <= k < length ==> #[trigger] bindings@[k] == is_binding(context@.candidates, k),
            strings.texts() == interner::all_joined(
                start,
                pending_names(pending_upto(context@, i as int)),
            ),
            pending_are(pending@, strings.texts(), pending_upto(context@, i as int)),
            targets_exist(pending@, sources@.len() as int),
            pending@.len() <= i,
            forall|k: int|
                0 <= k < pending@.len() ==> (#[trigger] pending@[k]).node < tree@.len()
                    && pending@[k].scope < analyzer@.scopes.len(),
        decreases length - i,
    {
        if identifier_kind(tree, i) && !bindings[i] && is_lexical_reference(tree, i) {
            let ghost before = strings.texts();
            let ghost earlier = pending_upto(context@, i as int);
            let text = tree.text(i, source);
            proof {
                let own = pending_of(context@, i as int);
                assert(pending_upto(context@, i + 1) == earlier.push(own));
                assert(pending_names(earlier.push(own)) =~= pending_names(earlier).push(own.name));
                interner::lemma_joined_push(start, pending_names(earlier), own.name);
                lemma_pending_prefix(context@, i + 1, length as int);
                let count = pending_upto(context@, i + 1).len() as int;
                rows::lemma_joined_lengths(start, names, count);
                assert(names.take(count) =~= pending_names(pending_upto(context@, i + 1)));
            }
            let name_row = match strings.intern(text) {
                Ok(row) => row,
                Err(error) => {
                    return Err(error);
                },
            };
            let role = reference_role(tree, i);
            let s: usize = match tree.parent(i) {
                Some(parent) => analyzer.scope_inside(parent),
                None => 0,
            };
            let (target, resolution) = resolve(
                analyzer,
                places,
                &by_scope,
                candidates,
                sources,
                text,
                s,
                context,
            );
            assert(places@[s as int] == rows::scope_row(context@.scopes, s as int));
            pending.push(
                PendingReference { node: i, scope: places[s], name_row, role, target, resolution },
            );
            proof {
                assert(interner::extends(strings.texts(), before)) by {
                    assert(strings.texts().take(before.len() as int) =~= before);
                }
                assert forall|k: int| 0 <= k < pending@.len() implies pending_is(
                    #[trigger] pending@[k],
                    strings.texts(),
                    pending_upto(context@, i + 1)[k],
                ) by {
                    if k < pending@.len() - 1 {
                        interner::lemma_names_stay(
                            strings.texts(),
                            before,
                            pending@[k].name_row,
                            earlier[k].name,
                        );
                    }
                }
            }
        }
        i += 1;
    }
    Ok(pending)
}

/// Whether every target is a symbol row.
pub open spec fn targets_exist(pending: Seq<PendingReference>, symbols: int) -> bool {
    forall|k: int|
        0 <= k < pending.len() ==> target_exists(#[trigger] pending[k], symbols)
}

/// Whether a reference's target is a symbol row.
pub open spec fn target_exists(pending: PendingReference, symbols: int) -> bool {
    pending.target matches Some(target) ==> target < symbols
}

/// Whether every resolved reference leads to a symbol row.
pub open spec fn resolved_rows_exist(ordered: Seq<PendingModel>, symbols: int) -> bool {
    forall|k: int| 0 <= k < ordered.len() ==> row_exists(#[trigger] ordered[k], symbols)
}

/// Whether a resolved reference leads to a symbol row.
pub open spec fn row_exists(reference: PendingModel, symbols: int) -> bool {
    reference.target matches Some(row) ==> 0 <= row < symbols
}

/// Puts references into row order, and records them with what they resolve
/// to.
pub(crate) fn record_references(
    tree: &SyntaxTree,
    nodes: &Vec<AnalysisNode>,
    symbols: &Vec<AnalysisSymbol>,
    pending: &Vec<PendingReference>,
    table: Ghost<Seq<Seq<char>>>,
    context: Ghost<Context>,
) -> (r: (Vec<AnalysisReference>, Vec<AnalysisDefUse>))
    requires
        context@.rows == tree@,
        nodes@.len() == tree@.len(),
        tree@.len() <= u32::MAX,
        context@.scopes.len() <= u32::MAX,
        symbols@.len() <= u32::MAX,
        pending_are(pending@, table@, all_pending(context@)),
        targets_exist(pending@, symbols@.len() as int),
        pending@.len() <= tree@.len(),
        forall|k: int|
            0 <= k < pending@.len() ==> (#[trigger] pending@[k]).node < tree@.len()
                && pending@[k].scope < context@.scopes.len(),
    ensures
        references_are(r.0@, nodes@, table@, ordered_references(context@)),
        def_uses_are(r.1@, r.0@, symbols@, ordered_references(context@)),
        forall|k: int| 0 <= k < r.0@.len() ==> (#[trigger] r.0@[k]).node < tree@.len(),
        resolved_rows_exist(ordered_references(context@), symbols@.len() as int),
        r.0@.len() == pending@.len(),
{
    let ghost models = all_pending(context@);
    let length: usize = pending.len();
    let mut keys: Vec<Pair<u64, Pair<u64, Pair<u64, u64>>>> = Vec::new();
    let mut k: usize = 0;
    while k < length
        invariant
            k <= length,
            length == pending@.len(),
            models == all_pending(context@),
            context@.rows == tree@,
            pending_are(pending@, table@, models),
            forall|j: int|
                0 <= j < pending@.len() ==> (#[trigger] pending@[j]).node < tree@.len(),
            keys@.len() == k,
            forall|j: int|
                0 <= j < k ==> #[trigger] keys@[j] == pending_key(context@.rows, models[j]),
        decreases length - k,
    {
        let item = &pending[k];
        assert(pending_is(pending@[k as int], table@, models[k as int]));
        let row = tree.row(item.node);
        let target: u64 = match item.target {
            Some(target) => target as u64,
            None => u32::MAX as u64,
        };
        keys.push(
            Pair(
                target,
                Pair(
                    row.start_byte as u64,
                    Pair(row.end_byte as u64, item.role.code() as u64),
                ),
            ),
        );
        k += 1;
    }
    assert(keys@ =~= pending_keys(context@.rows, models));
    let order = stable_order(&keys);
    let ghost ordered = ordered_references(context@);
    proof {
        order::lemma_ranks(keys@, order@);
    }
    let mut references: Vec<AnalysisReference> = Vec::new();
    let mut def_uses: Vec<AnalysisDefUse> = Vec::new();
    let mut r: usize = 0;
    while r < length
        invariant
            r <= length,
            length == pending@.len(),
            length <= u32::MAX,
            models == all_pending(context@),
            ordered == ordered_references(context@),
            ordered.len() == length,
            order@.len() == length,
            nodes@.len() == tree@.len(),
            tree@.len() <= u32::MAX,
            context@.scopes.len() <= u32::MAX,
            symbols@.len() <= u32::MAX,
            pending_are(pending@, table@, models),
            targets_exist(pending@, symbols@.len() as int),
            forall|j: int|
                0 <= j < pending@.len() ==> (#[trigger] pending@[j]).node < tree@.len()
                    && pending@[j].scope < context@.scopes.len(),
            forall|j: int| 0 <= j < length ==> #[trigger] order@[j] < length,
            forall|j: int| 0 <= j < length ==> #[trigger] ordered[j] == models[order@[j] as int],
            references@.len() == r,
            def_uses@.len() == r,
            forall|j: int|
                0 <= j < r ==> reference_is(#[trigger] references@[j], nodes@, table@, ordered[j])
                    && references@[j].node < tree@.len(),
            forall|j: int|
                0 <= j < r ==> row_exists(#[trigger] ordered[j], symbols@.len() as int),
            forall|j: int|
                0 <= j < r ==> def_use_is(
                    #[trigger] def_uses@[j],
                    references@,
                    symbols@,
                    ordered,
                    j,
                ),
        decreases length - r,
    {
        let item = &pending[order[r]];
        proof {
            assert(pending_is(
                pending@[order@[r as int] as int],
                table@,
                models[order@[r as int] as int],
            ));
            assert(ordered[r as int] == models[order@[r as int] as int]);
            assert(target_exists(pending@[order@[r as int] as int], symbols@.len() as int));
        }
        let id = reference_id(&nodes[item.node].id, item.role);
        let target = match item.target {
            Some(target) => symbols[target].id,
            None => missing_id(),
        };
        let edge = def_use_id(&id, &target, item.resolution);
        let symbol: Option<u32> = match item.target {
            Some(target) => Some(target as u32),
            None => None,
        };
        let ghost before = references@;
        references.push(
            AnalysisReference {
                id,
                node: item.node as u32,
                scope: item.scope as u32,
                name: item.name_row,
                role: item.role,
            },
        );
        def_uses.push(
            AnalysisDefUse { id: edge, reference: r as u32, symbol, resolution: item.resolution },
        );
        proof {
            assert forall|j: int| 0 <= j < r + 1 implies def_use_is(
                #[trigger] def_uses@[j],
                references@,
                symbols@,
                ordered,
                j,
            ) by {
                if j < r {
                    assert(references@[j] == before[j]);
                }
            }
        }
        r += 1;
    }
    (references, def_uses)
}

proof fn lemma_uses_total(pending: Seq<PendingModel>, symbols: int, count: int)
    requires
        0 <= symbols,
        0 <= count <= pending.len(),
    ensures
        uses_upto(pending, symbols, count) <= count,
    decreases count,
{
    if count > 0 {
        lemma_uses_total(pending, symbols, count - 1);
        lemma_uses_step(pending, symbols, count);
    } else {
        lemma_uses_none(pending, symbols);
    }
}

/// How many of the first `count` references lead to the first `symbols`
/// symbols.
spec fn uses_upto(pending: Seq<PendingModel>, symbols: int, count: int) -> nat
    decreases symbols,
{
    if symbols <= 0 {
        0
    } else {
        uses_upto(pending, symbols - 1, count) + uses_of(pending, symbols - 1, count)
    }
}

proof fn lemma_uses_none(pending: Seq<PendingModel>, symbols: int)
    ensures
        uses_upto(pending, symbols, 0) == 0,
    decreases symbols,
{
    if symbols > 0 {
        lemma_uses_none(pending, symbols - 1);
    }
}

proof fn lemma_uses_step(pending: Seq<PendingModel>, symbols: int, count: int)
    requires
        0 < count <= pending.len(),
    ensures
        uses_upto(pending, symbols, count) == uses_upto(pending, symbols, count - 1) + (
        match pending[count - 1].target {
            Some(target) => if 0 <= target < symbols {
                1nat
            } else {
                0
            },
            None => 0,
        }),
    decreases symbols,
{
    if symbols > 0 {
        lemma_uses_step(pending, symbols - 1, count);
    }
}

proof fn lemma_uses_before(pending: Seq<PendingModel>, symbols: int)
    ensures
        uses_before(pending, symbols) == uses_upto(pending, symbols, pending.len() as int),
    decreases symbols,
{
    if symbols > 0 {
        lemma_uses_before(pending, symbols - 1);
    }
}

/// Counts for every symbol the references that lead to it.
pub(crate) fn record_ranges(
    symbols: Vec<AnalysisSymbol>,
    pending: &Vec<PendingReference>,
    table: Ghost<Seq<Seq<char>>>,
    models: Ghost<Seq<PendingModel>>,
) -> (r: Vec<AnalysisSymbol>)
    requires
        pending_are(pending@, table@, models@),
        targets_exist(pending@, symbols@.len() as int),
        pending@.len() <= u32::MAX,
    ensures
        r@.len() == symbols@.len(),
        ranges_are(r@, models@),
        forall|j: int| 0 <= j < r@.len() ==> same_apart_from_range(#[trigger] r@[j], symbols@[j]),
{
    let length: usize = symbols.len();
    let mut counts: Vec<u32> = Vec::new();
    while counts.len() < length
        invariant
            counts@.len() <= length,
            forall|j: int| 0 <= j < counts@.len() ==> #[trigger] counts@[j] == 0,
        decreases length - counts@.len(),
    {
        counts.push(0);
    }
    let mut k: usize = 0;
    while k < pending.len()
        invariant
            k <= pending@.len(),
            pending@.len() <= u32::MAX,
            counts@.len() == length,
            length == symbols@.len(),
            pending_are(pending@, table@, models@),
            targets_exist(pending@, symbols@.len() as int),
            forall|j: int|
                0 <= j < length ==> #[trigger] counts@[j] == uses_of(models@, j, k as int)
                    && counts@[j] <= k,
        decreases pending@.len() - k,
    {
        proof {
            assert(pending_is(pending@[k as int], table@, models@[k as int]));
            assert(target_exists(pending@[k as int], symbols@.len() as int));
        }
        if let Some(target) = pending[k].target {
            let count = counts[target];
            counts.set(target, count + 1);
        }
        k += 1;
    }
    let mut ranged: Vec<AnalysisSymbol> = Vec::new();
    let mut first: u32 = 0;
    let mut j: usize = 0;
    while j < length
        invariant
            j <= length,
            length == symbols@.len(),
            counts@.len() == length,
            pending@.len() <= u32::MAX,
            pending@.len() == models@.len(),
            ranged@.len() == j,
            first == uses_before(models@, j as int),
            forall|i: int|
                0 <= i < length ==> #[trigger] counts@[i] == uses_of(
                    models@,
                    i,
                    models@.len() as int,
                ),
            forall|i: int|
                0 <= i < j ==> (#[trigger] ranged@[i]).reference_first == uses_before(models@, i)
                    && ranged@[i].reference_count == uses_of(models@, i, models@.len() as int)
                    && same_apart_from_range(ranged@[i], symbols@[i]),
        decreases length - j,
    {
        let symbol = &symbols[j];
        let count = counts[j];
        ranged.push(
            AnalysisSymbol {
                id: symbol.id,
                declaration_node: symbol.declaration_node,
                scope: symbol.scope,
                name: symbol.name,
                kind: symbol.kind,
                reference_first: first,
                reference_count: count,
            },
        );
        proof {
            lemma_uses_before(models@, j + 1);
            lemma_uses_total(models@, j + 1, models@.len() as int);
        }
        first = first + count;
        j += 1;
    }
    ranged
}

/// Whether two symbol rows differ in their reference ranges at most.
pub open spec fn same_apart_from_range(a: AnalysisSymbol, b: AnalysisSymbol) -> bool {
    &&& a.id == b.id
    &&& a.declaration_node == b.declaration_node
    &&& a.scope == b.scope
    &&& a.name == b.name
    &&& a.kind == b.kind
}

} // verus!
