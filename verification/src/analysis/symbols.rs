//! The symbol rows of an analysis: every lexical binding, with redeclarations
//! of one function-scoped name taken together.

use std::collections::HashMap;

use vstd::prelude::*;
use vstd::string::*;

use super::interner::StringInterner;
use super::{symbol_id, AnalysisError, AnalysisNode, AnalysisSymbol, AnalysisSymbolKind};
use crate::order::{stable_order, Pair};
use crate::scope::{identifier_kind, Scope, ScopeModel, VariableKind, VariableModel};
use crate::syntax::{RowModel, SyntaxTree};
use crate::text::same_text;
use crate::{analysis, order, scope, syntax};

use super::{interner, rows};

verus! {

/// The number of bytes that a node covers.
pub open spec fn size_of(row: RowModel) -> int {
    if row.start_byte <= row.end_byte {
        row.end_byte - row.start_byte
    } else {
        0
    }
}

/// Whether a node is a closer fit for a binding than another: it is smaller,
/// or as small and an identifier where the other is not.
pub open spec fn fits_closer(rows: Seq<RowModel>, i: int, other: int) -> bool {
    size_of(rows[i]) < size_of(rows[other]) || (size_of(rows[i]) == size_of(rows[other])
        && scope::bindings::is_identifier_kind(rows[i].kind)
        && !scope::bindings::is_identifier_kind(rows[other].kind))
}

/// The first closest fit for a binding at a byte among the first `count`
/// nodes.
pub open spec fn binding_node_upto(rows: Seq<RowModel>, byte: int, count: int) -> Option<int>
    decreases count,
{
    if count <= 0 {
        None
    } else {
        let earlier = binding_node_upto(rows, byte, count - 1);
        let i = count - 1;
        if rows[i].named && rows[i].start_byte == byte && (earlier matches Some(best)
            ==> fits_closer(rows, i, best)) {
            Some(i)
        } else {
            earlier
        }
    }
}

/// The node that declares a binding at a byte.
pub open spec fn binding_node(rows: Seq<RowModel>, byte: int) -> Option<int> {
    binding_node_upto(rows, byte, rows.len() as int)
}

/// Whether a byte lies in a node of a kind.
pub open spec fn lies_in_kind(rows: Seq<RowModel>, kind: Seq<char>, byte: int) -> bool {
    exists|i: int|
        0 <= i < rows.len() && (#[trigger] rows[i]).kind == kind && rows[i].start_byte <= byte
            < rows[i].end_byte
}

/// Whether a scope covers exactly what a node of a kind covers.
pub open spec fn spans_kind(rows: Seq<RowModel>, kind: Seq<char>, scope: ScopeModel) -> bool {
    exists|i: int|
        0 <= i < rows.len() && (#[trigger] rows[i]).kind == kind && rows[i].start_byte
            == scope.start_byte && rows[i].end_byte == scope.end_byte
}

/// The persisted kind of a variable. The syntax around it tells imports from
/// constants, and catch bindings from parameters.
pub open spec fn symbol_kind_of(
    kind: VariableKind,
    imported: bool,
    catch_scope: bool,
) -> AnalysisSymbolKind {
    if imported {
        AnalysisSymbolKind::Import
    } else if catch_scope && kind == VariableKind::Parameter {
        AnalysisSymbolKind::Catch
    } else {
        match kind {
            VariableKind::FunctionDeclaration => AnalysisSymbolKind::Function,
            VariableKind::ClassDeclaration => AnalysisSymbolKind::Class,
            VariableKind::Var => AnalysisSymbolKind::Var,
            VariableKind::Let => AnalysisSymbolKind::Let,
            VariableKind::Const => AnalysisSymbolKind::Const,
            VariableKind::Parameter => AnalysisSymbolKind::Parameter,
        }
    }
}

/// The model of a [`Candidate`].
pub struct CandidateModel {
    pub scope: int,
    pub byte: int,
    pub name: Seq<char>,
    pub node: int,
    pub kind: AnalysisSymbolKind,
}

/// The symbol that a variable gives rise to.
pub open spec fn candidate_of(
    rows: Seq<RowModel>,
    scopes: Seq<ScopeModel>,
    s: int,
    k: int,
) -> CandidateModel {
    let variable = scopes[s].variables[k];
    CandidateModel {
        scope: rows::scope_row(scopes, s),
        byte: variable.byte,
        name: variable.name,
        node: match binding_node(rows, variable.byte) {
            Some(node) => node,
            None => -1,
        },
        kind: symbol_kind_of(
            variable.kind,
            lies_in_kind(rows, "import_statement"@, variable.byte),
            spans_kind(rows, "catch_clause"@, scopes[s]),
        ),
    }
}

/// The candidates of the scopes ahead of `s` and of the first `k` variables
/// of `s`.
pub open spec fn candidates_in(
    rows: Seq<RowModel>,
    scopes: Seq<ScopeModel>,
    s: int,
    k: nat,
) -> Seq<CandidateModel>
    decreases s, k + 1,
{
    if k == 0 {
        candidates_before(rows, scopes, s)
    } else {
        candidates_in(rows, scopes, s, (k - 1) as nat).push(candidate_of(rows, scopes, s, k - 1))
    }
}

/// The candidates of the scopes ahead of `s`.
pub open spec fn candidates_before(
    rows: Seq<RowModel>,
    scopes: Seq<ScopeModel>,
    s: int,
) -> Seq<CandidateModel>
    decreases s, 0nat,
{
    if s <= 0 {
        Seq::empty()
    } else {
        candidates_in(rows, scopes, s - 1, scopes[s - 1].variables.len())
    }
}

/// The candidates of all scopes.
pub open spec fn all_candidates(rows: Seq<RowModel>, scopes: Seq<ScopeModel>) -> Seq<
    CandidateModel,
> {
    candidates_before(rows, scopes, scopes.len() as int)
}

/// Whether a variable is declared where no node begins.
pub open spec fn some_binding_lacks_a_node(rows: Seq<RowModel>, scopes: Seq<ScopeModel>) -> bool {
    exists|s: int, k: int|
        0 <= s < scopes.len() && 0 <= k < scopes[s].variables.len() && lacks_a_node(
            rows,
            #[trigger] scopes[s].variables[k],
        )
}

/// Whether a variable is declared where no node begins.
pub open spec fn lacks_a_node(rows: Seq<RowModel>, variable: VariableModel) -> bool {
    binding_node(rows, variable.byte) is None
}

/// What candidates are ordered by: scope, byte, node, kind.
pub open spec fn candidate_key(candidate: CandidateModel) -> Pair<
    u64,
    Pair<u64, Pair<u64, u64>>,
> {
    Pair(
        candidate.scope as u64,
        Pair(
            candidate.byte as u64,
            Pair(candidate.node as u64, candidate.kind.code_spec() as u64),
        ),
    )
}

/// The ordering keys of candidates.
pub open spec fn candidate_keys(candidates: Seq<CandidateModel>) -> Seq<
    Pair<u64, Pair<u64, Pair<u64, u64>>>,
> {
    candidates.map_values(|candidate: CandidateModel| candidate_key(candidate))
}

/// The first `count` candidates without those that repeat their predecessor.
pub open spec fn without_repeats(candidates: Seq<CandidateModel>, count: int) -> Seq<CandidateModel>
    decreases count,
{
    if count <= 0 {
        Seq::empty()
    } else if count >= 2 && candidates[count - 1] == candidates[count - 2] {
        without_repeats(candidates, count - 1)
    } else {
        without_repeats(candidates, count - 1).push(candidates[count - 1])
    }
}

/// The candidates in order, each once.
pub open spec fn ordered_candidates(rows: Seq<RowModel>, scopes: Seq<ScopeModel>) -> Seq<
    CandidateModel,
> {
    let all = all_candidates(rows, scopes);
    without_repeats(order::arranged(all, candidate_keys(all)), all.len() as int)
}

/// Whether two candidates bind the same name in the same scope.
pub open spec fn binds_same(candidates: Seq<CandidateModel>, k: int, m: int) -> bool {
    candidates[k].scope == candidates[m].scope && candidates[k].name == candidates[m].name
}

/// Whether a kind may be declared again in its scope.
pub open spec fn is_var_or_function(kind: AnalysisSymbolKind) -> bool {
    kind == AnalysisSymbolKind::Var || kind == AnalysisSymbolKind::Function
}

/// Whether a candidate is one of several declarations of one binding: all of
/// them variables or functions, or all of them parameters.
pub open spec fn is_redeclared(candidates: Seq<CandidateModel>, k: int) -> bool {
    &&& exists|m: int| 0 <= m < candidates.len() && m != k && #[trigger] binds_same(
        candidates,
        k,
        m,
    )
    &&& {
        ||| forall|m: int|
            0 <= m < candidates.len() && #[trigger] binds_same(candidates, k, m)
                ==> is_var_or_function(candidates[m].kind)
        ||| forall|m: int|
            0 <= m < candidates.len() && #[trigger] binds_same(candidates, k, m)
                ==> candidates[m].kind == AnalysisSymbolKind::Parameter
    }
}

/// Whether an earlier candidate binds the same name in the same scope.
pub open spec fn is_bound_earlier(candidates: Seq<CandidateModel>, k: int) -> bool {
    exists|m: int| 0 <= m < k && #[trigger] binds_same(candidates, k, m)
}

/// Whether a function declaration binds the same name in the same scope.
pub open spec fn is_bound_by_function(candidates: Seq<CandidateModel>, k: int) -> bool {
    exists|m: int|
        0 <= m < candidates.len() && #[trigger] binds_same(candidates, k, m) && candidates[m].kind
            == AnalysisSymbolKind::Function
}

/// Whether a candidate becomes a symbol: not if it declares a binding again.
pub open spec fn is_kept(candidates: Seq<CandidateModel>, k: int) -> bool {
    !(is_redeclared(candidates, k) && is_bound_earlier(candidates, k))
}

/// The kind of a candidate's symbol: a function among redeclarations wins.
pub open spec fn merged_kind(candidates: Seq<CandidateModel>, k: int) -> AnalysisSymbolKind {
    if is_redeclared(candidates, k) && is_bound_by_function(candidates, k) {
        AnalysisSymbolKind::Function
    } else {
        candidates[k].kind
    }
}

/// The candidates among the first `count` that become symbols.
pub open spec fn kept_upto(candidates: Seq<CandidateModel>, count: int) -> Seq<int>
    decreases count,
{
    if count <= 0 {
        Seq::empty()
    } else if is_kept(candidates, count - 1) {
        kept_upto(candidates, count - 1).push(count - 1)
    } else {
        kept_upto(candidates, count - 1)
    }
}

/// The candidates that become symbols, in row order.
pub open spec fn kept(candidates: Seq<CandidateModel>) -> Seq<int> {
    kept_upto(candidates, candidates.len() as int)
}

/// The names of some candidates.
pub open spec fn names_of(candidates: Seq<CandidateModel>, indexes: Seq<int>) -> Seq<Seq<char>> {
    indexes.map_values(|k: int| candidates[k].name)
}

/// Whether a symbol row records a candidate, leaving its references aside.
pub open spec fn symbol_is(
    symbol: AnalysisSymbol,
    nodes: Seq<AnalysisNode>,
    table: Seq<Seq<char>>,
    candidates: Seq<CandidateModel>,
    k: int,
) -> bool {
    &&& symbol.declaration_node == candidates[k].node
    &&& symbol.scope == candidates[k].scope
    &&& interner::names(table, symbol.name, candidates[k].name)
    &&& symbol.kind == merged_kind(candidates, k)
    &&& symbol.id.0@ == analysis::symbol_id_of(nodes[candidates[k].node].id.0@, symbol.kind)
}

/// Whether symbol rows record the kept candidates.
pub open spec fn symbols_are(
    symbols: Seq<AnalysisSymbol>,
    nodes: Seq<AnalysisNode>,
    table: Seq<Seq<char>>,
    candidates: Seq<CandidateModel>,
) -> bool {
    &&& symbols.len() == kept(candidates).len()
    &&& forall|j: int|
        0 <= j < symbols.len() ==> symbol_is(
            #[trigger] symbols[j],
            nodes,
            table,
            candidates,
            kept(candidates)[j],
        )
}

/// A variable on its way to a symbol row.
pub struct Candidate {
    pub scope: usize,
    pub byte: usize,
    pub name: String,
    pub node: usize,
    pub kind: AnalysisSymbolKind,
}

impl View for Candidate {
    type V = CandidateModel;

    open spec fn view(&self) -> CandidateModel {
        CandidateModel {
            scope: self.scope as int,
            byte: self.byte as int,
            name: self.name@,
            node: self.node as int,
            kind: self.kind,
        }
    }
}

/// Candidates seen as their models.
pub open spec fn candidate_views(candidates: Seq<Candidate>) -> Seq<CandidateModel> {
    candidates.map_values(|candidate: Candidate| candidate@)
}

/// Whether a map holds the closest fit among the first `count` nodes for
/// every byte.
pub open spec fn indexes_bindings(map: Map<u64, usize>, rows: Seq<RowModel>, count: int) -> bool {
    forall|byte: u64| #[trigger]
        indexed(map, byte) == binding_node_upto(rows, byte as int, count)
}

/// What a map holds for a byte.
pub open spec fn indexed(map: Map<u64, usize>, byte: u64) -> Option<int> {
    if map.contains_key(byte) {
        Some(map[byte] as int)
    } else {
        None
    }
}

proof fn lemma_binding_node_bound(rows: Seq<RowModel>, byte: int, count: int)
    ensures
        binding_node_upto(rows, byte, count) matches Some(i) ==> 0 <= i < count,
    decreases count,
{
    if count > 0 {
        lemma_binding_node_bound(rows, byte, count - 1);
    }
}

fn index_bindings(tree: &SyntaxTree) -> (map: HashMap<u64, usize>)
    ensures
        indexes_bindings(map@, tree@, tree@.len() as int),
{
    broadcast use vstd::std_specs::hash::group_hash_axioms;

    let length: usize = tree.len();
    let mut map: HashMap<u64, usize> = HashMap::new();
    let mut i: usize = 0;
    while i < length
        invariant
            i <= length,
            length == tree@.len(),
            indexes_bindings(map@, tree@, i as int),
        decreases length - i,
    {
        let row = tree.row(i);
        let byte: u64 = row.start_byte as u64;
        let ghost before = map@;
        if row.named {
            assert(indexed(before, byte) == binding_node_upto(tree@, byte as int, i as int));
            proof {
                lemma_binding_node_bound(tree@, byte as int, i as int);
            }
            let closer = match map.get(&byte) {
                Some(best) => closer_fit(tree, i, *best),
                None => true,
            };
            if closer {
                map.insert(byte, i);
            }
        }
        proof {
            assert forall|b: u64| #[trigger]
                indexed(map@, b) == binding_node_upto(tree@, b as int, i + 1) by {
                assert(indexed(before, b) == binding_node_upto(tree@, b as int, i as int));
            }
        }
        i += 1;
    }
    map
}

fn closer_fit(tree: &SyntaxTree, i: usize, other: usize) -> (r: bool)
    requires
        i < tree@.len(),
        other < tree@.len(),
    ensures
        r == fits_closer(tree@, i as int, other as int),
{
    let size = node_size(tree, i);
    let other_size = node_size(tree, other);
    size < other_size || (size == other_size && identifier_kind(tree, i) && !identifier_kind(
        tree,
        other,
    ))
}

fn node_size(tree: &SyntaxTree, i: usize) -> (size: usize)
    requires
        i < tree@.len(),
    ensures
        size == size_of(tree@[i as int]),
{
    let row = tree.row(i);
    if row.start_byte <= row.end_byte {
        row.end_byte - row.start_byte
    } else {
        0
    }
}

/// Whether a list holds exactly the nodes of a kind.
pub open spec fn lists_kind(list: Seq<usize>, rows: Seq<RowModel>, kind: Seq<char>) -> bool {
    &&& forall|k: int|
        0 <= k < list.len() ==> #[trigger] list[k] < rows.len() && rows[list[k] as int].kind == kind
    &&& forall|i: int|
        0 <= i < rows.len() && (#[trigger] rows[i]).kind == kind ==> list.contains(i as usize)
}

fn nodes_of_kind(tree: &SyntaxTree, kind: &str) -> (list: Vec<usize>)
    ensures
        lists_kind(list@, tree@, kind@),
{
    let length: usize = tree.len();
    let mut list: Vec<usize> = Vec::new();
    let mut i: usize = 0;
    while i < length
        invariant
            i <= length,
            length == tree@.len(),
            forall|k: int|
                0 <= k < list@.len() ==> #[trigger] list@[k] < tree@.len()
                    && tree@[list@[k] as int].kind == kind@,
            forall|j: int|
                0 <= j < i && (#[trigger] tree@[j]).kind == kind@ ==> list@.contains(j as usize),
        decreases length - i,
    {
        if tree.is_kind(i, kind) {
            let ghost before = list@;
            list.push(i);
            proof {
                assert(list@[list@.len() - 1] == i);
                assert forall|j: int| 0 <= j < i + 1 && (#[trigger] tree@[j]).kind
                    == kind@ implies list@.contains(j as usize) by {
                    if j < i {
                        let k = choose|k: int| 0 <= k < before.len() && before[k] == j as usize;
                        assert(list@[k] == j as usize);
                    }
                }
            }
        }
        i += 1;
    }
    list
}

fn lies_in(tree: &SyntaxTree, list: &Vec<usize>, byte: usize, kind: Ghost<Seq<char>>) -> (r: bool)
    requires
        lists_kind(list@, tree@, kind@),
    ensures
        r == lies_in_kind(tree@, kind@, byte as int),
{
    let length: usize = tree.len();
    let mut k: usize = 0;
    while k < list.len()
        invariant
            k <= list@.len(),
            tree@.len() == length,
            lists_kind(list@, tree@, kind@),
            forall|j: int|
                0 <= j < k ==> !(tree@[#[trigger] list@[j] as int].start_byte <= byte
                    < tree@[list@[j] as int].end_byte),
        decreases list@.len() - k,
    {
        let row = tree.row(list[k]);
        if row.start_byte <= byte && byte < row.end_byte {
            assert(tree@[list@[k as int] as int].kind == kind@);
            return true;
        }
        k += 1;
    }
    proof {
        if lies_in_kind(tree@, kind@, byte as int) {
            let i = choose|i: int|
                0 <= i < tree@.len() && (#[trigger] tree@[i]).kind == kind@ && tree@[i].start_byte
                    <= byte < tree@[i].end_byte;
            assert(list@.contains(i as usize));
            let j = choose|j: int| 0 <= j < list@.len() && list@[j] == i as usize;
            assert(tree@[list@[j] as int].start_byte <= byte);
        }
    }
    false
}

fn spans(tree: &SyntaxTree, list: &Vec<usize>, scope: &Scope, kind: Ghost<Seq<char>>) -> (r: bool)
    requires
        lists_kind(list@, tree@, kind@),
    ensures
        r == spans_kind(tree@, kind@, scope@),
{
    let length: usize = tree.len();
    let mut k: usize = 0;
    while k < list.len()
        invariant
            k <= list@.len(),
            tree@.len() == length,
            lists_kind(list@, tree@, kind@),
            forall|j: int|
                0 <= j < k ==> !(tree@[#[trigger] list@[j] as int].start_byte == scope.start_byte
                    && tree@[list@[j] as int].end_byte == scope.end_byte),
        decreases list@.len() - k,
    {
        let row = tree.row(list[k]);
        if row.start_byte == scope.start_byte && row.end_byte == scope.end_byte {
            assert(tree@[list@[k as int] as int].kind == kind@);
            return true;
        }
        k += 1;
    }
    proof {
        if spans_kind(tree@, kind@, scope@) {
            let i = choose|i: int|
                0 <= i < tree@.len() && (#[trigger] tree@[i]).kind == kind@ && tree@[i].start_byte
                    == scope@.start_byte && tree@[i].end_byte == scope@.end_byte;
            assert(list@.contains(i as usize));
            let j = choose|j: int| 0 <= j < list@.len() && list@[j] == i as usize;
            assert(tree@[list@[j] as int].start_byte == scope.start_byte);
        }
    }
    false
}

fn symbol_kind(kind: VariableKind, imported: bool, catch_scope: bool) -> (r: AnalysisSymbolKind)
    ensures
        r == symbol_kind_of(kind, imported, catch_scope),
{
    if imported {
        return AnalysisSymbolKind::Import;
    }
    match kind {
        VariableKind::FunctionDeclaration => AnalysisSymbolKind::Function,
        VariableKind::ClassDeclaration => AnalysisSymbolKind::Class,
        VariableKind::Var => AnalysisSymbolKind::Var,
        VariableKind::Let => AnalysisSymbolKind::Let,
        VariableKind::Const => AnalysisSymbolKind::Const,
        VariableKind::Parameter => if catch_scope {
            AnalysisSymbolKind::Catch
        } else {
            AnalysisSymbolKind::Parameter
        },
    }
}

/// Whether the nodes of candidates are nodes of the tree.
pub open spec fn candidates_are_in(candidates: Seq<Candidate>, nodes: int, scopes: int) -> bool {
    forall|k: int|
        0 <= k < candidates.len() ==> (#[trigger] candidates[k]).node < nodes
            && candidates[k].scope < scopes
}

fn collect_candidates(tree: &SyntaxTree, scopes: &Vec<Scope>, places: &Vec<usize>) -> (r: Result<
    Vec<Candidate>,
    AnalysisError,
>)
    requires
        rows::lists_scope_rows(places@, scope::scope_views(scopes@)),
    ensures
        match r {
            Ok(candidates) => {
                &&& !some_binding_lacks_a_node(tree@, scope::scope_views(scopes@))
                &&& candidate_views(candidates@) == all_candidates(
                    tree@,
                    scope::scope_views(scopes@),
                )
                &&& candidates_are_in(candidates@, tree@.len() as int, scopes@.len() as int)
            },
            Err(error) => error == AnalysisError::MissingNode && some_binding_lacks_a_node(
                tree@,
                scope::scope_views(scopes@),
            ),
        },
{
    broadcast use vstd::std_specs::hash::group_hash_axioms;

    let ghost views = scope::scope_views(scopes@);
    let imports = nodes_of_kind(tree, "import_statement");
    let catches = nodes_of_kind(tree, "catch_clause");
    let map = index_bindings(tree);
    let mut candidates: Vec<Candidate> = Vec::new();
    let mut s: usize = 0;
    assert(candidate_views(candidates@) =~= candidates_before(tree@, views, 0));
    while s < scopes.len()
        invariant
            s <= scopes@.len(),
            views == scope::scope_views(scopes@),
            rows::lists_scope_rows(places@, views),
            lists_kind(imports@, tree@, "import_statement"@),
            lists_kind(catches@, tree@, "catch_clause"@),
            indexes_bindings(map@, tree@, tree@.len() as int),
            candidate_views(candidates@) == candidates_before(tree@, views, s as int),
            candidates_are_in(candidates@, tree@.len() as int, scopes@.len() as int),
            forall|t: int, k: int|
                0 <= t < s && 0 <= k < views[t].variables.len() ==> !lacks_a_node(
                    tree@,
                    #[trigger] views[t].variables[k],
                ),
        decreases scopes@.len() - s,
    {
        let item = &scopes[s];
        let catch_scope = spans(tree, &catches, item, Ghost("catch_clause"@));
        let mut k: usize = 0;
        proof {
            assert(views[s as int] == item@);
            assert(places@[s as int] == rows::scope_row(views, s as int));
        }
        while k < item.variables.len()
            invariant
                s < scopes@.len(),
                k <= item.variables@.len(),
                views == scope::scope_views(scopes@),
                views[s as int] == item@,
                places@.len() == scopes@.len(),
                places@[s as int] == rows::scope_row(views, s as int),
                places@[s as int] < scopes@.len(),
                catch_scope == spans_kind(tree@, "catch_clause"@, views[s as int]),
                lists_kind(imports@, tree@, "import_statement"@),
                indexes_bindings(map@, tree@, tree@.len() as int),
                candidate_views(candidates@) == candidates_in(tree@, views, s as int, k as nat),
                candidates_are_in(candidates@, tree@.len() as int, scopes@.len() as int),
                forall|t: int, j: int|
                    0 <= t < s && 0 <= j < views[t].variables.len() ==> !lacks_a_node(
                        tree@,
                        #[trigger] views[t].variables[j],
                    ),
                forall|j: int|
                    0 <= j < k ==> !lacks_a_node(
                        tree@,
                        #[trigger] views[s as int].variables[j],
                    ),
            decreases item.variables@.len() - k,
        {
            let variable = &item.variables[k];
            let byte: u64 = variable.declaration_byte as u64;
            let ghost model = views[s as int].variables[k as int];
            assert(model == variable@);
            assert(indexed(map@, byte) == binding_node_upto(
                tree@,
                byte as int,
                tree@.len() as int,
            ));
            proof {
                lemma_binding_node_bound(tree@, byte as int, tree@.len() as int);
            }
            let node: usize = match map.get(&byte) {
                Some(node) => *node,
                None => {
                    assert(lacks_a_node(tree@, model));
                    return Err(AnalysisError::MissingNode);
                },
            };
            let imported = lies_in(
                tree,
                &imports,
                variable.declaration_byte,
                Ghost("import_statement"@),
            );
            let ghost before = candidates@;
            let name = variable.name.clone();
            let candidate = Candidate {
                scope: places[s],
                byte: variable.declaration_byte,
                name,
                node,
                kind: symbol_kind(variable.kind, imported, catch_scope),
            };
            proof {
                assert(candidate@ == candidate_of(tree@, views, s as int, k as int));
            }
            candidates.push(candidate);
            proof {
                assert(candidate_views(candidates@) =~= candidate_views(before).push(
                    candidates@[before.len() as int]@,
                ));
            }
            k += 1;
        }
        s += 1;
    }
    Ok(candidates)
}

fn same_candidate(a: &Candidate, b: &Candidate) -> (r: bool)
    ensures
        r == (a@ == b@),
{
    a.scope == b.scope && a.byte == b.byte && a.node == b.node && a.kind == b.kind && same_text(
        a.name.as_str(),
        b.name.as_str(),
    )
}

fn copy_candidate(candidate: &Candidate) -> (copy: Candidate)
    ensures
        copy@ == candidate@,
{
    Candidate {
        scope: candidate.scope,
        byte: candidate.byte,
        name: candidate.name.clone(),
        node: candidate.node,
        kind: candidate.kind,
    }
}

/// The candidates of all scopes in order, each once.
pub(crate) fn order_candidates(tree: &SyntaxTree, scopes: &Vec<Scope>, places: &Vec<usize>) -> (r: Result<
    Vec<Candidate>,
    AnalysisError,
>)
    requires
        rows::lists_scope_rows(places@, scope::scope_views(scopes@)),
    ensures
        match r {
            Ok(candidates) => {
                &&& !some_binding_lacks_a_node(tree@, scope::scope_views(scopes@))
                &&& candidate_views(candidates@) == ordered_candidates(
                    tree@,
                    scope::scope_views(scopes@),
                )
                &&& candidates_are_in(candidates@, tree@.len() as int, scopes@.len() as int)
            },
            Err(error) => error == AnalysisError::MissingNode && some_binding_lacks_a_node(
                tree@,
                scope::scope_views(scopes@),
            ),
        },
{
    let list = match collect_candidates(tree, scopes, places) {
        Ok(list) => list,
        Err(error) => {
            return Err(error);
        },
    };
    let ghost all = candidate_views(list@);
    let length: usize = list.len();
    let mut keys: Vec<Pair<u64, Pair<u64, Pair<u64, u64>>>> = Vec::new();
    let mut k: usize = 0;
    while k < length
        invariant
            k <= length,
            length == list@.len(),
            all == candidate_views(list@),
            keys@.len() == k,
            forall|j: int| 0 <= j < k ==> #[trigger] keys@[j] == candidate_key(all[j]),
        decreases length - k,
    {
        let item = &list[k];
        assert(all[k as int] == item@);
        keys.push(
            Pair(
                item.scope as u64,
                Pair(item.byte as u64, Pair(item.node as u64, item.kind.code() as u64)),
            ),
        );
        k += 1;
    }
    assert(keys@ =~= candidate_keys(all));
    let order = stable_order(&keys);
    let ghost sorted = order::arranged(all, keys@);
    proof {
        order::lemma_ranks(keys@, order@);
    }
    let mut kept: Vec<Candidate> = Vec::new();
    let mut j: usize = 0;
    assert(candidate_views(kept@) =~= without_repeats(sorted, 0));
    while j < length
        invariant
            j <= length,
            length == list@.len(),
            all == candidate_views(list@),
            order@.len() == length,
            sorted.len() == length,
            forall|i: int| 0 <= i < length ==> #[trigger] order@[i] < length,
            forall|i: int| 0 <= i < length ==> #[trigger] sorted[i] == all[order@[i] as int],
            candidates_are_in(list@, tree@.len() as int, scopes@.len() as int),
            candidate_views(kept@) == without_repeats(sorted, j as int),
            candidates_are_in(kept@, tree@.len() as int, scopes@.len() as int),
        decreases length - j,
    {
        let item = &list[order[j]];
        proof {
            assert(sorted[j as int] == all[order@[j as int] as int]);
            assert(all[order@[j as int] as int] == item@);
            if j > 0 {
                assert(sorted[j - 1] == all[order@[j - 1] as int]);
                assert(all[order@[j - 1] as int] == list@[order@[j - 1] as int]@);
            }
        }
        let repeats = j > 0 && same_candidate(item, &list[order[j - 1]]);
        if !repeats {
            let ghost before = kept@;
            kept.push(copy_candidate(item));
            proof {
                assert(candidate_views(kept@) =~= candidate_views(before).push(sorted[j as int]));
                let last = kept@[before.len() as int];
                assert(last@.node == item@.node && last@.scope == item@.scope);
            }
        }
        j += 1;
    }
    Ok(kept)
}

/// What the candidates of one binding have in common.
struct Group {
    redeclared: bool,
    bound_earlier: bool,
    bound_by_function: bool,
}

fn group_of(candidates: &Vec<Candidate>, k: usize) -> (group: Group)
    requires
        k < candidates@.len(),
    ensures
        group.redeclared == is_redeclared(candidate_views(candidates@), k as int),
        group.bound_earlier == is_bound_earlier(candidate_views(candidates@), k as int),
        group.bound_by_function == is_bound_by_function(candidate_views(candidates@), k as int),
{
    let ghost views = candidate_views(candidates@);
    let mut several = false;
    let mut all_hoisted = true;
    let mut all_parameters = true;
    let mut bound_earlier = false;
    let mut bound_by_function = false;
    let mut m: usize = 0;
    while m < candidates.len()
        invariant
            m <= candidates@.len(),
            k < candidates@.len(),
            views == candidate_views(candidates@),
            several == exists|j: int| 0 <= j < m && j != k && #[trigger] binds_same(
                views,
                k as int,
                j,
            ),
            all_hoisted == forall|j: int|
                0 <= j < m && #[trigger] binds_same(views, k as int, j) ==> is_var_or_function(
                    views[j].kind,
                ),
            all_parameters == forall|j: int|
                0 <= j < m && #[trigger] binds_same(views, k as int, j) ==> views[j].kind
                    == AnalysisSymbolKind::Parameter,
            bound_earlier == exists|j: int|
                0 <= j < m && j < k && #[trigger] binds_same(views, k as int, j),
            bound_by_function == exists|j: int|
                0 <= j < m && #[trigger] binds_same(views, k as int, j) && views[j].kind
                    == AnalysisSymbolKind::Function,
        decreases candidates@.len() - m,
    {
        let item = &candidates[m];
        proof {
            assert(views[m as int] == item@);
            assert(views[k as int] == candidates@[k as int]@);
        }
        let same = item.scope == candidates[k].scope && same_text(
            item.name.as_str(),
            candidates[k].name.as_str(),
        );
        assert(same == binds_same(views, k as int, m as int));
        if same {
            if m != k {
                several = true;
            }
            if m < k {
                bound_earlier = true;
            }
            match item.kind {
                AnalysisSymbolKind::Function => {
                    bound_by_function = true;
                    all_parameters = false;
                },
                AnalysisSymbolKind::Var => {
                    all_parameters = false;
                },
                AnalysisSymbolKind::Parameter => {
                    all_hoisted = false;
                },
                _ => {
                    all_hoisted = false;
                    all_parameters = false;
                },
            }
        }
        m += 1;
    }
    Group { redeclared: several && (all_hoisted || all_parameters), bound_earlier, bound_by_function }
}

/// Records the symbols of ordered candidates, and adds their names to the
/// strings. Gives the candidate behind each symbol too.
pub(crate) fn collect_symbols(
    candidates: &Vec<Candidate>,
    nodes: &Vec<AnalysisNode>,
    strings: &mut StringInterner,
) -> (r: Result<(Vec<AnalysisSymbol>, Vec<usize>), AnalysisError>)
    requires
        old(strings).is_wf(),
        candidates_are_in(candidates@, nodes@.len() as int, u32::MAX as int),
        nodes@.len() <= u32::MAX,
    ensures
        final(strings).is_wf(),
        match r {
            Ok((symbols, sources)) => {
                let views = candidate_views(candidates@);
                &&& final(strings).texts() == interner::all_joined(
                    old(strings).texts(),
                    names_of(views, kept(views)),
                )
                &&& symbols_are(symbols@, nodes@, final(strings).texts(), views)
                &&& syntax::index_views(sources@) == kept(views)
            },
            Err(error) => {
                let views = candidate_views(candidates@);
                &&& error == AnalysisError::TooManyRows
                &&& interner::all_joined(
                    old(strings).texts(),
                    names_of(views, kept(views)),
                ).len() > u32::MAX + 1
            },
        },
{
    let ghost views = candidate_views(candidates@);
    let ghost start = strings.texts();
    let mut symbols: Vec<AnalysisSymbol> = Vec::new();
    let mut sources: Vec<usize> = Vec::new();
    let mut k: usize = 0;
    proof {
        assert(syntax::index_views(sources@) =~= kept_upto(views, 0));
        assert(names_of(views, kept_upto(views, 0)) =~= Seq::empty());
    }
    while k < candidates.len()
        invariant
            k <= candidates@.len(),
            views == candidate_views(candidates@),
            start == old(strings).texts(),
            candidates_are_in(candidates@, nodes@.len() as int, u32::MAX as int),
            nodes@.len() <= u32::MAX,
            strings.is_wf(),
            strings.texts() == interner::all_joined(
                start,
                names_of(views, kept_upto(views, k as int)),
            ),
            syntax::index_views(sources@) == kept_upto(views, k as int),
            symbols@.len() == sources@.len(),
            forall|j: int|
                0 <= j < symbols@.len() ==> symbol_is(
                    #[trigger] symbols@[j],
                    nodes@,
                    strings.texts(),
                    views,
                    kept_upto(views, k as int)[j],
                ),
        decreases candidates@.len() - k,
    {
        let item = &candidates[k];
        assert(views[k as int] == item@);
        let group = group_of(candidates, k);
        if !(group.redeclared && group.bound_earlier) {
            let ghost before = strings.texts();
            let ghost earlier = kept_upto(views, k as int);
            proof {
                assert(kept_upto(views, k + 1) == earlier.push(k as int));
                assert(names_of(views, earlier.push(k as int)) =~= names_of(views, earlier).push(
                    views[k as int].name,
                ));
                interner::lemma_joined_push(start, names_of(views, earlier), views[k as int].name);
                lemma_kept_prefix(views, k + 1, views.len() as int);
                let all = names_of(views, kept(views));
                let count = kept_upto(views, k + 1).len() as int;
                rows::lemma_joined_lengths(start, all, count);
                assert(all.take(count) =~= names_of(views, kept_upto(views, k + 1)));
            }
            let name = match strings.intern(item.name.as_str()) {
                Ok(name) => name,
                Err(error) => {
                    return Err(error);
                },
            };
            let kind = if group.redeclared && group.bound_by_function {
                AnalysisSymbolKind::Function
            } else {
                item.kind
            };
            let id = symbol_id(&nodes[item.node].id, kind);
            symbols.push(
                AnalysisSymbol {
                    id,
                    declaration_node: item.node as u32,
                    scope: item.scope as u32,
                    name,
                    kind,
                    reference_first: 0,
                    reference_count: 0,
                },
            );
            sources.push(k);
            proof {
                assert(syntax::index_views(sources@) =~= earlier.push(k as int));
                assert(earlier.len() == symbols@.len() - 1) by {
                    assert(syntax::index_views(sources@).len() == sources@.len());
                }
                assert(interner::extends(strings.texts(), before)) by {
                    assert(strings.texts().take(before.len() as int) =~= before);
                }
                assert forall|j: int| 0 <= j < symbols@.len() implies symbol_is(
                    #[trigger] symbols@[j],
                    nodes@,
                    strings.texts(),
                    views,
                    kept_upto(views, k + 1)[j],
                ) by {
                    if j < symbols@.len() - 1 {
                        interner::lemma_names_stay(
                            strings.texts(),
                            before,
                            symbols@[j].name,
                            views[earlier[j]].name,
                        );
                    }
                }
            }
        }
        k += 1;
    }
    proof {
        assert(syntax::index_views(sources@).len() == sources@.len());
    }
    Ok((symbols, sources))
}

/// The kept candidates of a longer prefix begin with those of a shorter one.
pub proof fn lemma_kept_prefix(candidates: Seq<CandidateModel>, a: int, b: int)
    requires
        0 <= a <= b,
    ensures
        kept_upto(candidates, a).len() <= kept_upto(candidates, b).len(),
        kept_upto(candidates, b).take(kept_upto(candidates, a).len() as int) == kept_upto(
            candidates,
            a,
        ),
    decreases b - a,
{
    if a < b {
        lemma_kept_prefix(candidates, a, b - 1);
        let shorter = kept_upto(candidates, b - 1);
        let n = kept_upto(candidates, a).len() as int;
        assert(kept_upto(candidates, b).take(n) =~= shorter.take(n));
    } else {
        let all = kept_upto(candidates, a);
        assert(all.take(all.len() as int) =~= all);
    }
}

} // verus!
