//! What holds of every analysis that validates.

use vstd::prelude::*;

use super::{
    Analysis, AnalysisCallKind, AnalysisReferenceRole, AnalysisResolution, AnalysisScopeKind,
};

use super::validate;

verus! {

/// Whether a node is another one or lies above it.
pub open spec fn is_at_or_above(a: Analysis, top: int, n: int) -> bool
    decreases n,
{
    top == n || (a.nodes@[n].parent matches Some(parent) && 0 <= parent < n && is_at_or_above(
        a,
        top,
        parent as int,
    ))
}

proof fn lemma_path(a: Analysis, top: int, n: int)
    ensures
        validate::is_on_path(a.nodes@, top, n) == is_at_or_above(a, top, n),
    decreases n,
{
    if top != n {
        if let Some(parent) = a.nodes@[n].parent {
            if 0 <= parent < n {
                lemma_path(a, top, parent as int);
            }
        }
    }
}

proof fn lemma_siblings(a: Analysis, parent: u32, i: int, j: int)
    requires
        0 <= i < j <= a.nodes@.len(),
        a.nodes@[i].parent == Some(parent),
    ensures
        validate::children_before(a.nodes@, parent, i) < validate::children_before(
            a.nodes@,
            parent,
            j,
        ),
    decreases j - i,
{
    if j > i + 1 {
        lemma_siblings(a, parent, i, j - 1);
    }
}

proof fn lemma_first_child(a: Analysis, parent: u32, j: int)
    requires
        0 <= j <= a.nodes@.len(),
        forall|i: int| 0 <= i < j ==> (#[trigger] a.nodes@[i]).parent != Some(parent),
    ensures
        validate::children_before(a.nodes@, parent, j) == 0,
    decreases j,
{
    if j > 0 {
        lemma_first_child(a, parent, j - 1);
    }
}

/// The nodes of a valid analysis list a tree from its root down: the first
/// node is the program and covers the whole source, every other one lies in
/// its parent and follows what lies below its parent, and siblings are counted
/// from zero on in their order.
pub proof fn law_valid_nodes_list_a_tree(a: Analysis, i: int, j: int)
    requires
        validate::is_valid(a),
        0 <= i < j < a.nodes@.len(),
    ensures
        ({
            let root = a.nodes@[0];
            let node = a.nodes@[j];
            let other = a.nodes@[i];
            &&& root.parent is None
            &&& root.start_byte == 0
            &&& root.end_byte == a.source_length
            &&& a.strings@[root.kind as int]@ == "program"@
            &&& node.flags < 16
            &&& node.start_byte <= node.end_byte <= a.source_length
            &&& node.parent matches Some(p) && p < j && is_at_or_above(a, p as int, j - 1) && {
                let parent = a.nodes@[p as int];
                &&& parent.start_byte <= node.start_byte
                &&& node.end_byte <= parent.end_byte
            }
            &&& other.parent == node.parent ==> other.child_ordinal < node.child_ordinal
            &&& (forall|k: int| 0 <= k < j ==> (#[trigger] a.nodes@[k]).parent != node.parent)
                ==> node.child_ordinal == 0
        }),
{
    assert(validate::node_fault(a, 0) is None);
    assert(validate::node_fault(a, i) is None);
    assert(validate::node_fault(a, j) is None);
    let p = a.nodes@[j].parent->0;
    lemma_path(a, p as int, j - 1);
    if a.nodes@[i].parent == a.nodes@[j].parent {
        lemma_siblings(a, p, i, j);
    }
    if forall|k: int| 0 <= k < j ==> (#[trigger] a.nodes@[k]).parent != a.nodes@[j].parent {
        lemma_first_child(a, p, j);
    }
}

/// The scopes of a valid analysis form a tree below the global scope: every
/// other scope lies in an earlier one, one level deeper, and no two have the
/// same identity.
pub proof fn law_valid_scopes_form_a_tree(a: Analysis, i: int, j: int)
    requires
        validate::is_valid(a),
        0 <= i < j < a.scopes@.len(),
    ensures
        ({
            let root = a.scopes@[0];
            let scope = a.scopes@[j];
            &&& root.kind == AnalysisScopeKind::Global
            &&& root.depth == 0
            &&& root.parent is None
            &&& root.start_byte == 0
            &&& root.end_byte == a.source_length
            &&& scope.parent matches Some(p) && p < j && {
                let parent = a.scopes@[p as int];
                &&& scope.depth == parent.depth + 1
                &&& parent.start_byte <= scope.start_byte
                &&& scope.start_byte <= scope.end_byte
                &&& scope.end_byte <= parent.end_byte
            }
            &&& scope.id != a.scopes@[i].id
        }),
{
    assert(validate::scope_fault(a, 0) is None);
    assert(validate::scope_fault(a, i) is None);
    assert(validate::scope_fault(a, j) is None);
    assert(!validate::scope_is_repeated(a, j));
}

proof fn lemma_ranges(a: Analysis, k: int, count: int) -> (i: int)
    requires
        validate::is_valid(a),
        0 <= count <= a.symbols@.len(),
        0 <= k < validate::references_before(a.symbols@, count),
    ensures
        0 <= i < count,
        a.symbols@[i].reference_first <= k < a.symbols@[i].reference_first
            + a.symbols@[i].reference_count,
    decreases count,
{
    assert(validate::symbol_fault(a, count - 1) is None);
    if k < validate::references_before(a.symbols@, count - 1) {
        lemma_ranges(a, k, count - 1)
    } else {
        count - 1
    }
}

/// The references of a valid analysis are grouped by symbol: the ranges of the
/// symbols follow one another from zero on without a gap, a reference leads to
/// a symbol exactly where it is in its range, and it is resolved exactly where
/// it leads to one.
pub proof fn law_valid_references_are_grouped_by_symbol(a: Analysis, i: int, k: int)
    requires
        validate::is_valid(a),
        0 <= i < a.symbols@.len() <= u32::MAX,
        0 <= k < a.references@.len(),
    ensures
        ({
            let symbol = a.symbols@[i];
            let edge = a.def_uses@[k];
            &&& a.def_uses@.len() == a.references@.len()
            &&& i == 0 ==> symbol.reference_first == 0
            &&& i > 0 ==> symbol.reference_first == a.symbols@[i - 1].reference_first
                + a.symbols@[i - 1].reference_count
            &&& edge.reference == k
            &&& edge.symbol == Some(i as u32) <==> symbol.reference_first <= k
                < symbol.reference_first + symbol.reference_count
            &&& edge.symbol is Some <==> edge.resolution == AnalysisResolution::Resolved
        }),
{
    assert(validate::symbol_fault(a, i) is None);
    assert(validate::reference_fault(a, k) is None);
    assert(validate::owns_its_range(a, i));
    if i > 0 {
        assert(validate::symbol_fault(a, i - 1) is None);
    }
    let total = validate::references_before(a.symbols@, a.symbols@.len() as int);
    if a.def_uses@[k].symbol == Some(i as u32) {
        assert(k < total) by {
            if total <= k {
                assert(validate::has_stray_resolution(a));
            }
        }
        let owner = lemma_ranges(a, k, a.symbols@.len() as int);
        assert(validate::owns_its_range(a, owner));
        assert(a.def_uses@[k].symbol == Some(owner as u32));
    }
}

/// In a valid analysis every symbol and every reference stands in the scope
/// that it names, no node declares two symbols and none refers twice.
pub proof fn law_valid_names_stand_in_their_scopes(a: Analysis, i: int, k: int)
    requires
        validate::is_valid(a),
    ensures
        0 <= i < a.symbols@.len() ==> {
            let symbol = a.symbols@[i];
            let node = a.nodes@[symbol.declaration_node as int];
            let scope = a.scopes@[symbol.scope as int];
            &&& symbol.declaration_node < a.nodes@.len()
            &&& symbol.scope < a.scopes@.len()
            &&& symbol.name < a.strings@.len()
            &&& scope.start_byte <= node.start_byte
            &&& node.end_byte <= scope.end_byte
            &&& 0 <= k < a.symbols@.len() && k != i ==> a.symbols@[k].declaration_node
                != symbol.declaration_node
        },
        0 <= i < a.references@.len() ==> {
            let reference = a.references@[i];
            let node = a.nodes@[reference.node as int];
            let scope = a.scopes@[reference.scope as int];
            &&& reference.node < a.nodes@.len()
            &&& reference.scope < a.scopes@.len()
            &&& reference.name < a.strings@.len()
            &&& scope.start_byte <= node.start_byte
            &&& node.end_byte <= scope.end_byte
            &&& 0 <= k < a.references@.len() && k != i ==> a.references@[k].node
                != reference.node
        },
{
    if 0 <= i < a.symbols@.len() {
        assert(validate::symbol_fault(a, i) is None);
        assert(!validate::declaration_is_reused(a, i));
        if 0 <= k < a.symbols@.len() {
            assert(validate::symbol_fault(a, k) is None);
            assert(!validate::declaration_is_reused(a, k));
        }
    }
    if 0 <= i < a.references@.len() {
        assert(validate::reference_fault(a, i) is None);
        assert(!validate::reference_node_is_reused(a, i));
        if 0 <= k < a.references@.len() {
            assert(validate::reference_fault(a, k) is None);
            assert(!validate::reference_node_is_reused(a, k));
        }
    }
}

/// In a valid analysis a direct call or construction has a callee with that
/// role inside of it and the target of the callee, a call of a member has a
/// property and no target, and a dynamic call has nothing. No two calls are at
/// one node.
pub proof fn law_valid_calls_are_consistent(a: Analysis, i: int, k: int)
    requires
        validate::is_valid(a),
        0 <= i < k < a.calls@.len(),
    ensures
        ({
            let call = a.calls@[i];
            let node = a.nodes@[call.node as int];
            let kind = a.strings@[node.kind as int]@;
            &&& call.node < a.nodes@.len()
            &&& call.node != a.calls@[k].node
            &&& call.kind == AnalysisCallKind::Direct ==> kind == "call_expression"@
            &&& call.kind == AnalysisCallKind::Construct ==> kind == "new_expression"@
            &&& kind == "call_expression"@ || kind == "new_expression"@
            &&& call.callee_reference matches Some(r) ==> r < a.references@.len() && {
                let callee = a.nodes@[a.references@[r as int].node as int];
                node.start_byte <= callee.start_byte && callee.end_byte <= node.end_byte
            }
            &&& call.kind == AnalysisCallKind::Direct || call.kind
                == AnalysisCallKind::Construct ==> {
                &&& call.callee_reference is Some
                &&& call.property is None
                &&& call.target_symbol == a.def_uses@[call.callee_reference->0 as int].symbol
            }
            &&& call.kind == AnalysisCallKind::Direct ==> a.references@[call.callee_reference->0
                as int].role == AnalysisReferenceRole::Call
            &&& call.kind == AnalysisCallKind::Construct
                ==> a.references@[call.callee_reference->0 as int].role
                == AnalysisReferenceRole::Construct
            &&& call.kind == AnalysisCallKind::Member ==> call.property is Some
                && call.target_symbol is None
            &&& call.kind == AnalysisCallKind::Dynamic ==> call.callee_reference is None
                && call.target_symbol is None && call.property is None
        }),
{
    assert(validate::call_fault(a, i) is None);
    assert(validate::call_fault(a, k) is None);
    assert(!validate::call_node_is_reused(a, k));
}

} // verus!
