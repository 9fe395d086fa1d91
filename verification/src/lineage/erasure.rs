//! Matching does not depend on what symbols are called.

use vstd::prelude::*;

use super::{context, matcher, shape, MatcherConfig};
use crate::analysis::{validate, Analysis};

verus! {

/// Whether two analyses agree in the kinds, flags and places of their nodes.
pub open spec fn nodes_agree(a: Analysis, b: Analysis) -> bool {
    &&& a.nodes@.len() == b.nodes@.len()
    &&& forall|i: int|
        #![trigger a.nodes@[i]]
        #![trigger b.nodes@[i]]
        0 <= i < a.nodes@.len() ==> a.nodes@[i].parent == b.nodes@[i].parent
            && a.nodes@[i].child_ordinal == b.nodes@[i].child_ordinal && a.nodes@[i].flags
            == b.nodes@[i].flags && shape::kind_of(a, i) == shape::kind_of(b, i)
}

/// Whether two analyses agree in their scopes.
pub open spec fn scopes_agree(a: Analysis, b: Analysis) -> bool {
    &&& a.scopes@.len() == b.scopes@.len()
    &&& forall|i: int|
        #![trigger a.scopes@[i]]
        #![trigger b.scopes@[i]]
        0 <= i < a.scopes@.len() ==> a.scopes@[i].parent == b.scopes@[i].parent
            && a.scopes@[i].kind == b.scopes@[i].kind && a.scopes@[i].depth == b.scopes@[i].depth
}

/// Whether two analyses agree in their symbols and how they are used.
pub open spec fn uses_agree(a: Analysis, b: Analysis) -> bool {
    &&& a.symbols@.len() == b.symbols@.len()
    &&& forall|i: int|
        #![trigger a.symbols@[i]]
        #![trigger b.symbols@[i]]
        0 <= i < a.symbols@.len() ==> a.symbols@[i].declaration_node
            == b.symbols@[i].declaration_node && a.symbols@[i].scope == b.symbols@[i].scope
            && a.symbols@[i].kind == b.symbols@[i].kind && a.symbols@[i].reference_first
            == b.symbols@[i].reference_first && a.symbols@[i].reference_count
            == b.symbols@[i].reference_count
    &&& a.references@.len() == b.references@.len()
    &&& forall|i: int|
        #![trigger a.references@[i]]
        #![trigger b.references@[i]]
        0 <= i < a.references@.len() ==> a.references@[i].node == b.references@[i].node
            && a.references@[i].role == b.references@[i].role
    &&& a.def_uses@.len() == b.def_uses@.len()
    &&& forall|i: int|
        #![trigger a.def_uses@[i]]
        #![trigger b.def_uses@[i]]
        0 <= i < a.def_uses@.len() ==> a.def_uses@[i].symbol == b.def_uses@[i].symbol
            && a.def_uses@[i].resolution == b.def_uses@[i].resolution
    &&& a.calls@.len() == b.calls@.len()
    &&& forall|i: int|
        #![trigger a.calls@[i]]
        #![trigger b.calls@[i]]
        0 <= i < a.calls@.len() ==> a.calls@[i].target_symbol == b.calls@[i].target_symbol
            && a.calls@[i].kind == b.calls@[i].kind
}

/// Whether two analyses differ at most in names, spans and identities.
pub open spec fn same_but_for_names(a: Analysis, b: Analysis) -> bool {
    nodes_agree(a, b) && scopes_agree(a, b) && uses_agree(a, b)
}

proof fn lemma_children_agree(a: Analysis, b: Analysis, i: int, count: int)
    requires
        nodes_agree(a, b),
        count <= a.nodes@.len(),
    ensures
        shape::node_children(a.nodes@, i, count) == shape::node_children(b.nodes@, i, count),
    decreases count,
{
    if count > 0 {
        lemma_children_agree(a, b, i, count - 1);
        assert(a.nodes@[count - 1].parent == b.nodes@[count - 1].parent);
    }
}

/// The shapes of subtrees agree.
proof fn lemma_shapes_agree(a: Analysis, b: Analysis, i: int)
    requires
        nodes_agree(a, b),
        0 <= i < a.nodes@.len(),
    ensures
        shape::shape_digest(a, i) == shape::shape_digest(b, i),
        shape::subtree_size(a, i) == shape::subtree_size(b, i),
        shape::subtree_votes(a, i) == shape::subtree_votes(b, i),
    decreases a.nodes@.len() - i, shape::children_of(a, i).len() + 1,
{
    lemma_children_agree(a, b, i, a.nodes@.len() as int);
    assert(a.nodes@[i].flags == b.nodes@[i].flags);
    lemma_child_shapes_agree(a, b, i, shape::children_of(a, i).len() as int);
}

proof fn lemma_child_shapes_agree(a: Analysis, b: Analysis, i: int, count: int)
    requires
        nodes_agree(a, b),
        0 <= i < a.nodes@.len(),
        0 <= count <= shape::children_of(a, i).len(),
    ensures
        shape::child_digests(a, i, count) == shape::child_digests(b, i, count),
        shape::child_sizes(a, i, count) == shape::child_sizes(b, i, count),
        shape::child_votes(a, i, count) == shape::child_votes(b, i, count),
    decreases a.nodes@.len() - i, count,
{
    lemma_children_agree(a, b, i, a.nodes@.len() as int);
    assert(a.nodes@[i].flags == b.nodes@[i].flags);
    if count > 0 {
        lemma_child_shapes_agree(a, b, i, count - 1);
        let child = shape::children_of(a, i)[count - 1];
        if i < child < a.nodes@.len() {
            lemma_shapes_agree(a, b, child);
        }
    }
}

proof fn lemma_containers_agree(a: Analysis, b: Analysis, declaration: int, current: int)
    requires
        nodes_agree(a, b),
        validate::rows_fit(a),
        0 <= declaration < a.nodes@.len(),
        0 <= current < a.nodes@.len(),
    ensures
        context::container_above(a, declaration, current) == context::container_above(
            b,
            declaration,
            current,
        ),
        0 <= context::container_above(a, declaration, current) < a.nodes@.len(),
    decreases current,
{
    assert(validate::row_fits(a.nodes@[current].parent, current));
    assert(a.nodes@[current].parent == b.nodes@[current].parent);
    if let Some(parent) = a.nodes@[current].parent {
        assert(a.nodes@[parent as int].flags == b.nodes@[parent as int].flags);
        lemma_containers_agree(a, b, declaration, parent as int);
    }
}

proof fn lemma_use_features_agree(a: Analysis, b: Analysis, first: int, count: int)
    requires
        same_but_for_names(a, b),
        validate::rows_fit(a),
        0 <= first,
        first + count <= a.references@.len(),
    ensures
        context::use_features(a, first, count) == context::use_features(b, first, count),
    decreases count,
{
    if count > 0 {
        lemma_use_features_agree(a, b, first, count - 1);
        let r = first + count - 1;
        let node = a.references@[r].node as int;
        assert(a.references@[r].role == b.references@[r].role);
        assert(a.def_uses@[r].symbol == b.def_uses@[r].symbol);
        assert(a.nodes@[node].parent == b.nodes@[node].parent);
        assert(validate::row_fits(a.nodes@[node].parent, node));
        if let Some(parent) = a.nodes@[node].parent {
            assert(a.nodes@[parent as int].flags == b.nodes@[parent as int].flags);
        }
        assert(validate::row_fits(a.def_uses@[r].symbol, a.symbols@.len() as int));
        if let Some(symbol) = a.def_uses@[r].symbol {
            assert(a.symbols@[symbol as int].kind == b.symbols@[symbol as int].kind);
        }
        assert(context::reference_features(a, r) == context::reference_features(b, r));
    }
}

proof fn lemma_ancestors_agree(a: Analysis, b: Analysis, node: Option<u32>, distance: u8)
    requires
        nodes_agree(a, b),
        validate::rows_fit(a),
        validate::row_fits(node, a.nodes@.len() as int),
    ensures
        context::ancestor_features(a, node, distance) == context::ancestor_features(
            b,
            node,
            distance,
        ),
    decreases 6 - distance,
{
    if let Some(row) = node {
        assert(a.nodes@[row as int].parent == b.nodes@[row as int].parent);
        assert(validate::row_fits(a.nodes@[row as int].parent, row as int));
        if distance < 6 {
            lemma_ancestors_agree(a, b, a.nodes@[row as int].parent, (distance + 1) as u8);
        }
    }
}

proof fn lemma_scopes_agree(a: Analysis, b: Analysis, scope: Option<u32>, distance: u8)
    requires
        scopes_agree(a, b),
        validate::rows_fit(a),
        validate::row_fits(scope, a.scopes@.len() as int),
    ensures
        context::scope_features(a, scope, distance) == context::scope_features(b, scope, distance),
    decreases 6 - distance,
{
    if let Some(row) = scope {
        assert(a.scopes@[row as int].parent == b.scopes@[row as int].parent);
        assert(validate::row_fits(a.scopes@[row as int].parent, row as int));
        if distance < 6 {
            lemma_scopes_agree(a, b, a.scopes@[row as int].parent, (distance + 1) as u8);
        }
    }
}

proof fn lemma_calls_agree(a: Analysis, b: Analysis, row: int, count: int)
    requires
        uses_agree(a, b),
        count <= a.calls@.len(),
    ensures
        context::calls_to(a, row, count) == context::calls_to(b, row, count),
    decreases count,
{
    if count > 0 {
        lemma_calls_agree(a, b, row, count - 1);
        assert(a.calls@[count - 1].kind == b.calls@[count - 1].kind);
    }
}

proof fn lemma_roles_agree(a: Analysis, b: Analysis, first: int, count: int, role: u8)
    requires
        uses_agree(a, b),
        0 <= first,
        first + count <= a.references@.len(),
    ensures
        context::role_count(a, first, count, role) == context::role_count(b, first, count, role),
    decreases count,
{
    if count > 0 {
        lemma_roles_agree(a, b, first, count - 1, role);
        assert(a.references@[first + count - 1].role == b.references@[first + count - 1].role);
    }
}

/// What is known of a symbol does not depend on what anything is called.
pub proof fn law_contexts_ignore_names(
    a: Analysis,
    b: Analysis,
    origins: Option<Seq<Option<Seq<u8>>>>,
)
    requires
        same_but_for_names(a, b),
        validate::rows_fit(a),
    ensures
        context::contexts_of(a, origins) == context::contexts_of(b, origins),
{
    assert forall|row: int| 0 <= row < a.symbols@.len() implies context::context_of(
        a,
        row,
        context::origin_at(origins, row),
    ) == context::context_of(b, row, context::origin_at(origins, row)) by {
        let symbol = a.symbols@[row];
        let (first, count) = (symbol.reference_first as int, symbol.reference_count as int);
        assert(symbol.kind == b.symbols@[row].kind);
        assert(symbol.declaration_node < a.nodes@.len());
        lemma_containers_agree(
            a,
            b,
            symbol.declaration_node as int,
            symbol.declaration_node as int,
        );
        let declaration = context::container_of(a, symbol.declaration_node as int);
        lemma_shapes_agree(a, b, declaration);
        assert(a.nodes@[declaration].parent == b.nodes@[declaration].parent);
        assert(validate::row_fits(a.nodes@[declaration].parent, declaration));
        assert(a.scopes@[symbol.scope as int].kind == b.scopes@[symbol.scope as int].kind);
        lemma_use_features_agree(a, b, first, count);
        lemma_ancestors_agree(a, b, a.nodes@[declaration].parent, 0);
        lemma_scopes_agree(a, b, Some(symbol.scope), 0);
        lemma_calls_agree(a, b, row, a.calls@.len() as int);
        assert(context::raw_features(a, row) == context::raw_features(b, row));
        assert forall|k: int| 0 <= k < 6 implies #[trigger] context::roles_of(a, row)[k]
            == context::roles_of(b, row)[k] by {
            lemma_roles_agree(a, b, first, count, (k + 1) as u8);
        }
        assert(context::roles_of(a, row) =~= context::roles_of(b, row));
    }
    assert(context::contexts_of(a, origins) =~= context::contexts_of(b, origins));
}

/// Renaming symbols on either side changes no decision: which symbols are
/// matched with which, how far that can be relied on, and what was added.
pub proof fn law_matching_ignores_names(
    source: Analysis,
    renamed_source: Analysis,
    target: Analysis,
    renamed_target: Analysis,
    config: MatcherConfig,
)
    requires
        same_but_for_names(source, renamed_source),
        same_but_for_names(target, renamed_target),
        validate::rows_fit(source),
        validate::rows_fit(target),
    ensures
        ({
            let before = matcher::plain_report(source, target, config);
            let after = matcher::plain_report(renamed_source, renamed_target, config);
            &&& before.stats == after.stats
            &&& before.added_target_rows == after.added_target_rows
            &&& before.ambiguous_target_rows == after.ambiguous_target_rows
            &&& before.matches.len() == after.matches.len()
            &&& forall|s: int|
                #![trigger before.matches[s]]
                0 <= s < before.matches.len() ==> before.matches[s].target_row
                    == after.matches[s].target_row && before.matches[s].decision
                    == after.matches[s].decision && before.matches[s].confidence
                    == after.matches[s].confidence && before.matches[s].score_bps
                    == after.matches[s].score_bps && before.matches[s].evidence
                    == after.matches[s].evidence
        }),
{
    law_contexts_ignore_names(source, renamed_source, None);
    law_contexts_ignore_names(target, renamed_target, None);
}

} // verus!
