//! Analyses are determined by what they analyze.

use vstd::prelude::*;

use super::{assemble, calls, interner, references, rows, symbols, validate};
use super::{Analysis, StableId};
use crate::syntax::RowModel;
use crate::{order, text};

verus! {

proof fn lemma_same_id(a: StableId, b: StableId)
    requires
        a.0@ == b.0@,
    ensures
        a == b,
{
    assert(a.0 =~= b.0);
}

/// A text has one row.
proof fn lemma_one_row(table: Seq<Seq<char>>, a: u32, b: u32, text: Seq<char>)
    requires
        table.no_duplicates(),
        interner::names(table, a, text),
        interner::names(table, b, text),
    ensures
        a == b,
{
}

/// The strings of an analysis are distinct.
proof fn lemma_table_is_distinct(context: references::Context)
    ensures
        assemble::table_of(context).no_duplicates(),
{
    let empty: Seq<Seq<char>> = Seq::empty();
    let metadata = interner::all_joined(empty, assemble::metadata_texts());
    interner::lemma_joined_is_distinct(empty, assemble::metadata_texts());
    interner::lemma_joined_is_distinct(metadata, rows::kinds_of(context.rows));
    interner::lemma_joined_is_distinct(
        assemble::table_of_nodes(context.rows),
        symbols::names_of(context.candidates, symbols::kept(context.candidates)),
    );
    interner::lemma_joined_is_distinct(
        assemble::table_of_symbols(context),
        references::pending_names(references::all_pending(context)),
    );
    interner::lemma_joined_is_distinct(
        assemble::table_of_references(context),
        calls::properties_of(calls::all_calls(context)),
    );
    interner::lemma_joined_is_distinct(
        assemble::table_of_calls(context),
        assemble::loss_texts(),
    );
}

/// An analysis is a function of the syntax tree and its text: two analyses of
/// the same tree have the same strings and the same rows, identities included.
pub proof fn law_analyses_are_deterministic(
    a: Analysis,
    b: Analysis,
    tree: Seq<RowModel>,
    source: Seq<char>,
)
    requires
        assemble::is_analysis_of(a, tree, source),
        assemble::is_analysis_of(b, tree, source),
    ensures
        a.source_digest@ == b.source_digest@,
        a.source_length == b.source_length,
        text::views(a.strings@) == text::views(b.strings@),
        a.nodes@ == b.nodes@,
        a.scopes@ == b.scopes@,
        a.symbols@ == b.symbols@,
        a.references@ == b.references@,
        a.def_uses@ == b.def_uses@,
        a.calls@ == b.calls@,
        a.losses@ == b.losses@,
{
    let context = assemble::context_of(tree, source);
    let table = assemble::table_of(context);
    lemma_table_is_distinct(context);
    assert forall|i: int| 0 <= i < a.nodes@.len() implies a.nodes@[i] == b.nodes@[i] by {
        let (m, n) = (a.nodes@[i], b.nodes@[i]);
        assert(rows::node_is(m, context.rows, table, i));
        assert(rows::node_is(n, context.rows, table, i));
        lemma_one_row(table, m.kind, n.kind, context.rows[i].kind);
        lemma_same_id(m.id, n.id);
    }
    assert(a.nodes@ =~= b.nodes@);
    let keys = rows::scope_keys_of(context.scopes);
    order::lemma_rank_is_bijective(keys);
    assert forall|i: int| 0 <= i < a.scopes@.len() implies a.scopes@[i] == b.scopes@[i] by {
        let s = order::row_at(keys, i);
        assert(rows::scope_row(context.scopes, s) == i);
        assert(rows::scope_is(a.scopes@[i], context.scopes, s));
        assert(rows::scope_is(b.scopes@[i], context.scopes, s));
        lemma_same_id(a.scopes@[i].id, b.scopes@[i].id);
    }
    assert(a.scopes@ =~= b.scopes@);
    assert forall|i: int| 0 <= i < a.symbols@.len() implies a.symbols@[i] == b.symbols@[i] by {
        let (m, n) = (a.symbols@[i], b.symbols@[i]);
        let k = symbols::kept(context.candidates)[i];
        assert(symbols::symbol_is(m, a.nodes@, table, context.candidates, k));
        assert(symbols::symbol_is(n, b.nodes@, table, context.candidates, k));
        lemma_one_row(table, m.name, n.name, context.candidates[k].name);
        lemma_same_id(m.id, n.id);
    }
    assert(a.symbols@ =~= b.symbols@);
    let ordered = references::ordered_references(context);
    assert forall|i: int| 0 <= i < a.references@.len() implies a.references@[i]
        == b.references@[i] by {
        let (m, n) = (a.references@[i], b.references@[i]);
        assert(references::reference_is(m, a.nodes@, table, ordered[i]));
        assert(references::reference_is(n, b.nodes@, table, ordered[i]));
        lemma_one_row(table, m.name, n.name, ordered[i].name);
        lemma_same_id(m.id, n.id);
    }
    assert(a.references@ =~= b.references@);
    assert forall|i: int| 0 <= i < a.def_uses@.len() implies a.def_uses@[i] == b.def_uses@[i] by {
        let (m, n) = (a.def_uses@[i], b.def_uses@[i]);
        assert(references::def_use_is(m, a.references@, a.symbols@, ordered, i));
        assert(references::def_use_is(n, b.references@, b.symbols@, ordered, i));
        lemma_same_id(m.id, n.id);
    }
    assert(a.def_uses@ =~= b.def_uses@);
    let found = calls::ordered_calls(context);
    assert forall|i: int| 0 <= i < a.calls@.len() implies a.calls@[i] == b.calls@[i] by {
        let (m, n) = (a.calls@[i], b.calls@[i]);
        assert(calls::call_is(m, a.nodes@, table, a.def_uses@, a.symbols@, found[i]));
        assert(calls::call_is(n, b.nodes@, table, b.def_uses@, b.symbols@, found[i]));
        if let Some(property) = found[i].property {
            lemma_one_row(table, m.property->0, n.property->0, property);
        }
        lemma_same_id(m.id, n.id);
    }
    assert(a.calls@ =~= b.calls@);
    assert forall|i: int| 0 <= i < a.losses@.len() implies a.losses@[i] == b.losses@[i] by {
        let (m, n) = (a.losses@[i], b.losses@[i]);
        assert(m.code == n.code);
        lemma_one_row(table, m.message, n.message, assemble::loss_texts()[i]);
    }
    assert(a.losses@ =~= b.losses@);
}

/// Whether two analyses have the same contents.
spec fn same_contents(a: Analysis, b: Analysis) -> bool {
    &&& validate::metadata_is_supported(a)
    &&& validate::metadata_is_supported(b)
    &&& a.source_length == b.source_length
    &&& a.strings@.len() == b.strings@.len()
    &&& forall|i: int| 0 <= i < a.strings@.len() ==> (#[trigger] a.strings@[i])@ == b.strings@[i]@
    &&& a.nodes@ == b.nodes@
    &&& a.scopes@ == b.scopes@
    &&& a.symbols@ == b.symbols@
    &&& a.references@ == b.references@
    &&& a.def_uses@ == b.def_uses@
    &&& a.calls@ == b.calls@
    &&& a.losses@ == b.losses@
}

proof fn lemma_same_node_faults(a: Analysis, b: Analysis, i: int)
    requires
        same_contents(a, b),
        0 <= i <= a.nodes@.len(),
    ensures
        validate::first_node_fault(a, i) == validate::first_node_fault(b, i),
    decreases a.nodes@.len() - i,
{
    if i < a.nodes@.len() {
        lemma_same_node_faults(a, b, i + 1);
        let kind = a.nodes@[i].kind as int;
        if kind < a.strings@.len() {
            assert(a.strings@[kind]@ == b.strings@[kind]@);
        }
        assert(validate::node_fault(a, i) == validate::node_fault(b, i));
    }
}

proof fn lemma_same_scope_faults(a: Analysis, b: Analysis, i: int)
    requires
        same_contents(a, b),
        0 <= i <= a.scopes@.len(),
    ensures
        validate::first_scope_fault(a, i) == validate::first_scope_fault(b, i),
    decreases a.scopes@.len() - i,
{
    if i < a.scopes@.len() {
        lemma_same_scope_faults(a, b, i + 1);
        assert(validate::scope_fault(a, i) == validate::scope_fault(b, i));
    }
}

proof fn lemma_same_symbol_faults(a: Analysis, b: Analysis, i: int)
    requires
        same_contents(a, b),
        0 <= i <= a.symbols@.len(),
    ensures
        validate::first_symbol_fault(a, i) == validate::first_symbol_fault(b, i),
        validate::first_foreign_range(a, i) == validate::first_foreign_range(b, i),
    decreases a.symbols@.len() - i,
{
    if i < a.symbols@.len() {
        lemma_same_symbol_faults(a, b, i + 1);
        assert(validate::symbol_fault(a, i) == validate::symbol_fault(b, i));
        assert(validate::owns_its_range(a, i) == validate::owns_its_range(b, i));
    }
}

proof fn lemma_same_reference_faults(a: Analysis, b: Analysis, i: int)
    requires
        same_contents(a, b),
        0 <= i <= a.references@.len(),
    ensures
        validate::first_reference_fault(a, i) == validate::first_reference_fault(b, i),
    decreases a.references@.len() - i,
{
    if i < a.references@.len() {
        lemma_same_reference_faults(a, b, i + 1);
        assert(validate::reference_fault(a, i) == validate::reference_fault(b, i));
    }
}

proof fn lemma_same_call_faults(a: Analysis, b: Analysis, i: int)
    requires
        same_contents(a, b),
        validate::first_node_fault(a, 0) is None,
        0 <= i <= a.calls@.len(),
    ensures
        validate::first_call_fault(a, i) == validate::first_call_fault(b, i),
    decreases a.calls@.len() - i,
{
    if i < a.calls@.len() {
        lemma_same_call_faults(a, b, i + 1);
        if a.calls@[i].node < a.nodes@.len() {
            let node = a.calls@[i].node as int;
            validate::lemma_node_is_sound(a, node);
            let kind = a.nodes@[node].kind as int;
            assert(a.strings@[kind]@ == b.strings@[kind]@);
        }
        assert(validate::call_fault(a, i) == validate::call_fault(b, i));
    }
}

proof fn lemma_same_loss_faults(a: Analysis, b: Analysis, i: int)
    requires
        same_contents(a, b),
        0 <= i <= a.losses@.len(),
    ensures
        validate::first_loss_fault(a, i) == validate::first_loss_fault(b, i),
    decreases a.losses@.len() - i,
{
    if i < a.losses@.len() {
        lemma_same_loss_faults(a, b, i + 1);
    }
}

/// Validation is a function of the syntax tree and its text: two analyses of
/// the same tree have the same first fault, or none.
pub proof fn law_validation_is_deterministic(
    a: Analysis,
    b: Analysis,
    tree: Seq<RowModel>,
    source: Seq<char>,
)
    requires
        assemble::is_analysis_of(a, tree, source),
        assemble::is_analysis_of(b, tree, source),
    ensures
        validate::analysis_fault(a) == validate::analysis_fault(b),
{
    law_analyses_are_deterministic(a, b, tree, source);
    assert(text::views(a.strings@).len() == a.strings@.len());
    assert(text::views(b.strings@).len() == b.strings@.len());
    assert forall|i: int| 0 <= i < a.strings@.len() implies (#[trigger] a.strings@[i])@
        == b.strings@[i]@ by {
        assert(text::views(a.strings@)[i] == a.strings@[i]@);
        assert(text::views(b.strings@)[i] == b.strings@[i]@);
    }
    lemma_same_node_faults(a, b, 0);
    lemma_same_scope_faults(a, b, 0);
    lemma_same_symbol_faults(a, b, 0);
    lemma_same_reference_faults(a, b, 0);
    lemma_same_loss_faults(a, b, 0);
    assert(validate::has_stray_resolution(a) == validate::has_stray_resolution(b));
    if validate::first_node_fault(a, 0) is None {
        lemma_same_call_faults(a, b, 0);
    }
}

} // verus!
