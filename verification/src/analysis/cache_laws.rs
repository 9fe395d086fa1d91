//! What is persisted is read back.

use vstd::prelude::*;
use vstd::string::*;
use vstd::utf8::*;

use super::cache::NO_ROW;
use super::columns::AnalysisColumns;
use super::{
    Analysis, AnalysisCallKind, AnalysisReferenceRole, AnalysisResolution,
    AnalysisScopeKind, AnalysisSymbolKind, LossCode,
};

use super::{cache, columns, validate};
use crate::{faults, text};

verus! {

/// Whether columns are those of a valid analysis whose rows can be numbered.
pub open spec fn are_persisted(c: AnalysisColumns, a: Analysis) -> bool {
    &&& columns::encode_fault(a) is None
    &&& columns::are_columns(c, a)
    &&& a.strings@.len() <= u32::MAX
}

proof fn lemma_place(strings: Seq<Seq<char>>, value: Seq<char>, k: int)
    requires
        0 <= k,
        columns::place_of(strings, value, k) < strings.len(),
    ensures
        strings[columns::place_of(strings, value, k)] == value,
    decreases strings.len() - k,
{
    if k < strings.len() && strings[k] != value {
        lemma_place(strings, value, k + 1);
    }
}

/// The strings of an analysis are read back.
proof fn lemma_strings(c: AnalysisColumns, a: Analysis)
    requires
        are_persisted(c, a),
    ensures
        cache::strings_of(c) == text::views(a.strings@),
        cache::strings_fault(c) is None,
{
    broadcast use encode_utf8_valid_utf8, encode_utf8_decode_utf8;

    let fault = |i: int|
        faults::fault_if(!valid_utf8(c.strings@[i]@), cache::CacheError::NotText(i as usize));
    assert forall|i: int| 0 <= i < c.strings@.len() implies (#[trigger] fault(i)) is None by {
        assert(c.strings@[i]@ == encode_utf8(a.strings@[i]@));
    }
    faults::lemma_first_of(c.strings@.len() as int, fault, 0);
    assert(cache::strings_of(c) =~= text::views(a.strings@)) by {
        assert forall|i: int| 0 <= i < c.strings@.len() implies cache::strings_of(c)[i]
            == text::views(a.strings@)[i] by {
            assert(c.strings@[i]@ == encode_utf8(a.strings@[i]@));
        }
    }
}

proof fn lemma_metadata(c: AnalysisColumns, a: Analysis)
    requires
        are_persisted(c, a),
    ensures
        cache::header_fault(c, a.source_digest@) is None,
        cache::all_metadata_fault(c) is None,
{
    validate::law_no_fault_means_valid(a);
    lemma_strings(c, a);
    let strings = text::views(a.strings@);
    lemma_place(strings, a.profile@, 0);
    lemma_place(strings, a.frontend@, 0);
    lemma_place(strings, a.frontend_version@, 0);
}

proof fn lemma_paths(c: AnalysisColumns, a: Analysis, row: int, from: int)
    requires
        are_persisted(c, a),
        validate::rows_fit(a),
        0 <= from < a.nodes@.len(),
    ensures
        cache::is_on_path(c.nodes.parent@, row, from) == validate::is_on_path(
            a.nodes@,
            row,
            from,
        ),
    decreases from,
{
    assert(columns::is_node_row(c.nodes, from, a.nodes@[from]));
    assert(validate::row_fits(a.nodes@[from].parent, from));
    match a.nodes@[from].parent {
        Some(parent) => {
            lemma_paths(c, a, row, parent as int);
        },
        None => {},
    }
}

proof fn lemma_children(c: AnalysisColumns, a: Analysis, parent: u32, count: int)
    requires
        are_persisted(c, a),
        validate::rows_fit(a),
        parent != NO_ROW,
        count <= a.nodes@.len(),
    ensures
        cache::children_before(c.nodes.parent@, parent, count) == validate::children_before(
            a.nodes@,
            parent,
            count,
        ),
    decreases count,
{
    if count > 0 {
        lemma_children(c, a, parent, count - 1);
        assert(columns::is_node_row(c.nodes, count - 1, a.nodes@[count - 1]));
    }
}

/// A syntax node is read back.
pub proof fn law_nodes_read_back(c: AnalysisColumns, a: Analysis, i: int)
    requires
        are_persisted(c, a),
        0 <= i < a.nodes@.len(),
    ensures
        cache::node_identity(c, i) == a.nodes@[i].id.0@,
        cache::row_of(c.nodes.parent@[i]) == a.nodes@[i].parent,
        c.nodes.child_ordinal@[i] == a.nodes@[i].child_ordinal,
        cache::strings_of(c)[c.nodes.kind@[i] as int] == a.strings@[a.nodes@[i].kind as int]@,
        c.nodes.start_byte@[i] == a.nodes@[i].start_byte,
        c.nodes.end_byte@[i] == a.nodes@[i].end_byte,
        c.nodes.flags@[i] == a.nodes@[i].flags,
{
    validate::law_no_fault_means_valid(a);
    lemma_strings(c, a);
    assert(validate::node_fault(a, i) is None);
    assert(columns::is_node_row(c.nodes, i, a.nodes@[i]));
}

proof fn lemma_nodes(c: AnalysisColumns, a: Analysis)
    requires
        are_persisted(c, a),
    ensures
        cache::nodes_fault(c) is None,
{
    validate::law_no_fault_means_valid(a);
    validate::lemma_valid_rows_fit(a);
    lemma_strings(c, a);
    let fault = |i: int| cache::node_row_fault(c, i);
    assert forall|i: int| 0 <= i < c.node_count implies (#[trigger] fault(i)) is None by {
        assert(validate::node_fault(a, i) is None);
        assert(columns::is_node_row(c.nodes, i, a.nodes@[i]));
        match a.nodes@[i].parent {
            Some(parent) => {
                assert(columns::is_node_row(c.nodes, parent as int, a.nodes@[parent as int]));
                lemma_paths(c, a, parent as int, i - 1);
                lemma_children(c, a, parent, i);
            },
            None => {},
        }
        assert(cache::node_fault(c, i) is None);
    }
    faults::lemma_first_of(c.node_count as int, fault, 0);
}

/// A scope is read back.
pub proof fn law_scopes_read_back(c: AnalysisColumns, a: Analysis, i: int)
    requires
        are_persisted(c, a),
        0 <= i < a.scopes@.len(),
    ensures
        cache::scope_identity(c.scopes, i) == a.scopes@[i].id.0@,
        cache::row_of(c.scopes.parent@[i]) == a.scopes@[i].parent,
        AnalysisScopeKind::from_code_spec(c.scopes.kind@[i]) == Some(a.scopes@[i].kind),
        c.scopes.depth@[i] == a.scopes@[i].depth,
        c.scopes.start_byte@[i] == a.scopes@[i].start_byte,
        c.scopes.end_byte@[i] == a.scopes@[i].end_byte,
{
    validate::law_no_fault_means_valid(a);
    assert(validate::scope_fault(a, i) is None);
    assert(columns::is_scope_row(c.scopes, i, a.scopes@[i]));
}

proof fn lemma_scopes(c: AnalysisColumns, a: Analysis)
    requires
        are_persisted(c, a),
    ensures
        cache::scopes_fault(c) is None,
{
    validate::law_no_fault_means_valid(a);
    let fault = |i: int| cache::scope_row_fault(c, i);
    assert forall|i: int| 0 <= i < c.scope_count implies (#[trigger] fault(i)) is None by {
        assert(validate::scope_fault(a, i) is None);
        assert(columns::is_scope_row(c.scopes, i, a.scopes@[i]));
        law_scopes_read_back(c, a, i);
        if cache::scope_is_repeated(c.scopes, i) {
            let k = choose|k: int|
                0 <= k < i && #[trigger] cache::scope_identity(c.scopes, k)
                    == cache::scope_identity(c.scopes, i);
            law_scopes_read_back(c, a, k);
            assert(a.scopes@[k].id.0 =~= a.scopes@[i].id.0);
            assert(a.scopes@[k].id == a.scopes@[i].id);
        }
        match a.scopes@[i].parent {
            Some(parent) => {
                assert(columns::is_scope_row(c.scopes, parent as int, a.scopes@[parent as int]));
            },
            None => {},
        }
    }
    faults::lemma_first_of(c.scope_count as int, fault, 0);
}

proof fn lemma_reference_counts(c: AnalysisColumns, a: Analysis, count: int)
    requires
        are_persisted(c, a),
        count <= a.symbols@.len(),
    ensures
        cache::references_before(c.symbols, count) == validate::references_before(
            a.symbols@,
            count,
        ),
    decreases count,
{
    if count > 0 {
        lemma_reference_counts(c, a, count - 1);
        assert(columns::is_symbol_row(c.symbols, count - 1, a.symbols@[count - 1]));
    }
}

/// A symbol is read back.
pub proof fn law_symbols_read_back(c: AnalysisColumns, a: Analysis, i: int)
    requires
        are_persisted(c, a),
        0 <= i < a.symbols@.len(),
    ensures
        columns::id_at(c.symbols.ids@, i) == a.symbols@[i].id.0@,
        c.symbols.declaration_node@[i] == a.symbols@[i].declaration_node,
        c.symbols.scope@[i] == a.symbols@[i].scope,
        cache::strings_of(c)[c.symbols.name@[i] as int]
            == a.strings@[a.symbols@[i].name as int]@,
        AnalysisSymbolKind::from_code_spec(c.symbols.kind@[i]) == Some(a.symbols@[i].kind),
        c.symbols.reference_first@[i] == a.symbols@[i].reference_first,
        c.symbols.reference_count@[i] == a.symbols@[i].reference_count,
{
    validate::law_no_fault_means_valid(a);
    lemma_strings(c, a);
    assert(validate::symbol_fault(a, i) is None);
    assert(columns::is_symbol_row(c.symbols, i, a.symbols@[i]));
}

proof fn lemma_symbols(c: AnalysisColumns, a: Analysis)
    requires
        are_persisted(c, a),
    ensures
        cache::symbols_fault(c) is None,
{
    validate::law_no_fault_means_valid(a);
    let fault = |i: int| cache::symbol_row_fault(c, i);
    assert forall|i: int| 0 <= i < c.symbol_count implies (#[trigger] fault(i)) is None by {
        let symbol = a.symbols@[i];
        assert(validate::symbol_fault(a, i) is None);
        assert(columns::is_symbol_row(c.symbols, i, symbol));
        lemma_reference_counts(c, a, i);
        assert(columns::is_node_row(
            c.nodes,
            symbol.declaration_node as int,
            a.nodes@[symbol.declaration_node as int],
        ));
        assert(columns::is_scope_row(
            c.scopes,
            symbol.scope as int,
            a.scopes@[symbol.scope as int],
        ));
        if cache::occurs_before(c.symbols.declaration_node@, symbol.declaration_node, i) {
            let k = choose|k: int|
                0 <= k < i && #[trigger] c.symbols.declaration_node@[k]
                    == symbol.declaration_node;
            assert(columns::is_symbol_row(c.symbols, k, a.symbols@[k]));
            assert(validate::declaration_is_reused(a, i));
        }
    }
    faults::lemma_first_of(c.symbol_count as int, fault, 0);
}

/// A reference is read back.
pub proof fn law_references_read_back(c: AnalysisColumns, a: Analysis, i: int)
    requires
        are_persisted(c, a),
        0 <= i < a.references@.len(),
    ensures
        columns::id_at(c.references.ids@, i) == a.references@[i].id.0@,
        c.references.node@[i] == a.references@[i].node,
        c.references.scope@[i] == a.references@[i].scope,
        cache::strings_of(c)[c.references.name@[i] as int]
            == a.strings@[a.references@[i].name as int]@,
        AnalysisReferenceRole::from_code_spec(c.references.role@[i]) == Some(
            a.references@[i].role,
        ),
{
    validate::law_no_fault_means_valid(a);
    lemma_strings(c, a);
    assert(validate::reference_fault(a, i) is None);
    assert(columns::is_reference_row(c.references, i, a.references@[i]));
}

proof fn lemma_references(c: AnalysisColumns, a: Analysis)
    requires
        are_persisted(c, a),
    ensures
        cache::references_fault(c) is None,
{
    validate::law_no_fault_means_valid(a);
    let fault = |i: int| cache::reference_row_fault(c, i);
    assert forall|i: int| 0 <= i < c.reference_count implies (#[trigger] fault(i)) is None by {
        let reference = a.references@[i];
        assert(validate::reference_fault(a, i) is None);
        assert(columns::is_reference_row(c.references, i, reference));
        assert(columns::is_node_row(
            c.nodes,
            reference.node as int,
            a.nodes@[reference.node as int],
        ));
        assert(columns::is_scope_row(
            c.scopes,
            reference.scope as int,
            a.scopes@[reference.scope as int],
        ));
        if cache::occurs_before(c.references.node@, reference.node, i) {
            let k = choose|k: int|
                0 <= k < i && #[trigger] c.references.node@[k] == reference.node;
            assert(columns::is_reference_row(c.references, k, a.references@[k]));
            assert(validate::reference_node_is_reused(a, i));
        }
    }
    faults::lemma_first_of(c.reference_count as int, fault, 0);
}

/// A resolution is read back.
pub proof fn law_def_uses_read_back(c: AnalysisColumns, a: Analysis, i: int)
    requires
        are_persisted(c, a),
        0 <= i < a.def_uses@.len(),
    ensures
        columns::id_at(c.def_uses.ids@, i) == a.def_uses@[i].id.0@,
        c.def_uses.reference@[i] == a.def_uses@[i].reference,
        cache::row_of(c.def_uses.symbol@[i]) == a.def_uses@[i].symbol,
        AnalysisResolution::from_code_spec(c.def_uses.resolution@[i]) == Some(
            a.def_uses@[i].resolution,
        ),
{
    validate::law_no_fault_means_valid(a);
    assert(validate::reference_fault(a, i) is None);
    assert(columns::is_def_use_row(c.def_uses, i, a.def_uses@[i]));
}

proof fn lemma_def_uses(c: AnalysisColumns, a: Analysis)
    requires
        are_persisted(c, a),
    ensures
        cache::def_uses_fault(c) is None,
{
    validate::law_no_fault_means_valid(a);
    let rows = |i: int| cache::def_use_row_fault(c, i);
    assert forall|i: int| 0 <= i < c.def_use_count implies (#[trigger] rows(i)) is None by {
        assert(validate::reference_fault(a, i) is None);
        assert(columns::is_def_use_row(c.def_uses, i, a.def_uses@[i]));
    }
    faults::lemma_first_of(c.def_use_count as int, rows, 0);
    let ranges = |i: int|
        faults::fault_if(
            !cache::owns_its_range(c, i),
            cache::CacheError::ForeignReference(i as usize),
        );
    assert forall|i: int| 0 <= i < c.symbol_count implies (#[trigger] ranges(i)) is None by {
        assert(validate::owns_its_range(a, i));
        assert(validate::symbol_fault(a, i) is None);
        assert(columns::is_symbol_row(c.symbols, i, a.symbols@[i]));
        let first = c.symbols.reference_first@[i];
        assert forall|k: int|
            first <= k < first + c.symbols.reference_count@[i] implies
            #[trigger] c.def_uses.symbol@[k] == i as u32 by {
            assert(a.def_uses@[k].symbol == Some(i as u32));
            assert(columns::is_def_use_row(c.def_uses, k, a.def_uses@[k]));
        }
    }
    faults::lemma_first_of(c.symbol_count as int, ranges, 0);
    lemma_reference_counts(c, a, a.symbols@.len() as int);
    if cache::has_stray_resolution(c) {
        let k = choose|k: int|
            cache::references_before(c.symbols, c.symbol_count as int) <= k < c.reference_count
                && #[trigger] c.def_uses.symbol@[k] != NO_ROW;
        lemma_references_are_counted(a, a.symbols@.len() as int);
        assert(columns::is_def_use_row(c.def_uses, k, a.def_uses@[k]));
        assert(a.def_uses@[k].symbol is Some);
        assert(validate::has_stray_resolution(a));
    }
}

proof fn lemma_references_are_counted(a: Analysis, count: int)
    ensures
        validate::references_before(a.symbols@, count) >= 0,
    decreases count,
{
    if count > 0 {
        lemma_references_are_counted(a, count - 1);
    }
}

/// A call is read back.
pub proof fn law_calls_read_back(c: AnalysisColumns, a: Analysis, i: int)
    requires
        are_persisted(c, a),
        0 <= i < a.calls@.len(),
    ensures
        columns::id_at(c.calls.ids@, i) == a.calls@[i].id.0@,
        c.calls.node@[i] == a.calls@[i].node,
        cache::row_of(c.calls.callee_reference@[i]) == a.calls@[i].callee_reference,
        cache::row_of(c.calls.target_symbol@[i]) == a.calls@[i].target_symbol,
        cache::row_of(c.calls.property@[i]) == a.calls@[i].property,
        AnalysisCallKind::from_code_spec(c.calls.kind@[i]) == Some(a.calls@[i].kind),
{
    validate::law_no_fault_means_valid(a);
    assert(validate::call_fault(a, i) is None);
    assert(columns::is_call_row(c.calls, i, a.calls@[i]));
}

proof fn lemma_calls(c: AnalysisColumns, a: Analysis)
    requires
        are_persisted(c, a),
    ensures
        cache::calls_fault(c) is None,
{
    validate::law_no_fault_means_valid(a);
    validate::lemma_valid_rows_fit(a);
    lemma_strings(c, a);
    let fault = |i: int| cache::call_row_fault(c, i);
    assert forall|i: int| 0 <= i < c.call_count implies (#[trigger] fault(i)) is None by {
        let call = a.calls@[i];
        assert(validate::call_fault(a, i) is None);
        assert(columns::is_call_row(c.calls, i, call));
        law_calls_read_back(c, a, i);
        assert(columns::is_node_row(c.nodes, call.node as int, a.nodes@[call.node as int]));
        assert(a.nodes@[call.node as int].kind < a.strings@.len());
        if cache::occurs_before(c.calls.node@, call.node, i) {
            let k = choose|k: int| 0 <= k < i && #[trigger] c.calls.node@[k] == call.node;
            assert(columns::is_call_row(c.calls, k, a.calls@[k]));
            assert(validate::call_node_is_reused(a, i));
        }
        match call.callee_reference {
            Some(callee) => {
                let inner = a.references@[callee as int];
                assert(columns::is_reference_row(c.references, callee as int, inner));
                assert(columns::is_node_row(
                    c.nodes,
                    inner.node as int,
                    a.nodes@[inner.node as int],
                ));
                law_def_uses_read_back(c, a, callee as int);
                assert(columns::is_def_use_row(
                    c.def_uses,
                    callee as int,
                    a.def_uses@[callee as int],
                ));
            },
            None => {},
        }
    }
    faults::lemma_first_of(c.call_count as int, fault, 0);
}

/// A loss is read back.
pub proof fn law_losses_read_back(c: AnalysisColumns, a: Analysis, i: int)
    requires
        are_persisted(c, a),
        0 <= i < a.losses@.len(),
    ensures
        LossCode::from_code_spec(c.losses.code@[i]) == Some(a.losses@[i].code),
        cache::strings_of(c)[c.losses.message@[i] as int]
            == a.strings@[a.losses@[i].message as int]@,
{
    validate::law_no_fault_means_valid(a);
    lemma_strings(c, a);
    assert(a.losses@[i].message < a.strings@.len());
}

proof fn lemma_losses(c: AnalysisColumns, a: Analysis)
    requires
        are_persisted(c, a),
    ensures
        cache::losses_fault(c) is None,
{
    validate::law_no_fault_means_valid(a);
    let fault = |i: int| cache::loss_row_fault(c, i);
    assert forall|i: int| 0 <= i < c.loss_count implies (#[trigger] fault(i)) is None by {
        law_losses_read_back(c, a, i);
        assert(a.losses@[i].message < a.strings@.len());
    }
    faults::lemma_first_of(c.loss_count as int, fault, 0);
}

proof fn lemma_identities(c: AnalysisColumns, a: Analysis)
    requires
        are_persisted(c, a),
    ensures
        cache::identities_fault(c) is None,
{
    validate::law_no_fault_means_valid(a);
    let symbols = |i: int| cache::symbol_id_fault(c, i);
    assert forall|i: int| 0 <= i < c.symbol_count implies (#[trigger] symbols(i)) is None by {
        assert(validate::symbol_fault(a, i) is None);
        law_symbols_read_back(c, a, i);
        law_nodes_read_back(c, a, a.symbols@[i].declaration_node as int);
    }
    faults::lemma_first_of(c.symbol_count as int, symbols, 0);
    let references = |i: int| cache::reference_id_fault(c, i);
    assert forall|i: int| 0 <= i < c.reference_count implies (
    #[trigger] references(i)) is None by {
        assert(validate::reference_fault(a, i) is None);
        law_references_read_back(c, a, i);
        law_def_uses_read_back(c, a, i);
        law_nodes_read_back(c, a, a.references@[i].node as int);
        match a.def_uses@[i].symbol {
            Some(symbol) => {
                law_symbols_read_back(c, a, symbol as int);
            },
            None => {},
        }
    }
    faults::lemma_first_of(c.reference_count as int, references, 0);
    let calls = |i: int| cache::call_id_fault(c, i);
    assert forall|i: int| 0 <= i < c.call_count implies (#[trigger] calls(i)) is None by {
        let call = a.calls@[i];
        assert(validate::call_fault(a, i) is None);
        law_calls_read_back(c, a, i);
        law_nodes_read_back(c, a, call.node as int);
        match call.callee_reference {
            Some(callee) => {
                law_def_uses_read_back(c, a, callee as int);
            },
            None => {},
        }
        match call.target_symbol {
            Some(symbol) => {
                law_symbols_read_back(c, a, symbol as int);
            },
            None => {},
        }
    }
    faults::lemma_first_of(c.call_count as int, calls, 0);
}

/// The columns of a valid analysis pass every check.
pub proof fn law_persisted_analyses_are_accepted(c: AnalysisColumns, a: Analysis)
    requires
        are_persisted(c, a),
    ensures
        cache::cache_fault(c, a.source_digest@) is None,
{
    lemma_metadata(c, a);
    lemma_strings(c, a);
    lemma_nodes(c, a);
    lemma_scopes(c, a);
    lemma_symbols(c, a);
    lemma_references(c, a);
    lemma_def_uses(c, a);
    lemma_calls(c, a);
    lemma_losses(c, a);
    lemma_identities(c, a);
}

/// Columns are accepted only with the digest that they hold.
pub proof fn law_columns_belong_to_one_source(
    c: AnalysisColumns,
    source_digest: Seq<u8>,
    other: Seq<u8>,
)
    requires
        cache::cache_fault(c, source_digest) is None,
        source_digest != other,
    ensures
        cache::cache_fault(c, other) == Some(cache::CacheError::DigestMismatch),
{
}

/// Identities that agree one by one are the same bytes.
proof fn lemma_same_ids(a: Seq<u8>, b: Seq<u8>, count: int)
    requires
        0 <= count,
        a.len() == 32 * count,
        b.len() == 32 * count,
        forall|i: int| 0 <= i < count ==> #[trigger] columns::id_at(a, i) == columns::id_at(b, i),
    ensures
        a == b,
{
    assert forall|k: int| 0 <= k < a.len() implies a[k] == b[k] by {
        let (i, at) = (k / 32, k % 32);
        assert(columns::id_at(a, i) == columns::id_at(b, i));
        assert(columns::id_at(a, i)[at] == a[k]);
        assert(columns::id_at(b, i)[at] == b[k]);
    }
    assert(a =~= b);
}

proof fn lemma_same_structure(c: AnalysisColumns, d: AnalysisColumns, a: Analysis)
    requires
        columns::are_columns(c, a),
        columns::are_columns(d, a),
    ensures
        c.nodes.parent@ == d.nodes.parent@,
        c.nodes.child_ordinal@ == d.nodes.child_ordinal@,
        c.nodes.kind@ == d.nodes.kind@,
        c.nodes.start_byte@ == d.nodes.start_byte@,
        c.nodes.end_byte@ == d.nodes.end_byte@,
        c.nodes.flags@ == d.nodes.flags@,
        c.scopes.parent@ == d.scopes.parent@,
        c.scopes.kind@ == d.scopes.kind@,
        c.scopes.depth@ == d.scopes.depth@,
        c.scopes.start_byte@ == d.scopes.start_byte@,
        c.scopes.end_byte@ == d.scopes.end_byte@,
        c.losses.code@ == d.losses.code@,
        c.losses.message@ == d.losses.message@,
{
    assert forall|i: int| 0 <= i < a.nodes@.len() implies c.nodes.parent@[i] == d.nodes.parent@[i]
        && c.nodes.child_ordinal@[i] == d.nodes.child_ordinal@[i] && c.nodes.kind@[i]
        == d.nodes.kind@[i] && c.nodes.start_byte@[i] == d.nodes.start_byte@[i]
        && c.nodes.end_byte@[i] == d.nodes.end_byte@[i] && c.nodes.flags@[i]
        == d.nodes.flags@[i] by {
        assert(columns::is_node_row(c.nodes, i, a.nodes@[i]));
        assert(columns::is_node_row(d.nodes, i, a.nodes@[i]));
    }
    assert forall|i: int| 0 <= i < a.scopes@.len() implies c.scopes.parent@[i]
        == d.scopes.parent@[i] && c.scopes.kind@[i] == d.scopes.kind@[i] && c.scopes.depth@[i]
        == d.scopes.depth@[i] && c.scopes.start_byte@[i] == d.scopes.start_byte@[i]
        && c.scopes.end_byte@[i] == d.scopes.end_byte@[i] by {
        assert(columns::is_scope_row(c.scopes, i, a.scopes@[i]));
        assert(columns::is_scope_row(d.scopes, i, a.scopes@[i]));
    }
    assert forall|i: int| 0 <= i < a.losses@.len() implies c.losses.code@[i] == d.losses.code@[i]
        && c.losses.message@[i] == d.losses.message@[i] by {
        assert(c.losses.code@[i] == a.losses@[i].code.code_spec());
        assert(d.losses.code@[i] == a.losses@[i].code.code_spec());
    }
}

proof fn lemma_same_uses(c: AnalysisColumns, d: AnalysisColumns, a: Analysis)
    requires
        columns::are_columns(c, a),
        columns::are_columns(d, a),
    ensures
        c.symbols.ids@ == d.symbols.ids@,
        c.symbols.declaration_node@ == d.symbols.declaration_node@,
        c.symbols.scope@ == d.symbols.scope@,
        c.symbols.name@ == d.symbols.name@,
        c.symbols.kind@ == d.symbols.kind@,
        c.symbols.reference_first@ == d.symbols.reference_first@,
        c.symbols.reference_count@ == d.symbols.reference_count@,
        c.references.ids@ == d.references.ids@,
        c.references.node@ == d.references.node@,
        c.references.scope@ == d.references.scope@,
        c.references.name@ == d.references.name@,
        c.references.role@ == d.references.role@,
{
    assert forall|i: int| 0 <= i < a.symbols@.len() implies #[trigger] columns::id_at(
        c.symbols.ids@,
        i,
    ) == columns::id_at(d.symbols.ids@, i) by {
        assert(columns::is_symbol_row(c.symbols, i, a.symbols@[i]));
        assert(columns::is_symbol_row(d.symbols, i, a.symbols@[i]));
    }
    assert forall|i: int| 0 <= i < a.symbols@.len() implies c.symbols.declaration_node@[i]
        == d.symbols.declaration_node@[i] && c.symbols.scope@[i] == d.symbols.scope@[i]
        && c.symbols.name@[i] == d.symbols.name@[i] && c.symbols.kind@[i] == d.symbols.kind@[i]
        && c.symbols.reference_first@[i] == d.symbols.reference_first@[i]
        && c.symbols.reference_count@[i] == d.symbols.reference_count@[i] by {
        assert(columns::is_symbol_row(c.symbols, i, a.symbols@[i]));
        assert(columns::is_symbol_row(d.symbols, i, a.symbols@[i]));
    }
    lemma_same_ids(c.symbols.ids@, d.symbols.ids@, a.symbols@.len() as int);
    assert forall|i: int| 0 <= i < a.references@.len() implies #[trigger] columns::id_at(
        c.references.ids@,
        i,
    ) == columns::id_at(d.references.ids@, i) by {
        assert(columns::is_reference_row(c.references, i, a.references@[i]));
        assert(columns::is_reference_row(d.references, i, a.references@[i]));
    }
    assert forall|i: int| 0 <= i < a.references@.len() implies c.references.node@[i]
        == d.references.node@[i] && c.references.scope@[i] == d.references.scope@[i]
        && c.references.name@[i] == d.references.name@[i] && c.references.role@[i]
        == d.references.role@[i] by {
        assert(columns::is_reference_row(c.references, i, a.references@[i]));
        assert(columns::is_reference_row(d.references, i, a.references@[i]));
    }
    lemma_same_ids(c.references.ids@, d.references.ids@, a.references@.len() as int);
}

proof fn lemma_same_edges(c: AnalysisColumns, d: AnalysisColumns, a: Analysis)
    requires
        columns::are_columns(c, a),
        columns::are_columns(d, a),
    ensures
        c.def_uses.ids@ == d.def_uses.ids@,
        c.def_uses.reference@ == d.def_uses.reference@,
        c.def_uses.symbol@ == d.def_uses.symbol@,
        c.def_uses.resolution@ == d.def_uses.resolution@,
        c.calls.ids@ == d.calls.ids@,
        c.calls.node@ == d.calls.node@,
        c.calls.callee_reference@ == d.calls.callee_reference@,
        c.calls.target_symbol@ == d.calls.target_symbol@,
        c.calls.property@ == d.calls.property@,
        c.calls.kind@ == d.calls.kind@,
{
    assert forall|i: int| 0 <= i < a.def_uses@.len() implies #[trigger] columns::id_at(
        c.def_uses.ids@,
        i,
    ) == columns::id_at(d.def_uses.ids@, i) by {
        assert(columns::is_def_use_row(c.def_uses, i, a.def_uses@[i]));
        assert(columns::is_def_use_row(d.def_uses, i, a.def_uses@[i]));
    }
    assert forall|i: int| 0 <= i < a.def_uses@.len() implies c.def_uses.reference@[i]
        == d.def_uses.reference@[i] && c.def_uses.symbol@[i] == d.def_uses.symbol@[i]
        && c.def_uses.resolution@[i] == d.def_uses.resolution@[i] by {
        assert(columns::is_def_use_row(c.def_uses, i, a.def_uses@[i]));
        assert(columns::is_def_use_row(d.def_uses, i, a.def_uses@[i]));
    }
    lemma_same_ids(c.def_uses.ids@, d.def_uses.ids@, a.def_uses@.len() as int);
    assert forall|i: int| 0 <= i < a.calls@.len() implies #[trigger] columns::id_at(c.calls.ids@, i)
        == columns::id_at(d.calls.ids@, i) by {
        assert(columns::is_call_row(c.calls, i, a.calls@[i]));
        assert(columns::is_call_row(d.calls, i, a.calls@[i]));
    }
    assert forall|i: int| 0 <= i < a.calls@.len() implies c.calls.node@[i] == d.calls.node@[i]
        && c.calls.callee_reference@[i] == d.calls.callee_reference@[i]
        && c.calls.target_symbol@[i] == d.calls.target_symbol@[i] && c.calls.property@[i]
        == d.calls.property@[i] && c.calls.kind@[i] == d.calls.kind@[i] by {
        assert(columns::is_call_row(c.calls, i, a.calls@[i]));
        assert(columns::is_call_row(d.calls, i, a.calls@[i]));
    }
    lemma_same_ids(c.calls.ids@, d.calls.ids@, a.calls@.len() as int);
}

/// Whether two sets of columns hold the same rows.
pub open spec fn are_same_columns(c: AnalysisColumns, d: AnalysisColumns) -> bool {
    &&& c.format_version == d.format_version
    &&& c.profile == d.profile
    &&& c.producer == d.producer
    &&& c.producer_version == d.producer_version
    &&& c.language == d.language
    &&& c.frontend == d.frontend
    &&& c.frontend_version == d.frontend_version
    &&& c.source_digest@ == d.source_digest@
    &&& c.source_length == d.source_length
    &&& c.strings@.len() == d.strings@.len()
    &&& forall|i: int| 0 <= i < c.strings@.len() ==> (#[trigger] c.strings@[i])@ == d.strings@[i]@
    &&& (c.nodes.parent@, c.nodes.child_ordinal@, c.nodes.kind@, c.nodes.start_byte@) == (
        d.nodes.parent@,
        d.nodes.child_ordinal@,
        d.nodes.kind@,
        d.nodes.start_byte@,
    )
    &&& (c.nodes.end_byte@, c.nodes.flags@) == (d.nodes.end_byte@, d.nodes.flags@)
    &&& (c.scopes.parent@, c.scopes.kind@, c.scopes.depth@) == (
        d.scopes.parent@,
        d.scopes.kind@,
        d.scopes.depth@,
    )
    &&& (c.scopes.start_byte@, c.scopes.end_byte@) == (d.scopes.start_byte@, d.scopes.end_byte@)
    &&& (c.symbols.ids@, c.symbols.declaration_node@, c.symbols.scope@, c.symbols.name@) == (
        d.symbols.ids@,
        d.symbols.declaration_node@,
        d.symbols.scope@,
        d.symbols.name@,
    )
    &&& (c.symbols.kind@, c.symbols.reference_first@, c.symbols.reference_count@) == (
        d.symbols.kind@,
        d.symbols.reference_first@,
        d.symbols.reference_count@,
    )
    &&& (c.references.ids@, c.references.node@, c.references.scope@) == (
        d.references.ids@,
        d.references.node@,
        d.references.scope@,
    )
    &&& (c.references.name@, c.references.role@) == (d.references.name@, d.references.role@)
    &&& (c.def_uses.ids@, c.def_uses.reference@) == (d.def_uses.ids@, d.def_uses.reference@)
    &&& (c.def_uses.symbol@, c.def_uses.resolution@) == (
        d.def_uses.symbol@,
        d.def_uses.resolution@,
    )
    &&& (c.calls.ids@, c.calls.node@, c.calls.callee_reference@) == (
        d.calls.ids@,
        d.calls.node@,
        d.calls.callee_reference@,
    )
    &&& (c.calls.target_symbol@, c.calls.property@, c.calls.kind@) == (
        d.calls.target_symbol@,
        d.calls.property@,
        d.calls.kind@,
    )
    &&& (c.losses.code@, c.losses.message@) == (d.losses.code@, d.losses.message@)
}

/// Encoding is deterministic: all columns of an analysis have the same rows.
pub proof fn law_analysis_columns_are_deterministic(
    c: AnalysisColumns,
    d: AnalysisColumns,
    a: Analysis,
)
    requires
        columns::are_columns(c, a),
        columns::are_columns(d, a),
    ensures
        are_same_columns(c, d),
{
    lemma_same_structure(c, d, a);
    lemma_same_uses(c, d, a);
    lemma_same_edges(c, d, a);
    assert forall|i: int| 0 <= i < c.strings@.len() implies (#[trigger] c.strings@[i])@
        == d.strings@[i]@ by {
        assert(c.strings@[i]@ == encode_utf8(a.strings@[i]@));
        assert(d.strings@[i]@ == encode_utf8(a.strings@[i]@));
    }
}

} // verus!
