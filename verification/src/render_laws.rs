//! What approved names do to a text.

use vstd::prelude::*;
use vstd::utf8::*;

use crate::analysis::{Analysis, AnalysisNode};
use crate::edits::EditModel;
use crate::naming::{DocumentModel, EntryModel, NameState};
use crate::render::RenderError;

use crate::render::{approved_edits, entry_edits, renamed, symbol_edits, symbol_row};
use crate::{edits, order, text};

verus! {

/// Whether a node holds an occurrence of a symbol: it is that of its
/// declaration or of one of its references.
pub open spec fn is_occurrence(a: Analysis, row: int, node: AnalysisNode) -> bool {
    let symbol = a.symbols@[row];
    ||| node == a.nodes@[symbol.declaration_node as int]
    ||| exists|k: int|
        symbol.reference_first <= k < symbol.reference_first + symbol.reference_count && node
            == a.nodes@[(#[trigger] a.references@[k]).node as int]
}

/// Whether an edit puts a name in the place of a node.
pub open spec fn replaces(edit: EditModel, node: AnalysisNode, name: Seq<char>) -> bool {
    edit.start == node.start_byte && edit.end == node.end_byte && edit.text == name
}

/// Whether a symbol of a document is approved under a name, and its row.
pub open spec fn is_approved_as(
    a: Analysis,
    e: EntryModel,
    row: int,
    name: Seq<char>,
) -> bool {
    &&& e.state == NameState::Approved
    &&& e.semantic_name == Some(name)
    &&& 0 <= row < a.symbols@.len()
    &&& text::hex_of(a.symbols@[row].id.0@) == e.symbol_id
    &&& forall|later: int|
        row < later < a.symbols@.len() ==> text::hex_of(
            (#[trigger] a.symbols@[later]).id.0@,
        ) != e.symbol_id
}

proof fn lemma_row(a: Analysis, id: Seq<char>, count: int)
    requires
        0 <= count <= a.symbols@.len(),
    ensures
        match symbol_row(a, id, count) {
            Some(row) => 0 <= row < count && text::hex_of(a.symbols@[row].id.0@) == id && forall|
                later: int,
            |
                row < later < count ==> text::hex_of((#[trigger] a.symbols@[later]).id.0@) != id,
            None => forall|row: int|
                0 <= row < count ==> text::hex_of((#[trigger] a.symbols@[row]).id.0@) != id,
        },
    decreases count,
{
    if count > 0 {
        lemma_row(a, id, count - 1);
    }
}

/// Whether an edit is that of the declaration of a symbol or of one of its
/// first `count` references.
spec fn is_of_symbol(
    a: Analysis,
    row: int,
    name: Seq<char>,
    count: int,
    edit: EditModel,
) -> bool {
    let symbol = a.symbols@[row];
    ||| replaces(edit, a.nodes@[symbol.declaration_node as int], name)
    ||| exists|k: int|
        symbol.reference_first <= k < symbol.reference_first + count && replaces(
            edit,
            a.nodes@[(#[trigger] a.references@[k]).node as int],
            name,
        )
}

proof fn lemma_of_symbol_stays(
    a: Analysis,
    row: int,
    name: Seq<char>,
    count: int,
    edit: EditModel,
)
    requires
        0 <= count,
        is_of_symbol(a, row, name, count, edit),
    ensures
        is_of_symbol(a, row, name, count + 1, edit),
{
    let symbol = a.symbols@[row];
    if !replaces(edit, a.nodes@[symbol.declaration_node as int], name) {
        let k = choose|k: int|
            symbol.reference_first <= k < symbol.reference_first + count && replaces(
                edit,
                a.nodes@[(#[trigger] a.references@[k]).node as int],
                name,
            );
        assert(replaces(edit, a.nodes@[a.references@[k].node as int], name));
    }
}

proof fn lemma_replaces_stays(
    list: Seq<EditModel>,
    last: EditModel,
    node: AnalysisNode,
    name: Seq<char>,
)
    requires
        is_replaced(list, node, name),
    ensures
        is_replaced(list.push(last), node, name),
{
    let k = choose|k: int| 0 <= k < list.len() && replaces(#[trigger] list[k], node, name);
    assert(list.push(last)[k] == list[k]);
}

proof fn lemma_symbol(
    a: Analysis,
    source: Seq<char>,
    row: int,
    name: Seq<char>,
    count: int,
)
    requires
        0 <= count,
    ensures
        symbol_edits(a, source, row, name, count) matches Ok(list) ==> {
            let symbol = a.symbols@[row];
            &&& is_replaced(list, a.nodes@[symbol.declaration_node as int], name)
            &&& forall|k: int|
                symbol.reference_first <= k < symbol.reference_first + count ==> is_replaced(
                    list,
                    a.nodes@[(#[trigger] a.references@[k]).node as int],
                    name,
                )
            &&& forall|j: int|
                0 <= j < list.len() ==> is_of_symbol(a, row, name, count, #[trigger] list[j])
        },
    decreases count,
{
    let symbol = a.symbols@[row];
    let node = a.nodes@[symbol.declaration_node as int];
    if count == 0 {
        if let Ok(list) = symbol_edits(a, source, row, name, count) {
            assert(replaces(list[0], node, name));
        }
    } else {
        lemma_symbol(a, source, row, name, count - 1);
        if let Ok(list) = symbol_edits(a, source, row, name, count) {
            let shorter = symbol_edits(a, source, row, name, count - 1)->Ok_0;
            let last = symbol.reference_first + count - 1;
            let reference = a.references@[last];
            let edit = list[list.len() - 1];
            assert(list == shorter.push(edit));
            assert(replaces(edit, a.nodes@[reference.node as int], name));
            lemma_replaces_stays(shorter, edit, node, name);
            assert forall|k: int|
                symbol.reference_first <= k < symbol.reference_first + count implies is_replaced(
                list,
                a.nodes@[(#[trigger] a.references@[k]).node as int],
                name,
            ) by {
                if k < last {
                    lemma_replaces_stays(
                        shorter,
                        edit,
                        a.nodes@[a.references@[k].node as int],
                        name,
                    );
                }
            }
            assert forall|j: int| 0 <= j < list.len() implies is_of_symbol(
                a,
                row,
                name,
                count,
                #[trigger] list[j],
            ) by {
                if j < shorter.len() {
                    assert(list[j] == shorter[j]);
                    lemma_of_symbol_stays(a, row, name, count - 1, shorter[j]);
                } else {
                    assert(a.references@[last] == reference);
                }
            }
        }
    }
}

/// Whether an edit is one of an approved symbol of a document.
pub open spec fn is_approved_edit(
    a: Analysis,
    e: EntryModel,
    edit: EditModel,
) -> bool {
    exists|row: int, name: Seq<char>, node: AnalysisNode|
        is_approved_as(a, e, row, name) && is_occurrence(a, row, node) && #[trigger] replaces(
            edit,
            node,
            name,
        ) && #[trigger] is_at(a, row)
}

/// Whether a symbol has a row.
pub open spec fn is_at(a: Analysis, row: int) -> bool {
    0 <= row < a.symbols@.len()
}

proof fn lemma_entry(a: Analysis, source: Seq<char>, e: EntryModel)
    ensures
        entry_edits(a, source, e) matches Ok(list) ==> {
            &&& forall|j: int|
                0 <= j < list.len() ==> is_approved_edit(a, e, #[trigger] list[j])
            &&& forall|row: int, name: Seq<char>, node: AnalysisNode| #[trigger]
                is_approved_as(a, e, row, name) && #[trigger] is_occurrence(a, row, node)
                    ==> is_replaced(list, node, name)
        },
{
    if let Ok(list) = entry_edits(a, source, e) {
        lemma_row(a, e.symbol_id, a.symbols@.len() as int);
        if e.state == NameState::Approved {
            let name = e.semantic_name->0;
            let row = symbol_row(a, e.symbol_id, a.symbols@.len() as int)->0;
            let symbol = a.symbols@[row];
            lemma_symbol(a, source, row, name, symbol.reference_count as int);
            assert(is_approved_as(a, e, row, name));
            assert(is_at(a, row));
            assert forall|j: int| 0 <= j < list.len() implies is_approved_edit(
                a,
                e,
                #[trigger] list[j],
            ) by {
                let node = a.nodes@[symbol.declaration_node as int];
                assert(is_of_symbol(a, row, name, symbol.reference_count as int, list[j]));
                if replaces(list[j], node, name) {
                    assert(is_occurrence(a, row, node));
                } else {
                    let k = choose|k: int|
                        symbol.reference_first <= k < symbol.reference_first
                            + symbol.reference_count && replaces(
                            list[j],
                            a.nodes@[(#[trigger] a.references@[k]).node as int],
                            name,
                        );
                    let other = a.nodes@[a.references@[k].node as int];
                    assert(is_occurrence(a, row, other));
                    assert(replaces(list[j], other, name));
                }
            }
            assert forall|r: int, n: Seq<char>, node: AnalysisNode| #[trigger]
                is_approved_as(a, e, r, n) && #[trigger] is_occurrence(a, r, node) implies
                is_replaced(list, node, n) by {
                if r < row {
                    assert(text::hex_of(a.symbols@[row].id.0@) == e.symbol_id);
                }
                if row < r {
                    assert(text::hex_of(a.symbols@[r].id.0@) == e.symbol_id);
                }
            }
        }
    }
}

/// Whether an edit is one of the first `count` symbols of a document.
pub open spec fn is_of_document(
    a: Analysis,
    symbols: Seq<EntryModel>,
    count: int,
    edit: EditModel,
) -> bool {
    exists|i: int| 0 <= i < count && #[trigger] is_approved_edit(a, symbols[i], edit)
}

/// Whether edits replace every occurrence of the first `count` symbols of a
/// document that are approved.
pub open spec fn covers_document(
    a: Analysis,
    symbols: Seq<EntryModel>,
    count: int,
    list: Seq<EditModel>,
) -> bool {
    forall|i: int, row: int, name: Seq<char>, node: AnalysisNode|
        0 <= i < count && #[trigger] is_approved_as(a, symbols[i], row, name)
            && #[trigger] is_occurrence(a, row, node) ==> is_replaced(list, node, name)
}

/// Whether some edit puts a name in the place of a node.
pub open spec fn is_replaced(
    list: Seq<EditModel>,
    node: AnalysisNode,
    name: Seq<char>,
) -> bool {
    exists|k: int| 0 <= k < list.len() && replaces(#[trigger] list[k], node, name)
}

proof fn lemma_entries(a: Analysis, source: Seq<char>, symbols: Seq<EntryModel>, count: int)
    requires
        0 <= count <= symbols.len(),
    ensures
        approved_edits(a, source, symbols, count) matches Ok(list) ==> {
            &&& forall|j: int|
                0 <= j < list.len() ==> is_of_document(a, symbols, count, #[trigger] list[j])
            &&& covers_document(a, symbols, count, list)
        },
    decreases count,
{
    if count > 0 {
        lemma_entries(a, source, symbols, count - 1);
        lemma_entry(a, source, symbols[count - 1]);
        if let Ok(list) = approved_edits(a, source, symbols, count) {
            let before = approved_edits(a, source, symbols, count - 1)->Ok_0;
            let more = entry_edits(a, source, symbols[count - 1])->Ok_0;
            assert(list == before + more);
            assert forall|j: int| 0 <= j < list.len() implies is_of_document(
                a,
                symbols,
                count,
                #[trigger] list[j],
            ) by {
                if j < before.len() {
                    assert(list[j] == before[j]);
                    assert(is_of_document(a, symbols, count - 1, before[j]));
                    let i = choose|i: int|
                        0 <= i < count - 1 && #[trigger] is_approved_edit(
                            a,
                            symbols[i],
                            before[j],
                        );
                    assert(is_approved_edit(a, symbols[i], list[j]));
                } else {
                    assert(list[j] == more[j - before.len()]);
                    assert(is_approved_edit(a, symbols[count - 1], list[j]));
                }
            }
            assert forall|i: int, row: int, name: Seq<char>, node: AnalysisNode|
                0 <= i < count && #[trigger] is_approved_as(a, symbols[i], row, name)
                    && #[trigger] is_occurrence(a, row, node) implies is_replaced(
                list,
                node,
                name,
            ) by {
                if i < count - 1 {
                    assert(is_replaced(before, node, name));
                    let k = choose|k: int|
                        0 <= k < before.len() && replaces(#[trigger] before[k], node, name);
                    assert(list[k] == before[k]);
                } else {
                    assert(is_replaced(more, node, name));
                    let k = choose|k: int|
                        0 <= k < more.len() && replaces(#[trigger] more[k], node, name);
                    assert(list[k + before.len()] == more[k]);
                }
            }
        }
    }
}

/// Whether edits rename the approved symbols of a document: every occurrence
/// of such a symbol, and nothing else.
pub open spec fn rename_approved(
    list: Seq<EditModel>,
    d: DocumentModel,
    a: Analysis,
) -> bool {
    &&& forall|j: int|
        0 <= j < list.len() ==> is_of_document(
            a,
            d.symbols,
            d.symbols.len() as int,
            #[trigger] list[j],
        )
    &&& covers_document(a, d.symbols, d.symbols.len() as int, list)
}

/// A renamed text has every approved name in place of the declaration and of
/// every reference of its symbol, and is as it was everywhere else.
pub proof fn law_approved_names_replace_every_occurrence(
    d: DocumentModel,
    a: Analysis,
    source: Seq<char>,
)
    ensures
        renamed(d, a, source) matches Ok(output) ==> exists|list: Seq<EditModel>, places: Seq<int>|
            rename_approved(list, d, a) && #[trigger] edits::is_laid_out(
                source,
                list,
                output,
                places,
            ),
        renamed(d, a, source) is Ok ==> encode_utf8(source).len() == a.source_length,
{
    let n = d.symbols.len() as int;
    lemma_entries(a, source, d.symbols, n);
    if let Ok(output) = renamed(d, a, source) {
        let list = approved_edits(a, source, d.symbols, n)->Ok_0;
        let sorted = edits::by_range(list);
        let keys = edits::edit_keys(list);
        order::lemma_rank_is_bijective(keys);
        assert(keys.len() == list.len());
        assert forall|j: int| 0 <= j < sorted.len() implies is_of_document(
            a,
            d.symbols,
            n,
            #[trigger] sorted[j],
        ) by {
            let r = order::row_at(keys, j);
            assert(sorted[j] == list[r]);
        }
        assert forall|i: int, row: int, name: Seq<char>, node: AnalysisNode|
            0 <= i < n && #[trigger] is_approved_as(a, d.symbols[i], row, name)
                && #[trigger] is_occurrence(a, row, node) implies is_replaced(
            sorted,
            node,
            name,
        ) by {
            assert(is_replaced(list, node, name));
            let k = choose|k: int| 0 <= k < list.len() && replaces(#[trigger] list[k], node, name);
            let j = order::rank(keys, k);
            assert(0 <= j < keys.len());
            assert(sorted[j] == list[k]);
        }
        assert(rename_approved(sorted, d, a));
        edits::law_edits_stand_in_place(source, sorted);
        let places = choose|places: Seq<int>|
            edits::is_laid_out(source, sorted, edits::spliced(source, sorted), places);
        assert(edits::is_laid_out(source, sorted, output, places));
    }
}

/// A name is refused where a symbol is approved without one or is not of the
/// analysis, and where the text of an occurrence is not the generated name.
pub proof fn law_unusable_approvals_are_refused(
    d: DocumentModel,
    a: Analysis,
    source: Seq<char>,
    i: int,
)
    requires
        0 <= i < d.symbols.len(),
        d.symbols[i].state == NameState::Approved,
        d.symbols[i].semantic_name is None || forall|row: int|
            0 <= row < a.symbols@.len() ==> text::hex_of((#[trigger] a.symbols@[row]).id.0@)
                != d.symbols[i].symbol_id,
    ensures
        renamed(d, a, source) is Err,
{
    lemma_row(a, d.symbols[i].symbol_id, a.symbols@.len() as int);
    assert(entry_edits(a, source, d.symbols[i]) is Err);
    lemma_refused(a, source, d.symbols, i, d.symbols.len() as int);
}

proof fn lemma_refused(
    a: Analysis,
    source: Seq<char>,
    symbols: Seq<EntryModel>,
    i: int,
    count: int,
)
    requires
        0 <= i < count <= symbols.len(),
        entry_edits(a, source, symbols[i]) is Err,
    ensures
        approved_edits(a, source, symbols, count) is Err,
    decreases count,
{
    if i < count - 1 {
        lemma_refused(a, source, symbols, i, count - 1);
    }
}

} // verus!
