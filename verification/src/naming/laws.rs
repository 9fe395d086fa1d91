//! What holds of every semantic-name document.

use vstd::prelude::*;
use vstd::utf8::*;

use super::{DocumentModel, EntryModel, EventModel, ProvenanceModel};
use super::{NameState, NamingError};
use crate::analysis::Analysis;
use crate::lineage::MatchDecision;
use crate::lineage::{MatchModel, ReportModel};

use super::{document, edit, propagate, rules};
use crate::analysis::{json, json_laws};
use crate::{digest, order, text};

verus! {

proof fn lemma_by_id(symbols: Seq<EntryModel>)
    ensures
        edit::by_id(symbols).len() == symbols.len(),
        forall|e: EntryModel| #[trigger] edit::by_id(symbols).contains(e) == symbols.contains(e),
{
    let keys = order::text_keys(edit::entry_ids(symbols));
    assert(keys.len() == symbols.len());
    order::lemma_arranged(symbols, keys);
}

proof fn lemma_entry_from(symbols: Seq<EntryModel>, id: Seq<char>, i: int)
    requires
        0 <= i,
    ensures
        match edit::entry_from(symbols, id, i) {
            Some(k) => i <= k < symbols.len() && symbols[k].symbol_id == id,
            None => forall|k: int|
                i <= k < symbols.len() ==> (#[trigger] symbols[k]).symbol_id != id,
        },
    decreases symbols.len() - i,
{
    if i < symbols.len() {
        lemma_entry_from(symbols, id, i + 1);
    }
}

/// A change that is not refused leaves a valid document valid.
pub proof fn law_changes_keep_documents_valid(
    d: DocumentModel,
    id: Seq<char>,
    state: NameState,
    name: Option<Seq<char>>,
    p: ProvenanceModel,
)
    requires
        rules::document_fault(d) is None,
        edit::applied(d, id, state, name, p).1 is None,
    ensures
        rules::document_fault(edit::applied(d, id, state, name, p).0) is None,
{
}

/// In a valid document, the revision counts the events, and every symbol is
/// in the state, with the name and the provenance, that its last event gave
/// it.
pub proof fn law_history_explains_every_name(d: DocumentModel, i: int)
    requires
        rules::document_fault(d) is None,
        0 <= i < d.symbols.len(),
    ensures
        d.revision == d.events.len(),
        match rules::last_event(d.events, d.symbols[i].symbol_id, d.events.len() as int) {
            Some(j) => d.symbols[i].state == d.events[j].new_state && d.symbols[i].semantic_name
                == d.events[j].new_name && d.symbols[i].provenance == Some(d.events[j].provenance),
            None => d.symbols[i].state == NameState::Unknown && d.symbols[i].semantic_name is None
                && d.symbols[i].provenance is None,
        },
{
    assert(rules::is_materialized(d, i));
}

/// A change that is not refused, and was not made before, takes effect: the
/// symbol has the state and the name that were asked for.
pub proof fn law_accepted_changes_take_effect(
    d: DocumentModel,
    id: Seq<char>,
    state: NameState,
    name: Option<Seq<char>>,
    p: ProvenanceModel,
)
    requires
        edit::applied(d, id, state, name, p).1 is None,
        !edit::is_known(d, edit::operation_of(id, state, name, p)),
    ensures
        ({
            let next = edit::applied(d, id, state, name, p).0;
            edit::entry_at(next.symbols, id) matches Some(i) && next.symbols[i].state == state
                && next.symbols[i].semantic_name == name
        }),
{
    lemma_entry_from(d.symbols, id, 0);
    if !edit::is_settled(d, id, state, name) {
        let i = edit::entry_at(d.symbols, id)->0;
        let next = edit::changed(d, i, state, name, p);
        let e = d.symbols[i];
        let updated = d.symbols.update(
            i,
            EntryModel { state, semantic_name: name, provenance: Some(p), ..e },
        );
        lemma_by_id(updated);
        assert(updated.contains(updated[i]));
        assert(next.symbols.contains(updated[i]));
        lemma_entry_from(next.symbols, id, 0);
        let k = choose|k: int| 0 <= k < next.symbols.len() && next.symbols[k] == updated[i];
        assert(next.symbols[k].symbol_id == id);
        let j = edit::entry_at(next.symbols, id)->0;
        assert(rules::is_materialized(next, j));
        assert(rules::last_event(next.events, id, next.events.len() as int) == Some(
            next.events.len() - 1,
        ));
    }
}

/// A name is approved only where it was suggested before.
pub proof fn law_approval_needs_a_suggestion(d: DocumentModel, id: Seq<char>, p: ProvenanceModel)
    requires
        edit::transitioned(d, id, NameState::Approved, p).1 is None,
    ensures
        edit::entry_at(d.symbols, id) matches Some(i) && d.symbols[i].state
            == NameState::Suggested,
{
}

/// A suggested name that is then approved is the approved name, where neither
/// change is refused and neither was made before.
pub proof fn law_a_suggestion_can_be_approved(
    d: DocumentModel,
    id: Seq<char>,
    name: Seq<char>,
    p: ProvenanceModel,
    q: ProvenanceModel,
)
    requires
        edit::suggested(d, id, name, p).1 is None,
        !edit::is_known(d, edit::operation_of(id, NameState::Suggested, Some(name), p)),
        edit::transitioned(edit::suggested(d, id, name, p).0, id, NameState::Approved, q).1 is None,
        !edit::is_known(
            edit::suggested(d, id, name, p).0,
            edit::operation_of(id, NameState::Approved, Some(name), q),
        ),
    ensures
        ({
            let next = edit::transitioned(
                edit::suggested(d, id, name, p).0,
                id,
                NameState::Approved,
                q,
            ).0;
            edit::entry_at(next.symbols, id) matches Some(i) && next.symbols[i].state
                == NameState::Approved && next.symbols[i].semantic_name == Some(name)
        }),
{
    law_accepted_changes_take_effect(d, id, NameState::Suggested, Some(name), p);
    let middle = edit::suggested(d, id, name, p).0;
    law_accepted_changes_take_effect(middle, id, NameState::Approved, Some(name), q);
}

/// A redacted document holds no name of the source.
pub proof fn law_redacted_documents_hold_no_source_names(a: Analysis, i: int)
    requires
        0 <= i < document::document_of(a, false).symbols.len(),
    ensures
        document::document_of(a, false).redacted,
        document::document_of(a, false).symbols[i].generated_name is None,
        document::document_of(a, false).symbols[i].semantic_name is None,
{
    order::lemma_rank_is_bijective(order::text_keys(document::symbol_texts(a)));
    let row = order::row_at(order::text_keys(document::symbol_texts(a)), i);
    assert(0 <= row < a.symbols@.len());
}

proof fn lemma_sorted(d: DocumentModel, i: int, j: int)
    requires
        0 <= i < j < d.symbols.len(),
        forall|k: int|
            0 < k < d.symbols.len() ==> rules::is_before(
                (#[trigger] d.symbols[k - 1]).symbol_id,
                d.symbols[k].symbol_id,
            ),
    ensures
        rules::is_before(d.symbols[i].symbol_id, d.symbols[j].symbol_id),
    decreases j - i,
{
    assert(rules::is_before(d.symbols[j - 1].symbol_id, d.symbols[j].symbol_id));
    if i < j - 1 {
        lemma_sorted(d, i, j - 1);
        let x = vstd::utf8::encode_utf8(d.symbols[i].symbol_id);
        let y = vstd::utf8::encode_utf8(d.symbols[j - 1].symbol_id);
        let z = vstd::utf8::encode_utf8(d.symbols[j].symbol_id);
        order::lemma_bytes_le_total(y, z);
        if order::bytes_le(z, x) {
            order::lemma_bytes_le_transitive(y, z, x);
        }
    }
}

proof fn lemma_no_entry_fault(d: DocumentModel, i: int)
    requires
        0 <= i <= d.symbols.len(),
        rules::entries_fault(d, i) is None,
    ensures
        forall|k: int| i <= k < d.symbols.len() ==> (#[trigger] rules::entry_fault(d, k)) is None,
    decreases d.symbols.len() - i,
{
    if i < d.symbols.len() {
        lemma_no_entry_fault(d, i + 1);
    }
}

/// No two symbols of a valid document have the same identity.
pub proof fn law_symbols_are_distinct(d: DocumentModel, i: int, j: int)
    requires
        rules::document_fault(d) is None,
        0 <= i < d.symbols.len(),
        0 <= j < d.symbols.len(),
        d.symbols[i].symbol_id == d.symbols[j].symbol_id,
    ensures
        i == j,
{
    lemma_no_entry_fault(d, 0);
    assert forall|k: int| 0 < k < d.symbols.len() implies rules::is_before(
        (#[trigger] d.symbols[k - 1]).symbol_id,
        d.symbols[k].symbol_id,
    ) by {
        assert(rules::entry_fault(d, k) is None);
    }
    let x = vstd::utf8::encode_utf8(d.symbols[i].symbol_id);
    order::lemma_bytes_le_total(x, x);
    if i < j {
        lemma_sorted(d, i, j);
    } else if j < i {
        lemma_sorted(d, j, i);
    }
}

/// A fresh document validates against the analysis that it was made of.
pub proof fn law_fresh_documents_belong_to_their_analysis(a: Analysis, generated: bool)
    requires
        document::creation_fault(a, generated) is None,
    ensures
        document::binding_fault(document::document_of(a, generated), a) is None,
{
    let d = document::document_of(a, generated);
    let texts = document::symbol_texts(a);
    let keys = order::text_keys(texts);
    let n = a.symbols@.len() as int;
    order::lemma_rank_is_bijective(keys);
    assert(keys.len() == n);
    assert(d.symbols.len() == n);
    assert forall|k: int| 0 <= k < n implies (#[trigger] d.symbols[k]).symbol_id == texts[order::row_at(
        keys,
        k,
    )] && document::undecided(d.symbols[k]) == d.symbols[k] by {
        assert(0 <= order::row_at(keys, k) < n);
    }
    assert(texts.no_duplicates()) by {
        assert forall|x: int, y: int| 0 <= x < n && 0 <= y < n && x != y implies texts[x]
            != texts[y] by {
            if texts[x] == texts[y] {
                let (i, j) = (order::rank(keys, x), order::rank(keys, y));
                assert(order::row_at(keys, i) == x && order::row_at(keys, j) == y);
                assert(d.symbols[i].symbol_id == d.symbols[j].symbol_id);
                law_symbols_are_distinct(d, i, j);
            }
        }
    }
    texts.unique_seq_to_set();
    assert(document::has_the_symbols(d, a)) by {
        assert forall|k: int| 0 <= k < n implies texts.contains(
            (#[trigger] d.symbols[k]).symbol_id,
        ) by {
            assert(0 <= order::row_at(keys, k) < n);
        }
    }
    assert(document::context_is_kept(d, a));
}

/// A document that belongs to an analysis states the digest of that analysis
/// and of its source. Changes keep it bound: what a document says of its
/// analysis never changes.
pub proof fn law_documents_are_bound_to_their_analysis(
    d: DocumentModel,
    a: Analysis,
    id: Seq<char>,
    state: NameState,
    name: Option<Seq<char>>,
    p: ProvenanceModel,
)
    requires
        document::binding_fault(d, a) is None,
    ensures
        d.analysis.analysis_digest == json::analysis_digest_of(a),
        d.analysis.source_digest == text::hex_of(a.source_digest@),
        edit::applied(d, id, state, name, p).0.analysis == d.analysis,
{
}

/// A document made of one analysis belongs to no other: an analysis that it
/// belongs to holds the same, unless two different JSON forms have the same
/// SHA-256 digest.
pub proof fn law_documents_are_bound_to_one_analysis(a: Analysis, b: Analysis, generated: bool)
    requires
        document::binding_fault(document::document_of(a, generated), b) is None,
    ensures
        digest::sha256_of(encode_utf8(json::analysis_text_of(a))) == digest::sha256_of(
            encode_utf8(json::analysis_text_of(b)),
        ),
        json::analysis_text_of(a) == json::analysis_text_of(b) <==> json_laws::holds_the_same(a, b),
        a.source_digest@ == b.source_digest@,
        a.source_length == b.source_length,
{
    text::lemma_hex_is_injective(
        digest::sha256_of(encode_utf8(json::analysis_text_of(a))),
        digest::sha256_of(encode_utf8(json::analysis_text_of(b))),
    );
    text::lemma_hex_is_injective(a.source_digest@, b.source_digest@);
    json_laws::law_json_tells_analyses_apart(a, b);
}

/// Whether an accepted match carries an approved name of the source to a
/// symbol.
pub open spec fn is_explained(source: DocumentModel, r: ReportModel, e: EntryModel) -> bool {
    exists|i: int, k: int|
        #![trigger r.matches[i], source.symbols[k]]
        0 <= i < r.matches.len() && 0 <= k < source.symbols.len() && r.matches[i].decision
            == MatchDecision::Accepted && r.matches[i].target_symbol_id == Some(e.symbol_id)
            && source.symbols[k].symbol_id == r.matches[i].source_symbol_id
            && source.symbols[k].state == NameState::Approved && source.symbols[k].semantic_name
            == e.semantic_name
}

/// Whether every name of a document was carried.
spec fn all_explained(source: DocumentModel, r: ReportModel, d: DocumentModel) -> bool {
    forall|e: EntryModel| #[trigger]
        d.symbols.contains(e) ==> e.semantic_name is None || (e.state == NameState::Approved
            && is_explained(source, r, e))
}

proof fn lemma_step_is_explained(source: DocumentModel, r: ReportModel, d: DocumentModel, i: int)
    requires
        0 <= i < r.matches.len(),
        all_explained(source, r, d),
    ensures
        all_explained(source, r, propagate::carried(source, r, d, i).0),
{
    let m = r.matches[i];
    let next = propagate::carried(source, r, d, i).0;
    if propagate::carries(source, m) && next != d {
        let id = m.target_symbol_id->0;
        lemma_entry_from(d.symbols, id, 0);
        lemma_approved_bounds(
            source.symbols,
            m.source_symbol_id,
            source.symbols.len() as int,
        );
        let k = propagate::approved(source, m.source_symbol_id)->0;
        let row = edit::entry_at(d.symbols, id)->0;
        let name = source.symbols[k].semantic_name;
        let e = d.symbols[row];
        let fresh = EntryModel {
            state: NameState::Approved,
            semantic_name: name,
            provenance: Some(propagate::lineage_provenance(r)),
            ..e
        };
        let updated = d.symbols.update(row, fresh);
        lemma_by_id(updated);
        assert(next.symbols == edit::by_id(updated));
        assert(is_explained(source, r, fresh)) by {
            assert(r.matches[i] == m && source.symbols[k].semantic_name == name);
        }
        assert forall|x: EntryModel| #[trigger] next.symbols.contains(x) implies x.semantic_name
            is None || (x.state == NameState::Approved && is_explained(source, r, x)) by {
            assert(updated.contains(x));
            let at = choose|at: int| 0 <= at < updated.len() && updated[at] == x;
            if at != row {
                assert(d.symbols[at] == x);
                assert(d.symbols.contains(x));
            }
        }
    }
}

proof fn lemma_approved_bounds(symbols: Seq<EntryModel>, id: Seq<char>, count: int)
    ensures
        propagate::approved_row(symbols, id, count) matches Some(k) ==> 0 <= k < count
            && symbols[k].state == NameState::Approved && symbols[k].symbol_id == id,
    decreases count,
{
    if count > 0 {
        lemma_approved_bounds(symbols, id, count - 1);
    }
}

proof fn lemma_carried_is_explained(
    source: DocumentModel,
    r: ReportModel,
    d: DocumentModel,
    i: int,
)
    requires
        0 <= i <= r.matches.len(),
        all_explained(source, r, d),
    ensures
        propagate::carried_from(source, r, d, i) matches Ok(out) ==> all_explained(source, r, out)
            && rules::document_fault(out) is None,
    decreases r.matches.len() - i,
{
    if i < r.matches.len() {
        lemma_step_is_explained(source, r, d, i);
        lemma_carried_is_explained(source, r, propagate::carried(source, r, d, i).0, i + 1);
    }
}

/// Only approved names propagate: every name of the outcome is approved, and
/// an accepted match carried it from a symbol with that approved name.
pub proof fn law_only_approved_names_propagate(
    source: DocumentModel,
    r: ReportModel,
    target: Analysis,
    i: int,
)
    requires
        propagate::propagated(source, r, target) is Ok,
        0 <= i < propagate::propagated(source, r, target)->Ok_0.symbols.len(),
    ensures
        ({
            let out = propagate::propagated(source, r, target)->Ok_0;
            &&& rules::document_fault(out) is None
            &&& out.symbols[i].semantic_name is Some ==> out.symbols[i].state
                == NameState::Approved && is_explained(source, r, out.symbols[i])
        }),
{
    let d = document::document_of(target, false);
    assert(all_explained(source, r, d)) by {
        assert forall|e: EntryModel| #[trigger] d.symbols.contains(e) implies e.semantic_name
            is None by {
            let k = choose|k: int| 0 <= k < d.symbols.len() && d.symbols[k] == e;
            law_redacted_documents_hold_no_source_names(target, k);
        }
    }
    lemma_carried_is_explained(source, r, d, 0);
    let out = propagate::propagated(source, r, target)->Ok_0;
    assert(out.symbols.contains(out.symbols[i]));
}

/// The name that a match carries.
pub open spec fn carried_name(source: DocumentModel, m: MatchModel) -> Option<Seq<char>> {
    source.symbols[propagate::approved(source, m.source_symbol_id)->0].semantic_name
}

/// The identity of the change that a match makes.
pub open spec fn carried_operation(source: DocumentModel, r: ReportModel, i: int) -> Seq<char> {
    edit::operation_of(
        r.matches[i].target_symbol_id->0,
        NameState::Approved,
        carried_name(source, r.matches[i]),
        propagate::lineage_provenance(r),
    )
}

/// Whether a match carries a name to a symbol, and no other match carries one
/// there or makes a change with the same identity.
pub open spec fn carries_alone(source: DocumentModel, r: ReportModel, i: int) -> bool {
    &&& propagate::carries(source, r.matches[i])
    &&& forall|j: int|
        #![trigger r.matches[j]]
        0 <= j < r.matches.len() && j != i && propagate::carries(source, r.matches[j])
            ==> r.matches[j].target_symbol_id != r.matches[i].target_symbol_id
            && carried_operation(source, r, j) != carried_operation(source, r, i)
}

/// Whether a symbol of a document has an approved name.
pub open spec fn has_approved(d: DocumentModel, id: Seq<char>, name: Option<Seq<char>>) -> bool {
    exists|k: int|
        0 <= k < d.symbols.len() && (#[trigger] d.symbols[k]).symbol_id == id
            && d.symbols[k].state == NameState::Approved && d.symbols[k].semantic_name == name
}

/// Whether every change of a document was made by one of the first `count`
/// matches.
spec fn made_by(source: DocumentModel, r: ReportModel, d: DocumentModel, count: int) -> bool {
    forall|e: int|
        0 <= e < d.events.len() ==> exists|j: int|
            #![trigger r.matches[j]]
            0 <= j < count && propagate::carries(source, r.matches[j])
                && (#[trigger] d.events[e]).operation_id == carried_operation(source, r, j)
}

proof fn lemma_made_by_step(source: DocumentModel, r: ReportModel, d: DocumentModel, i: int)
    requires
        0 <= i < r.matches.len(),
        made_by(source, r, d, i),
    ensures
        made_by(source, r, propagate::carried(source, r, d, i).0, i + 1),
{
    let next = propagate::carried(source, r, d, i).0;
    let m = r.matches[i];
    if propagate::carries(source, m) {
        lemma_entry_from(d.symbols, m.target_symbol_id->0, 0);
    }
    assert forall|e: int| 0 <= e < next.events.len() implies exists|j: int|
        #![trigger r.matches[j]]
        0 <= j < i + 1 && propagate::carries(source, r.matches[j]) && (
        #[trigger] next.events[e]).operation_id == carried_operation(source, r, j) by {
        if e < d.events.len() {
            assert(next.events[e] == d.events[e]);
            let j = choose|j: int|
                #![trigger r.matches[j]]
                0 <= j < i && propagate::carries(source, r.matches[j]) && d.events[e].operation_id
                    == carried_operation(source, r, j);
            assert(propagate::carries(source, r.matches[j]));
        } else {
            assert(propagate::carries(source, r.matches[i]));
        }
    }
}

proof fn lemma_keeps_approved(
    source: DocumentModel,
    r: ReportModel,
    d: DocumentModel,
    i: int,
    id: Seq<char>,
    name: Option<Seq<char>>,
)
    requires
        0 <= i < r.matches.len(),
        has_approved(d, id, name),
        propagate::carries(source, r.matches[i]) ==> r.matches[i].target_symbol_id != Some(id),
    ensures
        has_approved(propagate::carried(source, r, d, i).0, id, name),
{
    let m = r.matches[i];
    let next = propagate::carried(source, r, d, i).0;
    if propagate::carries(source, m) && next != d {
        let target = m.target_symbol_id->0;
        lemma_entry_from(d.symbols, target, 0);
        let row = edit::entry_at(d.symbols, target)->0;
        let e = d.symbols[row];
        let updated = d.symbols.update(
            row,
            EntryModel {
                state: NameState::Approved,
                semantic_name: carried_name(source, m),
                provenance: Some(propagate::lineage_provenance(r)),
                ..e
            },
        );
        lemma_by_id(updated);
        assert(next.symbols == edit::by_id(updated));
        let k = choose|k: int|
            0 <= k < d.symbols.len() && (#[trigger] d.symbols[k]).symbol_id == id
                && d.symbols[k].state == NameState::Approved && d.symbols[k].semantic_name
                == name;
        assert(updated[k] == d.symbols[k]);
        assert(updated.contains(updated[k]));
        assert(next.symbols.contains(updated[k]));
        let at = choose|at: int| 0 <= at < next.symbols.len() && next.symbols[at] == updated[k];
        assert(next.symbols[at].symbol_id == id);
    }
}

proof fn lemma_kept_to_the_end(
    source: DocumentModel,
    r: ReportModel,
    d: DocumentModel,
    from: int,
    id: Seq<char>,
    name: Option<Seq<char>>,
)
    requires
        0 <= from <= r.matches.len(),
        has_approved(d, id, name),
        forall|j: int|
            #![trigger r.matches[j]]
            from <= j < r.matches.len() && propagate::carries(source, r.matches[j])
                ==> r.matches[j].target_symbol_id != Some(id),
    ensures
        propagate::carried_from(source, r, d, from) matches Ok(out) ==> has_approved(
            out,
            id,
            name,
        ),
    decreases r.matches.len() - from,
{
    if from < r.matches.len() {
        assert(propagate::carries(source, r.matches[from]) ==> r.matches[from].target_symbol_id
            != Some(id));
        lemma_keeps_approved(source, r, d, from, id, name);
        lemma_kept_to_the_end(
            source,
            r,
            propagate::carried(source, r, d, from).0,
            from + 1,
            id,
            name,
        );
    }
}

proof fn lemma_carried_name_arrives(
    source: DocumentModel,
    r: ReportModel,
    d: DocumentModel,
    from: int,
    i: int,
)
    requires
        0 <= from <= i < r.matches.len(),
        made_by(source, r, d, from),
        carries_alone(source, r, i),
    ensures
        propagate::carried_from(source, r, d, from) matches Ok(out) ==> has_approved(
            out,
            r.matches[i].target_symbol_id->0,
            carried_name(source, r.matches[i]),
        ),
    decreases r.matches.len() - from,
{
    let next = propagate::carried(source, r, d, from).0;
    if propagate::carried_from(source, r, d, from) is Ok {
        if from < i {
            lemma_made_by_step(source, r, d, from);
            lemma_carried_name_arrives(source, r, next, from + 1, i);
        } else {
            let m = r.matches[i];
            let id = m.target_symbol_id->0;
            let name = carried_name(source, m);
            let operation = carried_operation(source, r, i);
            assert(!edit::is_known(d, operation)) by {
                assert forall|e: int| 0 <= e < d.events.len() implies (
                #[trigger] d.events[e]).operation_id != operation by {
                    let j = choose|j: int|
                        #![trigger r.matches[j]]
                        0 <= j < from && propagate::carries(source, r.matches[j])
                            && d.events[e].operation_id == carried_operation(source, r, j);
                    assert(propagate::carries(source, r.matches[j]));
                }
            }
            law_accepted_changes_take_effect(
                d,
                id,
                NameState::Approved,
                name,
                propagate::lineage_provenance(r),
            );
            lemma_entry_from(next.symbols, id, 0);
            let at = edit::entry_at(next.symbols, id)->0;
            assert(next.symbols[at].symbol_id == id);
            lemma_kept_to_the_end(source, r, next, i + 1, id, name);
        }
    }
}

/// Approved names propagate: where names are carried over without a refusal,
/// the symbol that an accepted match carries a name to has that name, and it
/// is approved. No other match may carry a name there or make a change with
/// the same identity.
pub proof fn law_approved_names_propagate(
    source: DocumentModel,
    r: ReportModel,
    target: Analysis,
    i: int,
)
    requires
        0 <= i < r.matches.len(),
        carries_alone(source, r, i),
    ensures
        propagate::propagated(source, r, target) matches Ok(out) ==> has_approved(
            out,
            r.matches[i].target_symbol_id->0,
            carried_name(source, r.matches[i]),
        ),
{
    let d = document::document_of(target, false);
    assert(made_by(source, r, d, 0));
    lemma_carried_name_arrives(source, r, d, 0, i);
}

/// Whether an event records a change.
pub open spec fn records_change(
    e: EventModel,
    id: Seq<char>,
    state: NameState,
    name: Option<Seq<char>>,
    p: ProvenanceModel,
) -> bool {
    e.symbol_id == id && e.new_state == state && e.new_name == name && e.provenance == p
}

/// Whether a document records a change.
pub open spec fn has_recorded(
    d: DocumentModel,
    id: Seq<char>,
    state: NameState,
    name: Option<Seq<char>>,
    p: ProvenanceModel,
) -> bool {
    exists|k: int|
        0 <= k < d.events.len() && records_change(#[trigger] d.events[k], id, state, name, p)
}

/// Whether a document is valid, and every event carries the identity of the
/// change that it records.
pub open spec fn is_recorded(d: DocumentModel) -> bool {
    &&& rules::document_fault(d) is None
    &&& forall|k: int|
        0 <= k < d.events.len() ==> (#[trigger] d.events[k]).operation_id == edit::operation_of(
            d.events[k].symbol_id,
            d.events[k].new_state,
            d.events[k].new_name,
            d.events[k].provenance,
        )
}

/// A fresh document is recorded.
pub proof fn law_fresh_documents_are_recorded(a: Analysis, generated: bool)
    requires
        document::creation_fault(a, generated) is None,
    ensures
        is_recorded(document::document_of(a, generated)),
{
}

proof fn lemma_change_is_recorded(
    d: DocumentModel,
    id: Seq<char>,
    state: NameState,
    name: Option<Seq<char>>,
    p: ProvenanceModel,
)
    requires
        is_recorded(d),
        edit::applied(d, id, state, name, p).1 is None,
    ensures
        is_recorded(edit::applied(d, id, state, name, p).0),
{
    lemma_entry_from(d.symbols, id, 0);
    let next = edit::applied(d, id, state, name, p).0;
    assert forall|k: int| 0 <= k < next.events.len() implies (
    #[trigger] next.events[k]).operation_id == edit::operation_of(
        next.events[k].symbol_id,
        next.events[k].new_state,
        next.events[k].new_name,
        next.events[k].provenance,
    ) by {
        if k < d.events.len() {
            assert(next.events[k] == d.events[k]);
        }
    }
}

/// Suggestions and transitions that are not refused leave a recorded document
/// recorded.
pub proof fn law_changes_keep_documents_recorded(
    d: DocumentModel,
    id: Seq<char>,
    name: Seq<char>,
    state: NameState,
    p: ProvenanceModel,
)
    requires
        is_recorded(d),
    ensures
        edit::suggested(d, id, name, p).1 is None ==> is_recorded(
            edit::suggested(d, id, name, p).0,
        ),
        edit::transitioned(d, id, state, p).1 is None ==> is_recorded(
            edit::transitioned(d, id, state, p).0,
        ),
{
    if edit::suggested(d, id, name, p).1 is None {
        lemma_change_is_recorded(d, id, NameState::Suggested, Some(name), p);
    }
    if edit::transitioned(d, id, state, p).1 is None {
        let i = edit::entry_at(d.symbols, id)->0;
        lemma_change_is_recorded(
            d,
            id,
            state,
            edit::transition_name(d.symbols[i], state)->0,
            p,
        );
    }
}

proof fn lemma_carried_is_recorded(source: DocumentModel, r: ReportModel, d: DocumentModel, i: int)
    requires
        0 <= i <= r.matches.len(),
        is_recorded(d),
    ensures
        propagate::carried_from(source, r, d, i) matches Ok(out) ==> is_recorded(out),
    decreases r.matches.len() - i,
{
    if i < r.matches.len() && propagate::carried_from(source, r, d, i) is Ok {
        let m = r.matches[i];
        if propagate::carries(source, m) {
            lemma_change_is_recorded(
                d,
                m.target_symbol_id->0,
                NameState::Approved,
                carried_name(source, m),
                propagate::lineage_provenance(r),
            );
        }
        lemma_carried_is_recorded(source, r, propagate::carried(source, r, d, i).0, i + 1);
    }
}

/// A document that names were carried to is recorded.
pub proof fn law_propagated_documents_are_recorded(
    source: DocumentModel,
    r: ReportModel,
    target: Analysis,
)
    ensures
        propagate::propagated(source, r, target) matches Ok(out) ==> is_recorded(out),
{
    if document::creation_fault(target, false) is None {
        law_fresh_documents_are_recorded(target, false);
        lemma_carried_is_recorded(source, r, document::document_of(target, false), 0);
    }
}

/// A repeated change leaves a recorded document as it was: where the symbol
/// already has the state and the name, or the same change was recorded at any
/// time before, neither the revision nor the events grow.
pub proof fn law_repeated_changes_change_nothing(
    d: DocumentModel,
    id: Seq<char>,
    state: NameState,
    name: Option<Seq<char>>,
    p: ProvenanceModel,
)
    requires
        is_recorded(d),
        edit::refusal(d, id, state, name, p) is None,
        edit::is_settled(d, id, state, name) || has_recorded(d, id, state, name, p),
    ensures
        edit::applied(d, id, state, name, p) == (d, None::<NamingError>),
{
    if has_recorded(d, id, state, name, p) {
        let k = choose|k: int|
            0 <= k < d.events.len() && records_change(#[trigger] d.events[k], id, state, name, p);
        assert(d.events[k].operation_id == edit::operation_of(id, state, name, p));
        assert(edit::is_known(d, edit::operation_of(id, state, name, p)));
    }
}

/// A change that was not refused can be asked for again, and then changes
/// nothing.
pub proof fn law_changes_are_made_once(
    d: DocumentModel,
    id: Seq<char>,
    state: NameState,
    name: Option<Seq<char>>,
    p: ProvenanceModel,
)
    requires
        is_recorded(d),
        edit::applied(d, id, state, name, p).1 is None,
    ensures
        ({
            let next = edit::applied(d, id, state, name, p).0;
            edit::applied(next, id, state, name, p) == (next, None::<NamingError>)
        }),
{
    let next = edit::applied(d, id, state, name, p).0;
    lemma_change_is_recorded(d, id, state, name, p);
    if next != d {
        lemma_entry_from(d.symbols, id, 0);
        let i = edit::entry_at(d.symbols, id)->0;
        let e = d.symbols[i];
        let updated = d.symbols.update(
            i,
            EntryModel { state, semantic_name: name, provenance: Some(p), ..e },
        );
        lemma_by_id(updated);
        assert(updated.contains(updated[i]));
        assert(next.symbols.contains(updated[i]));
        lemma_entry_from(next.symbols, id, 0);
        let k = choose|k: int| 0 <= k < next.symbols.len() && next.symbols[k] == updated[i];
        assert(next.symbols[k].symbol_id == id);
        assert(records_change(next.events[d.events.len() as int], id, state, name, p));
        law_repeated_changes_change_nothing(next, id, state, name, p);
    }
}

/// Whether a text spells 256 bits: 64 lowercase hexadecimal digits.
pub open spec fn is_digest(value: Seq<char>) -> bool {
    &&& value.len() == 64
    &&& forall|i: int|
        0 <= i < value.len() ==> '0' <= #[trigger] value[i] <= '9' || 'a' <= value[i] <= 'f'
}

/// Whether a text can be shown as a name: it has a start and an end that are
/// no white space, no control codes, and at most 128 bytes.
pub open spec fn is_presentable(name: Seq<char>) -> bool {
    &&& 0 < encode_utf8(name).len() <= 128
    &&& !crate::chars::is_space(name[0])
    &&& !crate::chars::is_space(name[name.len() - 1])
    &&& forall|i: int|
        0 <= i < name.len() ==> !crate::chars::is_control_code(#[trigger] name[i])
}

proof fn lemma_no_event_fault(d: DocumentModel, j: int)
    requires
        0 <= j <= d.events.len(),
        rules::events_fault(d, j) is None,
    ensures
        forall|k: int| j <= k < d.events.len() ==> (#[trigger] rules::event_fault(d, k)) is None,
    decreases d.events.len() - j,
{
    if j < d.events.len() {
        lemma_no_event_fault(d, j + 1);
    }
}

/// In a valid document every symbol has an identity of 256 bits and a
/// declaration inside of the source; it has a name exactly where one is
/// suggested or approved, and then a presentable one; and it has a provenance
/// unless nothing was ever decided. No two approved symbols of one scope share
/// a name, and a redacted document holds no generated names.
pub proof fn law_valid_documents_hold_sound_names(d: DocumentModel, i: int, k: int)
    requires
        rules::document_fault(d) is None,
        0 <= i < d.symbols.len(),
        0 <= k < d.symbols.len(),
    ensures
        ({
            let e = d.symbols[i];
            let f = d.symbols[k];
            &&& is_digest(e.symbol_id)
            &&& is_digest(e.scope.id)
            &&& is_digest(e.declaration.node_id)
            &&& e.declaration.start_byte <= e.declaration.end_byte <= d.analysis.source_length
            &&& e.semantic_name is Some <==> e.state == NameState::Suggested || e.state
                == NameState::Approved
            &&& e.semantic_name matches Some(name) ==> is_presentable(name)
            &&& e.generated_name matches Some(name) ==> is_presentable(name) && !d.redacted
            &&& e.provenance is None ==> e.state == NameState::Unknown
            &&& i != k && e.state == NameState::Approved && f.state == NameState::Approved
                && e.scope.id == f.scope.id ==> e.semantic_name != f.semantic_name
        }),
{
    lemma_no_entry_fault(d, 0);
    assert(rules::entry_fault(d, i) is None);
    assert(rules::entry_fault(d, k) is None);
    let e = d.symbols[i];
    let f = d.symbols[k];
    assert forall|name: Seq<char>| #[trigger] rules::is_name(name) implies is_presentable(name) by {
        lemma_name_has_bytes(name);
    }
    if i != k && e.state == NameState::Approved && f.state == NameState::Approved && e.scope.id
        == f.scope.id && e.semantic_name == f.semantic_name {
        if i < k {
            assert(rules::collides(d.symbols, k));
        } else {
            assert(rules::collides(d.symbols, i));
        }
    }
}

proof fn lemma_name_has_bytes(name: Seq<char>)
    requires
        name.len() > 0,
    ensures
        encode_utf8(name).len() > 0,
{
    if encode_utf8(name).len() == 0 {
        let none = Seq::<char>::empty();
        assert(encode_utf8(none).len() == 0);
        assert(encode_utf8(name) =~= encode_utf8(none));
        text::lemma_encoding_is_injective(name, none);
    }
}

/// In a valid document the history has no gaps: the events are numbered from
/// one on, no operation is recorded twice, each event is of a symbol of the
/// document, and each starts from the state and name that the last event of
/// its symbol left, or from nothing.
pub proof fn law_valid_documents_have_a_gapless_history(d: DocumentModel, j: int, k: int)
    requires
        rules::document_fault(d) is None,
        0 <= k < j < d.events.len(),
    ensures
        ({
            let e = d.events[j];
            let f = d.events[k];
            &&& e.revision == j + 1
            &&& f.revision == k + 1
            &&& e.operation_id != f.operation_id
            &&& exists|i: int|
                0 <= i < d.symbols.len() && (#[trigger] d.symbols[i]).symbol_id == e.symbol_id
            &&& f.symbol_id == e.symbol_id && (forall|m: int|
                k < m < j ==> (#[trigger] d.events[m]).symbol_id != e.symbol_id)
                ==> e.previous_state == f.new_state && e.previous_name == f.new_name
            &&& (forall|m: int| 0 <= m < j ==> (#[trigger] d.events[m]).symbol_id != e.symbol_id)
                ==> e.previous_state == NameState::Unknown && e.previous_name is None
            &&& e.new_name is Some <==> e.new_state == NameState::Suggested || e.new_state
                == NameState::Approved
        }),
{
    lemma_no_event_fault(d, 0);
    assert(rules::event_fault(d, j) is None);
    assert(rules::event_fault(d, k) is None);
    let e = d.events[j];
    assert(!rules::is_repeated(d.events, j));
    assert(rules::has_symbol(d.symbols, e.symbol_id));
    lemma_last_event(d.events, e.symbol_id, j);
}

proof fn lemma_last_event(events: Seq<EventModel>, id: Seq<char>, count: int)
    requires
        0 <= count <= events.len(),
    ensures
        match rules::last_event(events, id, count) {
            Some(j) => 0 <= j < count && events[j].symbol_id == id && forall|m: int|
                j < m < count ==> (#[trigger] events[m]).symbol_id != id,
            None => forall|m: int| 0 <= m < count ==> (#[trigger] events[m]).symbol_id != id,
        },
    decreases count,
{
    if count > 0 {
        lemma_last_event(events, id, count - 1);
    }
}

/// A suggestion is approved with its name, or rejected, and a suggested or
/// approved name is cleared, both without a name. No other transition is made,
/// and a refused one changes nothing.
pub proof fn law_transitions_are_the_known_ones(
    d: DocumentModel,
    id: Seq<char>,
    state: NameState,
    p: ProvenanceModel,
    i: int,
)
    requires
        rules::document_fault(d) is None,
        0 <= i < d.symbols.len(),
        d.symbols[i].symbol_id == id,
    ensures
        ({
            let e = d.symbols[i];
            let (next, fault) = edit::transitioned(d, id, state, p);
            let exists_one = {
                ||| e.state == NameState::Suggested && state == NameState::Approved
                ||| e.state == NameState::Suggested && state == NameState::Rejected
                ||| e.state == NameState::Suggested && state == NameState::Cleared
                ||| e.state == NameState::Approved && state == NameState::Cleared
            };
            &&& !exists_one ==> next == d && fault == Some(NamingError::InvalidTransition)
            &&& exists_one ==> (next, fault) == edit::applied(
                d,
                id,
                state,
                if state == NameState::Approved {
                    e.semantic_name
                } else {
                    None
                },
                p,
            )
        }),
{
    law_valid_documents_hold_sound_names(d, i, i);
    lemma_no_entry_fault(d, 0);
    assert(rules::entry_fault(d, i) is None);
    assert(text::is_digest_text(id));
    lemma_entry_from(d.symbols, id, 0);
    if let Some(k) = edit::entry_at(d.symbols, id) {
        law_symbols_are_distinct(d, i, k);
    }
}

/// A change is of one symbol: every other symbol stays as it was, the history
/// goes on by at most one event, and what came before stays.
pub proof fn law_changes_touch_one_symbol(
    d: DocumentModel,
    id: Seq<char>,
    state: NameState,
    name: Option<Seq<char>>,
    p: ProvenanceModel,
    e: EntryModel,
)
    requires
        e.symbol_id != id,
    ensures
        ({
            let next = edit::applied(d, id, state, name, p).0;
            &&& next.symbols.contains(e) <==> d.symbols.contains(e)
            &&& next.symbols.len() == d.symbols.len()
            &&& d.events.len() <= next.events.len() <= d.events.len() + 1
            &&& next.events.take(d.events.len() as int) == d.events
            &&& next.events.len() > d.events.len() ==> {
                let event = next.events.last();
                &&& event.symbol_id == id
                &&& event.new_state == state
                &&& event.new_name == name
                &&& event.provenance == p
            }
            &&& next.redacted == d.redacted
            &&& next.analysis == d.analysis
        }),
{
    let next = edit::applied(d, id, state, name, p).0;
    lemma_entry_from(d.symbols, id, 0);
    assert(d.events.take(d.events.len() as int) =~= d.events);
    if next != d {
        let i = edit::entry_at(d.symbols, id)->0;
        let old_entry = d.symbols[i];
        let new_entry = EntryModel { state, semantic_name: name, provenance: Some(p), ..old_entry };
        let updated = d.symbols.update(i, new_entry);
        lemma_by_id(updated);
        assert(next.events.take(d.events.len() as int) =~= d.events);
        if d.symbols.contains(e) {
            let k = choose|k: int| 0 <= k < d.symbols.len() && d.symbols[k] == e;
            assert(updated[k] == e);
        }
        if updated.contains(e) {
            let k = choose|k: int| 0 <= k < updated.len() && updated[k] == e;
            assert(d.symbols[k] == e);
        }
    }
}

} // verus!
