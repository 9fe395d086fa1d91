//! Changes to documents.

use vstd::prelude::*;
use vstd::string::*;
use vstd::utf8::*;

use super::rules::{check_digest, check_name, check_provenance, check_state};
use super::{
    NameEvent, NameProvenance, NameState, NamingError, SemanticNameDocument, SemanticNameEntry,
};
use super::{DocumentModel, EntryModel, EventModel, ProvenanceModel};
use crate::bytes::push_framed;
use crate::digest::sha256;
use crate::order::{arrange, text_order};
use crate::text::{clone_optional, hex_text, same_optional, same_text};

use super::rules;
use crate::{bytes, digest, order, text};

verus! {

/// A text, or an empty one in its place.
pub open spec fn text_or_empty(text: Option<Seq<char>>) -> Seq<char> {
    match text {
        Some(text) => text,
        None => Seq::empty(),
    }
}

/// The identity of a change: its symbol, state, name and provenance.
pub open spec fn operation_of(
    id: Seq<char>,
    state: NameState,
    name: Option<Seq<char>>,
    p: ProvenanceModel,
) -> Seq<char> {
    text::hex_of(
        digest::sha256_of(
            bytes::framed(encode_utf8(id)) + bytes::framed(seq![state.code_spec()])
                + bytes::framed(encode_utf8(text_or_empty(name))) + bytes::framed(
                encode_utf8(p.origin),
            ) + bytes::framed(encode_utf8(text_or_empty(p.actor))) + bytes::framed(
                encode_utf8(text_or_empty(p.evidence_digest)),
            ),
        ),
    )
}

/// The first symbol from `i` on with an identity.
pub open spec fn entry_from(symbols: Seq<EntryModel>, id: Seq<char>, i: int) -> Option<int>
    decreases symbols.len() - i,
{
    if i < 0 || i >= symbols.len() {
        None
    } else if symbols[i].symbol_id == id {
        Some(i)
    } else {
        entry_from(symbols, id, i + 1)
    }
}

/// The first symbol with an identity.
pub open spec fn entry_at(symbols: Seq<EntryModel>, id: Seq<char>) -> Option<int> {
    entry_from(symbols, id, 0)
}

/// The identities of entries.
pub open spec fn entry_ids(symbols: Seq<EntryModel>) -> Seq<Seq<char>> {
    symbols.map_values(|e: EntryModel| e.symbol_id)
}

/// Entries in the order of their identities.
pub open spec fn by_id(symbols: Seq<EntryModel>) -> Seq<EntryModel> {
    order::arranged(symbols, order::text_keys(entry_ids(symbols)))
}

/// A document after a change to entry `i`.
pub open spec fn changed(
    d: DocumentModel,
    i: int,
    state: NameState,
    name: Option<Seq<char>>,
    p: ProvenanceModel,
) -> DocumentModel {
    let e = d.symbols[i];
    DocumentModel {
        revision: (d.revision + 1) as u64,
        symbols: by_id(
            d.symbols.update(i, EntryModel { state, semantic_name: name, provenance: Some(p), ..e }),
        ),
        events: d.events.push(
            EventModel {
                operation_id: operation_of(e.symbol_id, state, name, p),
                revision: (d.revision + 1) as u64,
                symbol_id: e.symbol_id,
                previous_state: e.state,
                previous_name: e.semantic_name,
                new_state: state,
                new_name: name,
                provenance: p,
            },
        ),
        ..d
    }
}

/// Whether a change was made before.
pub open spec fn is_known(d: DocumentModel, operation: Seq<char>) -> bool {
    exists|k: int| 0 <= k < d.events.len() && (#[trigger] d.events[k]).operation_id == operation
}

/// Why a change is refused before it is made.
pub open spec fn refusal(
    d: DocumentModel,
    id: Seq<char>,
    state: NameState,
    name: Option<Seq<char>>,
    p: ProvenanceModel,
) -> Option<NamingError> {
    super::or_fault(
        rules::provenance_fault(p),
        super::or_fault(
            rules::state_fault(state, name),
            super::or_fault(
                rules::digest_fault(id),
                super::fault_if(entry_at(d.symbols, id) is None, NamingError::UnknownSymbol),
            ),
        ),
    )
}

/// Whether a change would change nothing.
pub open spec fn is_settled(
    d: DocumentModel,
    id: Seq<char>,
    state: NameState,
    name: Option<Seq<char>>,
) -> bool {
    let e = d.symbols[entry_at(d.symbols, id)->0];
    e.state == state && e.semantic_name == name
}

/// The document after a change is asked for, and the fault that is reported.
pub open spec fn applied(
    d: DocumentModel,
    id: Seq<char>,
    state: NameState,
    name: Option<Seq<char>>,
    p: ProvenanceModel,
) -> (DocumentModel, Option<NamingError>) {
    if refusal(d, id, state, name, p) is Some {
        (d, refusal(d, id, state, name, p))
    } else if is_settled(d, id, state, name) {
        (d, None)
    } else if d.revision == u64::MAX {
        (d, Some(NamingError::RevisionOverflow))
    } else if is_known(d, operation_of(id, state, name, p)) {
        (d, None)
    } else {
        let next = changed(d, entry_at(d.symbols, id)->0, state, name, p);
        (next, rules::document_fault(next))
    }
}

/// The document after a name is suggested, and the fault that is reported.
pub open spec fn suggested(
    d: DocumentModel,
    id: Seq<char>,
    name: Seq<char>,
    p: ProvenanceModel,
) -> (DocumentModel, Option<NamingError>) {
    if !rules::is_name(name) {
        (d, Some(NamingError::Text))
    } else {
        applied(d, id, NameState::Suggested, Some(name), p)
    }
}

/// The name that goes with a transition, where the transition exists: a
/// suggestion is approved or rejected, and a suggested or approved name is
/// cleared.
pub open spec fn transition_name(e: EntryModel, state: NameState) -> Option<Option<Seq<char>>> {
    if state == NameState::Approved && e.state == NameState::Suggested {
        Some(e.semantic_name)
    } else if state == NameState::Rejected && e.state == NameState::Suggested {
        Some(None)
    } else if state == NameState::Cleared && rules::is_named(e.state) {
        Some(None)
    } else {
        None
    }
}

/// The document after a transition, and the fault that is reported.
pub open spec fn transitioned(
    d: DocumentModel,
    id: Seq<char>,
    state: NameState,
    p: ProvenanceModel,
) -> (DocumentModel, Option<NamingError>) {
    if !text::is_digest_text(id) {
        (d, Some(NamingError::Digest))
    } else {
        match entry_at(d.symbols, id) {
            None => (d, Some(NamingError::UnknownSymbol)),
            Some(i) => match transition_name(d.symbols[i], state) {
                None => (d, Some(NamingError::InvalidTransition)),
                Some(name) => applied(d, id, state, name, p),
            },
        }
    }
}

fn or_empty<'a>(value: &'a Option<String>) -> (r: &'a str)
    ensures
        r@ == text_or_empty(text::optional_view(*value)),
{
    match value {
        Some(value) => value.as_str(),
        None => {
            proof {
                reveal_strlit("");
            }
            ""
        },
    }
}

fn operation_id(
    symbol_id: &str,
    state: NameState,
    name: &Option<String>,
    provenance: &NameProvenance,
) -> (id: String)
    ensures
        id@ == operation_of(symbol_id@, state, text::optional_view(*name), provenance@),
{
    let mut buffer: Vec<u8> = Vec::new();
    let code = [state.code()];
    assert(code@ =~= seq![state.code_spec()]);
    push_framed(&mut buffer, symbol_id.as_bytes());
    assert(buffer@ =~= bytes::framed(encode_utf8(symbol_id@)));
    push_framed(&mut buffer, code.as_slice());
    push_framed(&mut buffer, or_empty(name).as_bytes());
    push_framed(&mut buffer, provenance.origin.as_str().as_bytes());
    push_framed(&mut buffer, or_empty(&provenance.actor).as_bytes());
    push_framed(&mut buffer, or_empty(&provenance.evidence_digest).as_bytes());
    hex_text(sha256(buffer.as_slice()).as_slice())
}

/// Copies a provenance.
pub fn clone_provenance(p: &NameProvenance) -> (copy: NameProvenance)
    ensures
        copy == *p,
{
    NameProvenance {
        origin: p.origin.clone(),
        actor: clone_optional(&p.actor),
        evidence_digest: clone_optional(&p.evidence_digest),
    }
}

/// Puts entries in the order of their identities.
fn sort_entries(symbols: Vec<SemanticNameEntry>) -> (sorted: Vec<SemanticNameEntry>)
    ensures
        super::entry_views(sorted@) == by_id(super::entry_views(symbols@)),
{
    let ghost all = super::entry_views(symbols@);
    let mut ids: Vec<String> = Vec::new();
    let mut i: usize = 0;
    while i < symbols.len()
        invariant
            i <= symbols@.len(),
            ids@.len() == i,
            forall|k: int| 0 <= k < i ==> (#[trigger] ids@[k])@ == symbols@[k].symbol_id@,
        decreases symbols@.len() - i,
    {
        ids.push(symbols[i].symbol_id.clone());
        i += 1;
    }
    let order = text_order(&ids);
    let ghost keys = order::text_keys(entry_ids(all));
    proof {
        assert(text::views(ids@) =~= entry_ids(all));
        order::lemma_order_has_no_duplicates(keys, order@);
    }
    let sorted = arrange(symbols, &order);
    assert(super::entry_views(sorted@) =~= by_id(all));
    sorted
}

impl SemanticNameDocument {
    fn entry_row(&self, symbol_id: &str) -> (r: Result<usize, NamingError>)
        ensures
            match r {
                Ok(i) => text::is_digest_text(symbol_id@) && entry_at(self@.symbols, symbol_id@)
                    == Some(i as int) && i < self.symbols@.len() && self@.symbols[i as int].symbol_id
                    == symbol_id@,
                Err(error) => Some(error) == super::or_fault(
                    rules::digest_fault(symbol_id@),
                    super::fault_if(
                        entry_at(self@.symbols, symbol_id@) is None,
                        NamingError::UnknownSymbol,
                    ),
                ),
            },
    {
        match check_digest(symbol_id) {
            Ok(()) => {},
            Err(error) => {
                return Err(error);
            },
        }
        let mut i: usize = 0;
        assert(self@.symbols.len() == self.symbols@.len());
        while i < self.symbols.len()
            invariant
                text::is_digest_text(symbol_id@),
                self@.symbols.len() == self.symbols@.len(),
                i <= self.symbols@.len(),
                entry_at(self@.symbols, symbol_id@) == entry_from(
                    self@.symbols,
                    symbol_id@,
                    i as int,
                ),
            decreases self.symbols@.len() - i,
        {
            assert(self@.symbols[i as int] == self.symbols@[i as int]@);
            if same_text(self.symbols[i].symbol_id.as_str(), symbol_id) {
                return Ok(i);
            }
            i += 1;
        }
        Err(NamingError::UnknownSymbol)
    }

    fn knows(&self, operation: &str) -> (r: bool)
        ensures
            r == is_known(self@, operation@),
    {
        let mut k: usize = 0;
        assert(self@.events.len() == self.events@.len());
        while k < self.events.len()
            invariant
                self@.events.len() == self.events@.len(),
                k <= self.events@.len(),
                forall|j: int|
                    0 <= j < k ==> (#[trigger] self@.events[j]).operation_id != operation@,
            decreases self.events@.len() - k,
        {
            assert(self@.events[k as int] == self.events@[k as int]@);
            if same_text(self.events[k].operation_id.as_str(), operation) {
                return true;
            }
            k += 1;
        }
        false
    }

    /// Makes a change, records it, and checks the document.
    pub(crate) fn apply_event(
        &mut self,
        symbol_id: &str,
        state: NameState,
        name: Option<String>,
        provenance: NameProvenance,
    ) -> (r: Result<(), NamingError>)
        ensures
            (final(self)@, r) == ({
                let (next, fault) = applied(
                    old(self)@,
                    symbol_id@,
                    state,
                    text::optional_view(name),
                    provenance@,
                );
                (next, super::outcome(fault))
            }),
    {
        check_provenance(&provenance)?;
        check_state(state, &name)?;
        let i = match self.entry_row(symbol_id) {
            Ok(i) => i,
            Err(error) => {
                return Err(error);
            },
        };
        assert(self@.symbols[i as int] == self.symbols@[i as int]@);
        let entry = &self.symbols[i];
        if entry.state == state && same_optional(&entry.semantic_name, &name) {
            return Ok(());
        }
        if self.revision == u64::MAX {
            return Err(NamingError::RevisionOverflow);
        }
        let revision: u64 = self.revision + 1;
        let operation_id = operation_id(symbol_id, state, &name, &provenance);
        if self.knows(operation_id.as_str()) {
            return Ok(());
        }
        let event = NameEvent {
            operation_id,
            revision,
            symbol_id: symbol_id.to_string(),
            previous_state: entry.state,
            previous_name: clone_optional(&entry.semantic_name),
            new_state: state,
            new_name: clone_optional(&name),
            provenance: clone_provenance(&provenance),
        };
        let ghost before = self@;
        let ghost wanted = changed(
            before,
            i as int,
            state,
            text::optional_view(name),
            provenance@,
        );
        self.symbols[i].semantic_name = name;
        self.symbols[i].state = state;
        self.symbols[i].provenance = Some(provenance);
        self.revision = revision;
        self.events.push(event);
        let mut symbols: Vec<SemanticNameEntry> = Vec::new();
        std::mem::swap(&mut self.symbols, &mut symbols);
        proof {
            assert(super::entry_views(symbols@) =~= before.symbols.update(
                i as int,
                EntryModel {
                    state,
                    semantic_name: text::optional_view(name),
                    provenance: Some(provenance@),
                    ..before.symbols[i as int]
                },
            ));
            assert(super::event_views(self.events@) =~= before.events.push(event@));
        }
        self.symbols = sort_entries(symbols);
        assert(self@ == wanted);
        self.validate()
    }

    /// Suggests a name for a symbol.
    pub fn suggest(&mut self, symbol_id: &str, name: String, provenance: NameProvenance) -> (r:
        Result<(), NamingError>)
        ensures
            (final(self)@, r) == ({
                let (next, fault) = suggested(old(self)@, symbol_id@, name@, provenance@);
                (next, super::outcome(fault))
            }),
    {
        check_name(name.as_str())?;
        self.apply_event(symbol_id, NameState::Suggested, Some(name), provenance)
    }

    /// Approves or rejects a suggestion, or clears a name.
    pub fn transition(&mut self, symbol_id: &str, state: NameState, provenance: NameProvenance) -> (r:
        Result<(), NamingError>)
        ensures
            (final(self)@, r) == ({
                let (next, fault) = transitioned(old(self)@, symbol_id@, state, provenance@);
                (next, super::outcome(fault))
            }),
    {
        let i = match self.entry_row(symbol_id) {
            Ok(i) => i,
            Err(error) => {
                return Err(error);
            },
        };
        assert(self@.symbols[i as int] == self.symbols@[i as int]@);
        let entry = &self.symbols[i];
        let name: Option<String> = match state {
            NameState::Approved => {
                if entry.state != NameState::Suggested {
                    return Err(NamingError::InvalidTransition);
                }
                clone_optional(&entry.semantic_name)
            },
            NameState::Rejected => {
                if entry.state != NameState::Suggested {
                    return Err(NamingError::InvalidTransition);
                }
                None
            },
            NameState::Cleared => {
                if entry.state != NameState::Suggested && entry.state != NameState::Approved {
                    return Err(NamingError::InvalidTransition);
                }
                None
            },
            _ => {
                return Err(NamingError::InvalidTransition);
            },
        };
        self.apply_event(symbol_id, state, name, provenance)
    }
}

} // verus!
