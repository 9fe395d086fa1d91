//! The rules of semantic-name documents.

use vstd::hash_map::StringHashMap;
use vstd::hash_set::StringHashSet;
use vstd::prelude::*;
use vstd::string::*;
use vstd::utf8::*;

use super::{
    NameProvenance, NameState, NamingCallContext, NamingError, NamingReferenceContext,
    SemanticNameDocument, FORMAT, INSTRUCTIONS, MAX_EVENTS, MAX_SYMBOLS,
};
use super::{CallModel, DocumentModel, EntryModel, EventModel, ProvenanceModel, ReferenceModel};
use crate::order::bytes_at_most;
use crate::text::{chars_of, fits_node_kind, fits_token, same_optional, same_text, spells_digest};
use crate::{chars, order, text};

verus! {

/// Whether a text can be a name: it has 1 to 128 bytes, starts and ends with
/// no white space, and holds no control code.
pub open spec fn is_name(name: Seq<char>) -> bool {
    &&& name.len() > 0
    &&& encode_utf8(name).len() <= 128
    &&& !chars::is_space(name.first())
    &&& !chars::is_space(name.last())
    &&& forall|i: int| 0 <= i < name.len() ==> !chars::is_control_code(#[trigger] name[i])
}

/// The fault of what should spell 256 bits.
pub open spec fn digest_fault(value: Seq<char>) -> Option<NamingError> {
    super::fault_if(!text::is_digest_text(value), NamingError::Digest)
}

/// The fault of what should be a metadata token.
pub open spec fn token_fault(value: Seq<char>) -> Option<NamingError> {
    super::fault_if(!text::is_token(value), NamingError::Token)
}

/// The fault of what should be a name.
pub open spec fn name_fault(value: Seq<char>) -> Option<NamingError> {
    super::fault_if(!is_name(value), NamingError::Text)
}

/// The fault of what should spell 256 bits, where it is present.
pub open spec fn optional_digest_fault(value: Option<Seq<char>>) -> Option<NamingError> {
    match value {
        Some(value) => digest_fault(value),
        None => None,
    }
}

/// The fault of what should be a token, where it is present.
pub open spec fn optional_token_fault(value: Option<Seq<char>>) -> Option<NamingError> {
    match value {
        Some(value) => token_fault(value),
        None => None,
    }
}

/// The fault of what should be a name, where it is present.
pub open spec fn optional_name_fault(value: Option<Seq<char>>) -> Option<NamingError> {
    match value {
        Some(value) => name_fault(value),
        None => None,
    }
}

/// Whether every text is a token.
pub open spec fn are_tokens(values: Seq<Seq<char>>) -> bool {
    forall|i: int| 0 <= i < values.len() ==> text::is_token(#[trigger] values[i])
}

/// Whether every text is the kind of a syntax node.
pub open spec fn are_node_kinds(values: Seq<Seq<char>>) -> bool {
    forall|i: int| 0 <= i < values.len() ==> text::is_node_kind(#[trigger] values[i])
}

/// Whether a state goes with a name.
pub open spec fn is_named(state: NameState) -> bool {
    state == NameState::Suggested || state == NameState::Approved
}

/// A name is present exactly where the state goes with one.
pub open spec fn state_fault(state: NameState, name: Option<Seq<char>>) -> Option<NamingError> {
    super::fault_if(is_named(state) != (name is Some), NamingError::StateName)
}

/// The fault of a provenance.
pub open spec fn provenance_fault(p: ProvenanceModel) -> Option<NamingError> {
    super::or_fault(
        token_fault(p.origin),
        super::or_fault(optional_token_fault(p.actor), optional_digest_fault(p.evidence_digest)),
    )
}

/// The fault of a use.
pub open spec fn reference_fault(r: ReferenceModel) -> Option<NamingError> {
    super::or_fault(
        digest_fault(r.node_id),
        super::or_fault(
            super::fault_if(
                !text::is_token(r.role) || !text::is_token(r.resolution) || !text::is_token(
                    r.parent_kind,
                ),
                NamingError::Token,
            ),
            optional_digest_fault(r.target_symbol_id),
        ),
    )
}

/// The fault of the first use from `i` on that has one.
pub open spec fn references_fault(list: Seq<ReferenceModel>, i: int) -> Option<NamingError>
    decreases list.len() - i,
{
    if i < 0 || i >= list.len() {
        None
    } else {
        super::or_fault(reference_fault(list[i]), references_fault(list, i + 1))
    }
}

/// The fault of a call.
pub open spec fn call_fault(c: CallModel) -> Option<NamingError> {
    super::or_fault(
        digest_fault(c.node_id),
        super::or_fault(token_fault(c.kind), optional_digest_fault(c.target_symbol_id)),
    )
}

/// The fault of the first call from `i` on that has one.
pub open spec fn calls_fault(list: Seq<CallModel>, i: int) -> Option<NamingError>
    decreases list.len() - i,
{
    if i < 0 || i >= list.len() {
        None
    } else {
        super::or_fault(call_fault(list[i]), calls_fault(list, i + 1))
    }
}

/// Whether a text comes strictly before another in byte order.
pub open spec fn is_before(a: Seq<char>, b: Seq<char>) -> bool {
    !order::bytes_le(encode_utf8(b), encode_utf8(a))
}

/// Whether an earlier symbol of the same scope has the same approved name.
pub open spec fn collides(symbols: Seq<EntryModel>, i: int) -> bool {
    exists|k: int|
        0 <= k < i && (#[trigger] symbols[k]).state == NameState::Approved
            && symbols[k].semantic_name == symbols[i].semantic_name && symbols[k].scope.id
            == symbols[i].scope.id
}

/// The fault of an entry's identities and its place.
pub open spec fn place_fault(d: DocumentModel, i: int) -> Option<NamingError> {
    let e = d.symbols[i];
    super::or_fault(
        super::fault_if(
            !text::is_digest_text(e.symbol_id) || !text::is_digest_text(e.scope.id)
                || !text::is_digest_text(e.declaration.node_id),
            NamingError::Digest,
        ),
        super::fault_if(
            i > 0 && !is_before(d.symbols[i - 1].symbol_id, e.symbol_id),
            NamingError::Unsorted,
        ),
    )
}

/// The fault of an entry's names.
pub open spec fn names_fault(d: DocumentModel, i: int) -> Option<NamingError> {
    let e = d.symbols[i];
    super::or_fault(
        state_fault(e.state, e.semantic_name),
        super::or_fault(
            optional_name_fault(e.semantic_name),
            super::or_fault(
                super::fault_if(
                    e.state == NameState::Approved && collides(d.symbols, i),
                    NamingError::Collision,
                ),
                super::or_fault(
                    optional_name_fault(e.generated_name),
                    super::fault_if(
                        d.redacted && e.generated_name is Some,
                        NamingError::RedactedName,
                    ),
                ),
            ),
        ),
    )
}

/// The fault of an entry's context.
pub open spec fn context_fault(d: DocumentModel, i: int) -> Option<NamingError> {
    let e = d.symbols[i];
    super::or_fault(
        super::fault_if(
            !text::is_token(e.kind) || !text::is_token(e.scope.kind) || !text::is_token(
                e.declaration.kind,
            ) || !are_tokens(e.scope.ancestor_kinds) || !are_tokens(e.declaration.ancestor_kinds)
                || !are_node_kinds(e.declaration.child_kinds),
            NamingError::Token,
        ),
        super::or_fault(
            super::fault_if(
                e.declaration.start_byte > e.declaration.end_byte || e.declaration.end_byte
                    > d.analysis.source_length || e.declaration.ancestor_kinds.len() > 6
                    || e.declaration.child_kinds.len() > 12 || e.references.len() > 24
                    || e.calls.len() > 16,
                NamingError::DeclarationContext,
            ),
            super::or_fault(references_fault(e.references, 0), calls_fault(e.calls, 0)),
        ),
    )
}

/// The fault of an entry's provenance.
pub open spec fn origin_fault(e: EntryModel) -> Option<NamingError> {
    match e.provenance {
        Some(provenance) => provenance_fault(provenance),
        None => super::fault_if(e.state != NameState::Unknown, NamingError::NoProvenance),
    }
}

/// The fault of entry `i`, if any.
pub open spec fn entry_fault(d: DocumentModel, i: int) -> Option<NamingError> {
    super::or_fault(
        place_fault(d, i),
        super::or_fault(
            names_fault(d, i),
            super::or_fault(context_fault(d, i), origin_fault(d.symbols[i])),
        ),
    )
}

/// The fault of the first entry from `i` on that has one.
pub open spec fn entries_fault(d: DocumentModel, i: int) -> Option<NamingError>
    decreases d.symbols.len() - i,
{
    if i < 0 || i >= d.symbols.len() {
        None
    } else {
        super::or_fault(entry_fault(d, i), entries_fault(d, i + 1))
    }
}

/// The last of the first `count` events that is about a symbol.
pub open spec fn last_event(events: Seq<EventModel>, id: Seq<char>, count: int) -> Option<int>
    decreases count,
{
    if count <= 0 {
        None
    } else if events[count - 1].symbol_id == id {
        Some(count - 1)
    } else {
        last_event(events, id, count - 1)
    }
}

/// The state of a symbol after the first `count` events.
pub open spec fn state_after(events: Seq<EventModel>, id: Seq<char>, count: int) -> NameState {
    match last_event(events, id, count) {
        Some(j) => events[j].new_state,
        None => NameState::Unknown,
    }
}

/// The name of a symbol after the first `count` events.
pub open spec fn name_after(events: Seq<EventModel>, id: Seq<char>, count: int) -> Option<
    Seq<char>,
> {
    match last_event(events, id, count) {
        Some(j) => events[j].new_name,
        None => None,
    }
}

/// The provenance of a symbol after the first `count` events.
pub open spec fn provenance_after(events: Seq<EventModel>, id: Seq<char>, count: int) -> Option<
    ProvenanceModel,
> {
    match last_event(events, id, count) {
        Some(j) => Some(events[j].provenance),
        None => None,
    }
}

/// Whether an earlier event has the operation identity of event `j`.
pub open spec fn is_repeated(events: Seq<EventModel>, j: int) -> bool {
    exists|k: int| 0 <= k < j && (#[trigger] events[k]).operation_id == events[j].operation_id
}

/// Whether a document has a symbol.
pub open spec fn has_symbol(symbols: Seq<EntryModel>, id: Seq<char>) -> bool {
    exists|k: int| 0 <= k < symbols.len() && (#[trigger] symbols[k]).symbol_id == id
}

/// The fault of event `j`, if any.
pub open spec fn event_fault(d: DocumentModel, j: int) -> Option<NamingError> {
    let e = d.events[j];
    super::or_fault(
        super::fault_if(
            e.revision != j + 1 || is_repeated(d.events, j),
            NamingError::EventHistory,
        ),
        super::or_fault(
            super::fault_if(
                !text::is_digest_text(e.operation_id) || !text::is_digest_text(e.symbol_id),
                NamingError::Digest,
            ),
            super::or_fault(
                provenance_fault(e.provenance),
                super::or_fault(
                    optional_name_fault(e.previous_name),
                    super::or_fault(
                        optional_name_fault(e.new_name),
                        super::or_fault(state_fault(e.new_state, e.new_name), chain_fault(d, j)),
                    ),
                ),
            ),
        ),
    )
}

/// The fault of an event against what came before it.
pub open spec fn chain_fault(d: DocumentModel, j: int) -> Option<NamingError> {
    let e = d.events[j];
    super::or_fault(
        super::fault_if(!has_symbol(d.symbols, e.symbol_id), NamingError::UnknownEventSymbol),
        super::fault_if(
            state_after(d.events, e.symbol_id, j) != e.previous_state || name_after(
                d.events,
                e.symbol_id,
                j,
            ) != e.previous_name,
            NamingError::StaleEvent,
        ),
    )
}

/// The fault of the first event from `j` on that has one.
pub open spec fn events_fault(d: DocumentModel, j: int) -> Option<NamingError>
    decreases d.events.len() - j,
{
    if j < 0 || j >= d.events.len() {
        None
    } else {
        super::or_fault(event_fault(d, j), events_fault(d, j + 1))
    }
}

/// Whether an entry is what the events made of it.
pub open spec fn is_materialized(d: DocumentModel, i: int) -> bool {
    let e = d.symbols[i];
    let n = d.events.len() as int;
    &&& state_after(d.events, e.symbol_id, n) == e.state
    &&& name_after(d.events, e.symbol_id, n) == e.semantic_name
    &&& provenance_after(d.events, e.symbol_id, n) == e.provenance
}

/// Whether every entry is what the events made of it.
pub open spec fn all_materialized(d: DocumentModel) -> bool {
    forall|i: int| 0 <= i < d.symbols.len() ==> #[trigger] is_materialized(d, i)
}

/// The fault of a document as a whole.
pub open spec fn header_fault(d: DocumentModel) -> Option<NamingError> {
    super::or_fault(
        super::fault_if(
            d.format != FORMAT@ || d.instructions != INSTRUCTIONS@,
            NamingError::Unsupported,
        ),
        super::or_fault(
            super::fault_if(
                !text::is_digest_text(d.analysis.source_digest) || !text::is_digest_text(
                    d.analysis.analysis_digest,
                ),
                NamingError::Digest,
            ),
            super::or_fault(
                super::fault_if(
                    !text::is_token(d.analysis.profile) || !text::is_token(d.analysis.producer)
                        || !text::is_token(d.analysis.producer_version) || !text::is_token(
                        d.analysis.language,
                    ) || !text::is_token(d.analysis.frontend) || !text::is_token(
                        d.analysis.frontend_version,
                    ),
                    NamingError::Token,
                ),
                super::fault_if(
                    d.symbols.len() > MAX_SYMBOLS || d.events.len() > MAX_EVENTS,
                    NamingError::RowLimits,
                ),
            ),
        ),
    )
}

/// The first fault of a document.
pub open spec fn document_fault(d: DocumentModel) -> Option<NamingError> {
    super::or_fault(
        header_fault(d),
        super::or_fault(
            entries_fault(d, 0),
            super::or_fault(
                events_fault(d, 0),
                super::or_fault(
                    super::fault_if(d.revision != d.events.len(), NamingError::Revision),
                    super::fault_if(!all_materialized(d), NamingError::StateHistory),
                ),
            ),
        ),
    )
}

/// Whether a text can be a name.
pub fn fits_name(value: &str) -> (r: bool)
    ensures
        r == is_name(value@),
{
    let characters = chars_of(value);
    if characters.len() == 0 || value.as_bytes().len() > 128 {
        return false;
    }
    if characters[0].is_whitespace() || characters[characters.len() - 1].is_whitespace() {
        return false;
    }
    let mut i: usize = 0;
    while i < characters.len()
        invariant
            characters@ == value@,
            i <= characters@.len(),
            forall|k: int| 0 <= k < i ==> !chars::is_control_code(#[trigger] value@[k]),
        decreases characters@.len() - i,
    {
        if characters[i].is_control() {
            return false;
        }
        i += 1;
    }
    true
}

pub fn check_digest(value: &str) -> (r: Result<(), NamingError>)
    ensures
        r == super::outcome(digest_fault(value@)),
{
    if spells_digest(value) {
        Ok(())
    } else {
        Err(NamingError::Digest)
    }
}

pub fn check_token(value: &str) -> (r: Result<(), NamingError>)
    ensures
        r == super::outcome(token_fault(value@)),
{
    if fits_token(value) {
        Ok(())
    } else {
        Err(NamingError::Token)
    }
}

pub fn check_name(value: &str) -> (r: Result<(), NamingError>)
    ensures
        r == super::outcome(name_fault(value@)),
{
    if fits_name(value) {
        Ok(())
    } else {
        Err(NamingError::Text)
    }
}

fn check_optional_digest(value: &Option<String>) -> (r: Result<(), NamingError>)
    ensures
        r == super::outcome(optional_digest_fault(text::optional_view(*value))),
{
    match value {
        Some(value) => check_digest(value.as_str()),
        None => Ok(()),
    }
}

fn check_optional_token(value: &Option<String>) -> (r: Result<(), NamingError>)
    ensures
        r == super::outcome(optional_token_fault(text::optional_view(*value))),
{
    match value {
        Some(value) => check_token(value.as_str()),
        None => Ok(()),
    }
}

fn check_optional_name(value: &Option<String>) -> (r: Result<(), NamingError>)
    ensures
        r == super::outcome(optional_name_fault(text::optional_view(*value))),
{
    match value {
        Some(value) => check_name(value.as_str()),
        None => Ok(()),
    }
}

pub fn check_state(state: NameState, name: &Option<String>) -> (r: Result<(), NamingError>)
    ensures
        r == super::outcome(state_fault(state, text::optional_view(*name))),
{
    let named = match state {
        NameState::Suggested | NameState::Approved => true,
        _ => false,
    };
    if named != name.is_some() {
        Err(NamingError::StateName)
    } else {
        Ok(())
    }
}

pub fn check_provenance(value: &NameProvenance) -> (r: Result<(), NamingError>)
    ensures
        r == super::outcome(provenance_fault(value@)),
{
    check_token(value.origin.as_str())?;
    check_optional_token(&value.actor)?;
    check_optional_digest(&value.evidence_digest)
}

fn all_tokens(values: &Vec<String>) -> (r: bool)
    ensures
        r == are_tokens(text::views(values@)),
{
    let ghost all = text::views(values@);
    let mut i: usize = 0;
    while i < values.len()
        invariant
            all == text::views(values@),
            i <= values@.len(),
            forall|k: int| 0 <= k < i ==> text::is_token(#[trigger] all[k]),
        decreases values@.len() - i,
    {
        assert(all[i as int] == values@[i as int]@);
        if !fits_token(values[i].as_str()) {
            return false;
        }
        i += 1;
    }
    true
}

fn all_node_kinds(values: &Vec<String>) -> (r: bool)
    ensures
        r == are_node_kinds(text::views(values@)),
{
    let ghost all = text::views(values@);
    let mut i: usize = 0;
    while i < values.len()
        invariant
            all == text::views(values@),
            i <= values@.len(),
            forall|k: int| 0 <= k < i ==> text::is_node_kind(#[trigger] all[k]),
        decreases values@.len() - i,
    {
        assert(all[i as int] == values@[i as int]@);
        if !fits_node_kind(values[i].as_str()) {
            return false;
        }
        i += 1;
    }
    true
}

fn check_references(list: &Vec<NamingReferenceContext>) -> (r: Result<(), NamingError>)
    ensures
        r == super::outcome(references_fault(super::reference_views(list@), 0)),
{
    let ghost all = super::reference_views(list@);
    let mut i: usize = 0;
    while i < list.len()
        invariant
            all == super::reference_views(list@),
            i <= list@.len(),
            references_fault(all, 0) == references_fault(all, i as int),
        decreases list@.len() - i,
    {
        let reference = &list[i];
        assert(all[i as int] == reference@);
        check_digest(reference.node_id.as_str())?;
        if !fits_token(reference.role.as_str()) || !fits_token(reference.resolution.as_str())
            || !fits_token(reference.parent_kind.as_str()) {
            return Err(NamingError::Token);
        }
        check_optional_digest(&reference.target_symbol_id)?;
        i += 1;
    }
    Ok(())
}

fn check_calls(list: &Vec<NamingCallContext>) -> (r: Result<(), NamingError>)
    ensures
        r == super::outcome(calls_fault(super::call_views(list@), 0)),
{
    let ghost all = super::call_views(list@);
    let mut i: usize = 0;
    while i < list.len()
        invariant
            all == super::call_views(list@),
            i <= list@.len(),
            calls_fault(all, 0) == calls_fault(all, i as int),
        decreases list@.len() - i,
    {
        let call = &list[i];
        assert(all[i as int] == call@);
        check_digest(call.node_id.as_str())?;
        check_token(call.kind.as_str())?;
        check_optional_digest(&call.target_symbol_id)?;
        i += 1;
    }
    Ok(())
}

/// Whether a text comes strictly before another in byte order.
fn comes_first(a: &str, b: &str) -> (r: bool)
    ensures
        r == is_before(a@, b@),
{
    !bytes_at_most(b.as_bytes(), a.as_bytes())
}

/// What an approved name is found by: its scope, then the name.
spec fn approved_key(e: EntryModel) -> Seq<char> {
    e.scope.id + e.semantic_name->0
}

/// Whether a set holds the approved names of the first `count` symbols.
spec fn holds_approved(set: Set<Seq<char>>, symbols: Seq<EntryModel>, count: int) -> bool {
    forall|key: Seq<char>| #[trigger] set.contains(key) == is_approved_key(symbols, key, count)
}

spec fn is_approved_key(symbols: Seq<EntryModel>, key: Seq<char>, count: int) -> bool {
    exists|k: int|
        0 <= k < count && (#[trigger] symbols[k]).state == NameState::Approved && approved_key(
            symbols[k],
        ) == key
}

/// Whether the first `count` symbols have a name where approved, in scopes of
/// equally long identities.
spec fn keys_are_apart(symbols: Seq<EntryModel>, count: int) -> bool {
    forall|k: int|
        0 <= k < count ==> (#[trigger] symbols[k]).scope.id.len() == 64 && (symbols[k].state
            == NameState::Approved ==> symbols[k].semantic_name is Some)
}

proof fn lemma_key_collides(symbols: Seq<EntryModel>, i: int)
    requires
        0 <= i < symbols.len(),
        keys_are_apart(symbols, i),
        symbols[i].scope.id.len() == 64,
        symbols[i].semantic_name is Some,
    ensures
        is_approved_key(symbols, approved_key(symbols[i]), i) == collides(symbols, i),
{
    let e = symbols[i];
    if is_approved_key(symbols, approved_key(e), i) {
        let k = choose|k: int|
            0 <= k < i && (#[trigger] symbols[k]).state == NameState::Approved && approved_key(
                symbols[k],
            ) == approved_key(e);
        let f = symbols[k];
        assert(f.scope.id =~= approved_key(f).take(64));
        assert(e.scope.id =~= approved_key(e).take(64));
        assert(f.semantic_name->0 =~= approved_key(f).skip(64));
        assert(e.semantic_name->0 =~= approved_key(e).skip(64));
    }
    if collides(symbols, i) {
        let k = choose|k: int|
            0 <= k < i && (#[trigger] symbols[k]).state == NameState::Approved
                && symbols[k].semantic_name == e.semantic_name && symbols[k].scope.id
                == e.scope.id;
        assert(approved_key(symbols[k]) == approved_key(e));
    }
}

proof fn lemma_approved_step(symbols: Seq<EntryModel>, key: Seq<char>, i: int)
    requires
        0 <= i < symbols.len(),
    ensures
        is_approved_key(symbols, key, i + 1) == (is_approved_key(symbols, key, i) || (
        symbols[i].state == NameState::Approved && approved_key(symbols[i]) == key)),
{
    if is_approved_key(symbols, key, i) {
        let k = choose|k: int|
            0 <= k < i && (#[trigger] symbols[k]).state == NameState::Approved && approved_key(
                symbols[k],
            ) == key;
        assert(symbols[k].state == NameState::Approved);
    }
    if is_approved_key(symbols, key, i + 1) && !is_approved_key(symbols, key, i) {
        let k = choose|k: int|
            0 <= k < i + 1 && (#[trigger] symbols[k]).state == NameState::Approved
                && approved_key(symbols[k]) == key;
        assert(k == i);
    }
}

/// Whether a set holds the identities of the first `count` symbols.
spec fn holds_symbols(set: Set<Seq<char>>, symbols: Seq<EntryModel>, count: int) -> bool {
    forall|id: Seq<char>| #[trigger]
        set.contains(id) == has_symbol(symbols.take(count), id)
}

proof fn lemma_symbol_step(symbols: Seq<EntryModel>, id: Seq<char>, i: int)
    requires
        0 <= i < symbols.len(),
    ensures
        has_symbol(symbols.take(i + 1), id) == (has_symbol(symbols.take(i), id)
            || symbols[i].symbol_id == id),
{
    let shorter = symbols.take(i);
    let longer = symbols.take(i + 1);
    if has_symbol(shorter, id) {
        let k = choose|k: int| 0 <= k < shorter.len() && (#[trigger] shorter[k]).symbol_id == id;
        assert(longer[k].symbol_id == id);
    }
    if symbols[i].symbol_id == id {
        assert(longer[i].symbol_id == id);
    }
    if has_symbol(longer, id) && symbols[i].symbol_id != id {
        let k = choose|k: int| 0 <= k < longer.len() && (#[trigger] longer[k]).symbol_id == id;
        assert(shorter[k].symbol_id == id);
    }
}

/// Whether a map holds the last of the first `count` events of every symbol.
spec fn holds_last(map: Map<Seq<char>, usize>, events: Seq<EventModel>, count: int) -> bool {
    forall|id: Seq<char>|
        match last_event(events, id, count) {
            Some(j) => #[trigger] map.contains_key(id) && map[id] == j,
            None => !map.contains_key(id),
        }
}

/// Whether a set holds the operation identities of the first `count` events.
spec fn holds_operations(set: Set<Seq<char>>, events: Seq<EventModel>, count: int) -> bool {
    forall|id: Seq<char>| #[trigger] set.contains(id) == has_operation(events, id, count)
}

spec fn has_operation(events: Seq<EventModel>, id: Seq<char>, count: int) -> bool {
    exists|k: int| 0 <= k < count && (#[trigger] events[k]).operation_id == id
}

proof fn lemma_operation_step(events: Seq<EventModel>, id: Seq<char>, i: int)
    requires
        0 <= i < events.len(),
    ensures
        has_operation(events, id, i + 1) == (has_operation(events, id, i)
            || events[i].operation_id == id),
{
    if has_operation(events, id, i) {
        let k = choose|k: int| 0 <= k < i && (#[trigger] events[k]).operation_id == id;
        assert(events[k].operation_id == id);
    }
    if has_operation(events, id, i + 1) && events[i].operation_id != id {
        let k = choose|k: int| 0 <= k < i + 1 && (#[trigger] events[k]).operation_id == id;
        assert(k < i);
    }
}

proof fn lemma_last_event(events: Seq<EventModel>, id: Seq<char>, count: int)
    ensures
        last_event(events, id, count) matches Some(j) ==> 0 <= j < count,
    decreases count,
{
    if count > 0 {
        lemma_last_event(events, id, count - 1);
    }
}

/// Whether two provenances are the same.
pub fn same_provenance(a: &NameProvenance, b: &NameProvenance) -> (r: bool)
    ensures
        r == (a@ == b@),
{
    same_text(a.origin.as_str(), b.origin.as_str()) && same_optional(&a.actor, &b.actor)
        && same_optional(&a.evidence_digest, &b.evidence_digest)
}

impl SemanticNameDocument {
    fn check_header(&self) -> (r: Result<(), NamingError>)
        ensures
            r == super::outcome(header_fault(self@)),
    {
        if !same_text(self.format.as_str(), FORMAT) || !same_text(
            self.instructions.as_str(),
            INSTRUCTIONS,
        ) {
            return Err(NamingError::Unsupported);
        }
        check_digest(self.analysis.source_digest.as_str())?;
        check_digest(self.analysis.analysis_digest.as_str())?;
        check_token(self.analysis.profile.as_str())?;
        check_token(self.analysis.producer.as_str())?;
        check_token(self.analysis.producer_version.as_str())?;
        check_token(self.analysis.language.as_str())?;
        check_token(self.analysis.frontend.as_str())?;
        check_token(self.analysis.frontend_version.as_str())?;
        assert(self@.symbols.len() == self.symbols@.len());
        assert(self@.events.len() == self.events@.len());
        if self.symbols.len() > MAX_SYMBOLS || self.events.len() > MAX_EVENTS {
            return Err(NamingError::RowLimits);
        }
        Ok(())
    }

    fn check_place(&self, i: usize) -> (r: Result<(), NamingError>)
        requires
            i < self.symbols@.len(),
        ensures
            r == super::outcome(place_fault(self@, i as int)),
    {
        let entry = &self.symbols[i];
        assert(self@.symbols[i as int] == entry@);
        check_digest(entry.symbol_id.as_str())?;
        check_digest(entry.scope.id.as_str())?;
        check_digest(entry.declaration.node_id.as_str())?;
        if i > 0 {
            assert(self@.symbols[i - 1] == self.symbols@[i - 1]@);
            if !comes_first(self.symbols[i - 1].symbol_id.as_str(), entry.symbol_id.as_str()) {
                return Err(NamingError::Unsorted);
            }
        }
        Ok(())
    }

    fn check_names(&self, i: usize, approved: &mut StringHashSet) -> (r: Result<(), NamingError>)
        requires
            i < self.symbols@.len(),
            keys_are_apart(self@.symbols, i as int),
            self@.symbols[i as int].scope.id.len() == 64,
            holds_approved(old(approved)@, self@.symbols, i as int),
        ensures
            r == super::outcome(names_fault(self@, i as int)),
            r is Ok ==> holds_approved(final(approved)@, self@.symbols, i + 1) && keys_are_apart(
                self@.symbols,
                i + 1,
            ),
    {
        let entry = &self.symbols[i];
        let ghost symbols = self@.symbols;
        let ghost before = approved@;
        assert(symbols[i as int] == entry@);
        check_state(entry.state, &entry.semantic_name)?;
        check_optional_name(&entry.semantic_name)?;
        if entry.state == NameState::Approved {
            if let Some(name) = &entry.semantic_name {
                let key = entry.scope.id.clone().concat(name.as_str());
                proof {
                    lemma_key_collides(symbols, i as int);
                    assert(key@ == approved_key(symbols[i as int]));
                }
                if !approved.insert(key) {
                    return Err(NamingError::Collision);
                }
            }
        }
        proof {
            assert forall|key: Seq<char>| #[trigger]
                approved@.contains(key) == is_approved_key(symbols, key, i + 1) by {
                lemma_approved_step(symbols, key, i as int);
                assert(before.contains(key) == is_approved_key(symbols, key, i as int));
            }
        }
        check_optional_name(&entry.generated_name)?;
        if self.redacted && entry.generated_name.is_some() {
            return Err(NamingError::RedactedName);
        }
        Ok(())
    }

    fn check_context(&self, i: usize) -> (r: Result<(), NamingError>)
        requires
            i < self.symbols@.len(),
        ensures
            r == super::outcome(context_fault(self@, i as int)),
    {
        let entry = &self.symbols[i];
        assert(self@.symbols[i as int] == entry@);
        assert(entry@.references.len() == entry.references@.len());
        assert(entry@.calls.len() == entry.calls@.len());
        assert(entry@.declaration.ancestor_kinds.len() == entry.declaration.ancestor_kinds@.len());
        assert(entry@.declaration.child_kinds.len() == entry.declaration.child_kinds@.len());
        if !fits_token(entry.kind.as_str()) || !fits_token(entry.scope.kind.as_str())
            || !fits_token(entry.declaration.kind.as_str()) || !all_tokens(
            &entry.scope.ancestor_kinds,
        ) || !all_tokens(&entry.declaration.ancestor_kinds) || !all_node_kinds(
            &entry.declaration.child_kinds,
        ) {
            return Err(NamingError::Token);
        }
        if entry.declaration.start_byte > entry.declaration.end_byte || entry.declaration.end_byte
            > self.analysis.source_length || entry.declaration.ancestor_kinds.len() > 6
            || entry.declaration.child_kinds.len() > 12 || entry.references.len() > 24
            || entry.calls.len() > 16 {
            return Err(NamingError::DeclarationContext);
        }
        check_references(&entry.references)?;
        check_calls(&entry.calls)
    }

    fn check_entries(&self) -> (r: Result<StringHashSet, NamingError>)
        ensures
            match (r, entries_fault(self@, 0)) {
                (Ok(known), None) => forall|id: Seq<char>| #[trigger]
                    known@.contains(id) == has_symbol(self@.symbols, id),
                (Err(error), Some(fault)) => error == fault,
                _ => false,
            },
    {
        let mut approved = StringHashSet::new();
        let mut known = StringHashSet::new();
        let ghost symbols = self@.symbols;
        let mut i: usize = 0;
        assert(symbols.len() == self.symbols@.len());
        while i < self.symbols.len()
            invariant
                symbols == self@.symbols,
                symbols.len() == self.symbols@.len(),
                i <= self.symbols@.len(),
                entries_fault(self@, 0) == entries_fault(self@, i as int),
                holds_approved(approved@, symbols, i as int),
                keys_are_apart(symbols, i as int),
                holds_symbols(known@, symbols, i as int),
            decreases self.symbols@.len() - i,
        {
            let entry = &self.symbols[i];
            assert(symbols[i as int] == entry@);
            match self.check_place(i) {
                Ok(()) => {},
                Err(error) => {
                    return Err(error);
                },
            }
            match self.check_names(i, &mut approved) {
                Ok(()) => {},
                Err(error) => {
                    return Err(error);
                },
            }
            match self.check_context(i) {
                Ok(()) => {},
                Err(error) => {
                    return Err(error);
                },
            }
            match &entry.provenance {
                Some(provenance) => match check_provenance(provenance) {
                    Ok(()) => {},
                    Err(error) => {
                        return Err(error);
                    },
                },
                None => {
                    if entry.state != NameState::Unknown {
                        return Err(NamingError::NoProvenance);
                    }
                },
            }
            let ghost before = known@;
            known.insert(entry.symbol_id.clone());
            proof {
                assert forall|id: Seq<char>| #[trigger]
                    known@.contains(id) == has_symbol(symbols.take(i + 1), id) by {
                    lemma_symbol_step(symbols, id, i as int);
                    assert(before.contains(id) == has_symbol(symbols.take(i as int), id));
                }
            }
            i += 1;
        }
        assert(symbols.take(i as int) =~= symbols);
        Ok(known)
    }

    fn check_event(
        &self,
        j: usize,
        known: &StringHashSet,
        operations: &StringHashSet,
        last: &StringHashMap<usize>,
    ) -> (r: Result<(), NamingError>)
        requires
            j < self.events@.len(),
            forall|id: Seq<char>| #[trigger]
                known@.contains(id) == has_symbol(self@.symbols, id),
            holds_operations(operations@, self@.events, j as int),
            holds_last(last@, self@.events, j as int),
        ensures
            r == super::outcome(event_fault(self@, j as int)),
    {
        let event = &self.events[j];
        let ghost events = self@.events;
        assert(events[j as int] == event@);
        assert(has_operation(events, event.operation_id@, j as int) == is_repeated(
            events,
            j as int,
        ));
        if event.revision == 0 || event.revision - 1 != j as u64 || operations.contains(event.operation_id.as_str()) {
            return Err(NamingError::EventHistory);
        }
        check_digest(event.operation_id.as_str())?;
        check_digest(event.symbol_id.as_str())?;
        check_provenance(&event.provenance)?;
        check_optional_name(&event.previous_name)?;
        check_optional_name(&event.new_name)?;
        check_state(event.new_state, &event.new_name)?;
        if !known.contains(event.symbol_id.as_str()) {
            return Err(NamingError::UnknownEventSymbol);
        }
        let none: Option<String> = None;
        proof {
            lemma_last_event(events, event.symbol_id@, j as int);
            assert(last@.contains_key(event.symbol_id@) == (last_event(
                events,
                event.symbol_id@,
                j as int,
            ) is Some));
        }
        let same = match last.get(event.symbol_id.as_str()) {
            Some(k) => {
                let earlier = &self.events[*k];
                assert(events[*k as int] == earlier@);
                earlier.new_state == event.previous_state && same_optional(
                    &earlier.new_name,
                    &event.previous_name,
                )
            },
            None => event.previous_state == NameState::Unknown && event.previous_name.is_none(),
        };
        if !same {
            return Err(NamingError::StaleEvent);
        }
        Ok(())
    }

    fn check_events(&self, known: &StringHashSet) -> (r: Result<
        StringHashMap<usize>,
        NamingError,
    >)
        requires
            forall|id: Seq<char>| #[trigger]
                known@.contains(id) == has_symbol(self@.symbols, id),
        ensures
            match (r, events_fault(self@, 0)) {
                (Ok(last), None) => holds_last(last@, self@.events, self@.events.len() as int),
                (Err(error), Some(fault)) => error == fault,
                _ => false,
            },
    {
        let mut operations = StringHashSet::new();
        let mut last: StringHashMap<usize> = StringHashMap::new();
        let ghost events = self@.events;
        let mut j: usize = 0;
        assert(events.len() == self.events@.len());
        while j < self.events.len()
            invariant
                events == self@.events,
                events.len() == self.events@.len(),
                j <= self.events@.len(),
                forall|id: Seq<char>| #[trigger]
                    known@.contains(id) == has_symbol(self@.symbols, id),
                events_fault(self@, 0) == events_fault(self@, j as int),
                holds_operations(operations@, events, j as int),
                holds_last(last@, events, j as int),
            decreases self.events@.len() - j,
        {
            match self.check_event(j, known, &operations, &last) {
                Ok(()) => {},
                Err(error) => {
                    return Err(error);
                },
            }
            let event = &self.events[j];
            assert(events[j as int] == event@);
            let ghost before = operations@;
            let ghost previous = last@;
            operations.insert(event.operation_id.clone());
            last.insert(event.symbol_id.clone(), j);
            proof {
                assert forall|id: Seq<char>| #[trigger]
                    operations@.contains(id) == has_operation(events, id, j + 1) by {
                    lemma_operation_step(events, id, j as int);
                    assert(before.contains(id) == has_operation(events, id, j as int));
                }
                assert forall|id: Seq<char>|
                    match last_event(events, id, j + 1) {
                        Some(k) => #[trigger] last@.contains_key(id) && last@[id] == k,
                        None => !last@.contains_key(id),
                    } by {
                    assert(previous.contains_key(id) == (last_event(
                        events,
                        id,
                        j as int,
                    ) is Some));
                }
            }
            j += 1;
        }
        Ok(last)
    }

    fn check_materialized(&self, last: &StringHashMap<usize>) -> (r: bool)
        requires
            holds_last(last@, self@.events, self@.events.len() as int),
        ensures
            r == all_materialized(self@),
    {
        let ghost symbols = self@.symbols;
        let ghost events = self@.events;
        let mut i: usize = 0;
        assert(symbols.len() == self.symbols@.len());
        assert(events.len() == self.events@.len());
        while i < self.symbols.len()
            invariant
                symbols == self@.symbols,
                events == self@.events,
                symbols.len() == self.symbols@.len(),
                events.len() == self.events@.len(),
                i <= self.symbols@.len(),
                holds_last(last@, events, events.len() as int),
                forall|k: int| 0 <= k < i ==> #[trigger] is_materialized(self@, k),
            decreases self.symbols@.len() - i,
        {
            let entry = &self.symbols[i];
            assert(symbols[i as int] == entry@);
            proof {
                lemma_last_event(events, entry.symbol_id@, events.len() as int);
                assert(last@.contains_key(entry.symbol_id@) == (last_event(
                    events,
                    entry.symbol_id@,
                    events.len() as int,
                ) is Some));
            }
            let same = match last.get(entry.symbol_id.as_str()) {
                Some(k) => {
                    let event = &self.events[*k];
                    assert(events[*k as int] == event@);
                    event.new_state == entry.state && same_optional(
                        &event.new_name,
                        &entry.semantic_name,
                    ) && match &entry.provenance {
                        Some(provenance) => same_provenance(&event.provenance, provenance),
                        None => false,
                    }
                },
                None => entry.state == NameState::Unknown && entry.semantic_name.is_none()
                    && entry.provenance.is_none(),
            };
            if !same {
                assert(!is_materialized(self@, i as int));
                return false;
            }
            i += 1;
        }
        true
    }

    /// Checks the rules that a document keeps by itself.
    pub fn validate(&self) -> (r: Result<(), NamingError>)
        ensures
            r == super::outcome(document_fault(self@)),
    {
        self.check_header()?;
        let known = match self.check_entries() {
            Ok(known) => known,
            Err(error) => {
                return Err(error);
            },
        };
        let last = match self.check_events(&known) {
            Ok(last) => last,
            Err(error) => {
                return Err(error);
            },
        };
        assert(self@.events.len() == self.events@.len());
        if self.revision != self.events.len() as u64 {
            return Err(NamingError::Revision);
        }
        if !self.check_materialized(&last) {
            return Err(NamingError::StateHistory);
        }
        Ok(())
    }
}

} // verus!
