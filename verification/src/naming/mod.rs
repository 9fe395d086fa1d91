//! Strict, bounded documents for semantic-name review and propagation.
//!
//! A document lists the symbols of one analysis without their source text. A
//! name is suggested for a symbol, and approved, rejected or cleared; every
//! change is an event of the document's history.

use vstd::prelude::*;
use vstd::string::*;

use crate::analysis::AnalysisError;
use crate::lineage::LineageError;
use crate::text;

pub mod document;
pub mod edit;
pub mod labels;
pub mod laws;
pub mod messages;
pub mod propagate;
pub mod rules;

pub use propagate::{
    propagate_approved_names, propagate_approved_names_with_source_maps, SourceMapPropagationInputs,
};


verus! {

/// Identity of the document format.
pub const FORMAT: &'static str = "astdiff.semantic-name-review.v1";

/// What a document tells its reader.
pub const INSTRUCTIONS: &'static str =
    "Assign suggestions with the names set command; suggestions require explicit approval before propagation.";

/// How many symbols a document may hold.
pub const MAX_SYMBOLS: usize = 1_000_000;

/// How many events a document may hold.
pub const MAX_EVENTS: usize = 8_000_000;

/// Why a document or a change to it was refused.
#[derive(Debug, Clone, Copy, PartialEq, Eq, Structural)]
pub enum NamingError {
    Analysis(AnalysisError),
    Lineage(LineageError),
    Unsupported,
    Digest,
    Token,
    Text,
    RowLimits,
    Unsorted,
    StateName,
    Collision,
    RedactedName,
    DeclarationContext,
    NoProvenance,
    EventHistory,
    UnknownEventSymbol,
    StaleEvent,
    Revision,
    StateHistory,
    DifferentAnalysis,
    SymbolSet,
    ContextModified,
    UnknownSymbol,
    InvalidTransition,
    RevisionOverflow,
}

/// What is decided about a symbol's name.
#[derive(Debug, Clone, Copy, PartialEq, Eq, Structural)]
pub enum NameState {
    Unknown,
    Suggested,
    Approved,
    Rejected,
    Cleared,
}

impl NameState {
    /// The number of a state in operation identities.
    pub open spec fn code_spec(self) -> u8 {
        match self {
            NameState::Unknown => 0,
            NameState::Suggested => 1,
            NameState::Approved => 2,
            NameState::Rejected => 3,
            NameState::Cleared => 4,
        }
    }

    pub fn code(self) -> (code: u8)
        ensures
            code == self.code_spec(),
    {
        match self {
            NameState::Unknown => 0,
            NameState::Suggested => 1,
            NameState::Approved => 2,
            NameState::Rejected => 3,
            NameState::Cleared => 4,
        }
    }
}

/// Who or what a decision came from.
#[derive(Debug, Clone, PartialEq, Eq)]
pub struct NameProvenance {
    pub origin: String,
    pub actor: Option<String>,
    pub evidence_digest: Option<String>,
}

/// The analysis that a document belongs to.
#[derive(Debug, Clone, PartialEq, Eq)]
pub struct NamingIdentity {
    pub profile: String,
    pub format_version: u32,
    pub source_digest: String,
    pub analysis_digest: String,
    pub producer: String,
    pub producer_version: String,
    pub language: String,
    pub frontend: String,
    pub frontend_version: String,
    pub source_length: u64,
}

/// One change of a symbol's name.
#[derive(Debug, Clone, PartialEq, Eq)]
pub struct NameEvent {
    pub operation_id: String,
    pub revision: u64,
    pub symbol_id: String,
    pub previous_state: NameState,
    pub previous_name: Option<String>,
    pub new_state: NameState,
    pub new_name: Option<String>,
    pub provenance: NameProvenance,
}

/// The scope of a symbol.
#[derive(Debug, Clone, PartialEq, Eq)]
pub struct NamingScope {
    pub id: String,
    pub kind: String,
    pub depth: u32,
    pub ancestor_kinds: Vec<String>,
}

/// The declaration of a symbol.
#[derive(Debug, Clone, PartialEq, Eq)]
pub struct NamingDeclaration {
    pub node_id: String,
    pub kind: String,
    pub start_byte: u64,
    pub end_byte: u64,
    pub ancestor_kinds: Vec<String>,
    pub child_kinds: Vec<String>,
    pub truncated: bool,
}

/// How often a symbol is used in which way.
#[derive(Debug, Clone, Copy, PartialEq, Eq, Structural)]
pub struct NamingUsage {
    pub reference_count: u32,
    pub read: u32,
    pub write: u32,
    pub read_write: u32,
    pub call: u32,
    pub construct: u32,
    pub export: u32,
    pub resolved: u32,
    pub unresolved: u32,
    pub ambiguous: u32,
    pub direct_calls: u32,
    pub member_calls: u32,
    pub constructor_calls: u32,
    pub dynamic_calls: u32,
}

/// One use of a symbol.
#[derive(Debug, Clone, PartialEq, Eq)]
pub struct NamingReferenceContext {
    pub node_id: String,
    pub role: String,
    pub resolution: String,
    pub parent_kind: String,
    pub target_symbol_id: Option<String>,
}

/// One call of a symbol.
#[derive(Debug, Clone, PartialEq, Eq)]
pub struct NamingCallContext {
    pub node_id: String,
    pub kind: String,
    pub target_symbol_id: Option<String>,
}

/// One symbol of a document.
#[derive(Debug, Clone, PartialEq, Eq)]
pub struct SemanticNameEntry {
    pub symbol_id: String,
    pub state: NameState,
    pub semantic_name: Option<String>,
    pub generated_name: Option<String>,
    pub kind: String,
    pub scope: NamingScope,
    pub declaration: NamingDeclaration,
    pub usage: NamingUsage,
    pub references: Vec<NamingReferenceContext>,
    pub references_truncated: bool,
    pub calls: Vec<NamingCallContext>,
    pub calls_truncated: bool,
    pub provenance: Option<NameProvenance>,
}

/// The names of one analysis under review.
#[derive(Debug, Clone, PartialEq, Eq)]
pub struct SemanticNameDocument {
    pub format: String,
    pub revision: u64,
    pub instructions: String,
    pub analysis: NamingIdentity,
    pub redacted: bool,
    pub symbols: Vec<SemanticNameEntry>,
    pub events: Vec<NameEvent>,
}

/// The model of a [`NameProvenance`].
pub struct ProvenanceModel {
    pub origin: Seq<char>,
    pub actor: Option<Seq<char>>,
    pub evidence_digest: Option<Seq<char>>,
}

/// The model of a [`NamingIdentity`].
pub struct IdentityModel {
    pub profile: Seq<char>,
    pub format_version: u32,
    pub source_digest: Seq<char>,
    pub analysis_digest: Seq<char>,
    pub producer: Seq<char>,
    pub producer_version: Seq<char>,
    pub language: Seq<char>,
    pub frontend: Seq<char>,
    pub frontend_version: Seq<char>,
    pub source_length: u64,
}

/// The model of a [`NameEvent`].
pub struct EventModel {
    pub operation_id: Seq<char>,
    pub revision: u64,
    pub symbol_id: Seq<char>,
    pub previous_state: NameState,
    pub previous_name: Option<Seq<char>>,
    pub new_state: NameState,
    pub new_name: Option<Seq<char>>,
    pub provenance: ProvenanceModel,
}

/// The model of a [`NamingScope`].
pub struct ScopeModel {
    pub id: Seq<char>,
    pub kind: Seq<char>,
    pub depth: u32,
    pub ancestor_kinds: Seq<Seq<char>>,
}

/// The model of a [`NamingDeclaration`].
pub struct DeclarationModel {
    pub node_id: Seq<char>,
    pub kind: Seq<char>,
    pub start_byte: u64,
    pub end_byte: u64,
    pub ancestor_kinds: Seq<Seq<char>>,
    pub child_kinds: Seq<Seq<char>>,
    pub truncated: bool,
}

/// The model of a [`NamingReferenceContext`].
pub struct ReferenceModel {
    pub node_id: Seq<char>,
    pub role: Seq<char>,
    pub resolution: Seq<char>,
    pub parent_kind: Seq<char>,
    pub target_symbol_id: Option<Seq<char>>,
}

/// The model of a [`NamingCallContext`].
pub struct CallModel {
    pub node_id: Seq<char>,
    pub kind: Seq<char>,
    pub target_symbol_id: Option<Seq<char>>,
}

/// The model of a [`SemanticNameEntry`].
pub struct EntryModel {
    pub symbol_id: Seq<char>,
    pub state: NameState,
    pub semantic_name: Option<Seq<char>>,
    pub generated_name: Option<Seq<char>>,
    pub kind: Seq<char>,
    pub scope: ScopeModel,
    pub declaration: DeclarationModel,
    pub usage: NamingUsage,
    pub references: Seq<ReferenceModel>,
    pub references_truncated: bool,
    pub calls: Seq<CallModel>,
    pub calls_truncated: bool,
    pub provenance: Option<ProvenanceModel>,
}

/// The model of a [`SemanticNameDocument`].
pub struct DocumentModel {
    pub format: Seq<char>,
    pub revision: u64,
    pub instructions: Seq<char>,
    pub analysis: IdentityModel,
    pub redacted: bool,
    pub symbols: Seq<EntryModel>,
    pub events: Seq<EventModel>,
}

impl View for NameProvenance {
    type V = ProvenanceModel;

    open spec fn view(&self) -> ProvenanceModel {
        ProvenanceModel {
            origin: self.origin@,
            actor: text::optional_view(self.actor),
            evidence_digest: text::optional_view(self.evidence_digest),
        }
    }
}

impl View for NamingIdentity {
    type V = IdentityModel;

    open spec fn view(&self) -> IdentityModel {
        IdentityModel {
            profile: self.profile@,
            format_version: self.format_version,
            source_digest: self.source_digest@,
            analysis_digest: self.analysis_digest@,
            producer: self.producer@,
            producer_version: self.producer_version@,
            language: self.language@,
            frontend: self.frontend@,
            frontend_version: self.frontend_version@,
            source_length: self.source_length,
        }
    }
}

impl View for NameEvent {
    type V = EventModel;

    open spec fn view(&self) -> EventModel {
        EventModel {
            operation_id: self.operation_id@,
            revision: self.revision,
            symbol_id: self.symbol_id@,
            previous_state: self.previous_state,
            previous_name: text::optional_view(self.previous_name),
            new_state: self.new_state,
            new_name: text::optional_view(self.new_name),
            provenance: self.provenance@,
        }
    }
}

impl View for NamingScope {
    type V = ScopeModel;

    open spec fn view(&self) -> ScopeModel {
        ScopeModel {
            id: self.id@,
            kind: self.kind@,
            depth: self.depth,
            ancestor_kinds: text::views(self.ancestor_kinds@),
        }
    }
}

impl View for NamingDeclaration {
    type V = DeclarationModel;

    open spec fn view(&self) -> DeclarationModel {
        DeclarationModel {
            node_id: self.node_id@,
            kind: self.kind@,
            start_byte: self.start_byte,
            end_byte: self.end_byte,
            ancestor_kinds: text::views(self.ancestor_kinds@),
            child_kinds: text::views(self.child_kinds@),
            truncated: self.truncated,
        }
    }
}

impl View for NamingReferenceContext {
    type V = ReferenceModel;

    open spec fn view(&self) -> ReferenceModel {
        ReferenceModel {
            node_id: self.node_id@,
            role: self.role@,
            resolution: self.resolution@,
            parent_kind: self.parent_kind@,
            target_symbol_id: text::optional_view(self.target_symbol_id),
        }
    }
}

impl View for NamingCallContext {
    type V = CallModel;

    open spec fn view(&self) -> CallModel {
        CallModel {
            node_id: self.node_id@,
            kind: self.kind@,
            target_symbol_id: text::optional_view(self.target_symbol_id),
        }
    }
}

/// Uses seen as their models.
pub open spec fn reference_views(list: Seq<NamingReferenceContext>) -> Seq<ReferenceModel> {
    list.map_values(|reference: NamingReferenceContext| reference@)
}

/// Calls seen as their models.
pub open spec fn call_views(list: Seq<NamingCallContext>) -> Seq<CallModel> {
    list.map_values(|call: NamingCallContext| call@)
}

/// A provenance that may be missing.
pub open spec fn provenance_view(provenance: Option<NameProvenance>) -> Option<ProvenanceModel> {
    match provenance {
        Some(provenance) => Some(provenance@),
        None => None,
    }
}

impl View for SemanticNameEntry {
    type V = EntryModel;

    open spec fn view(&self) -> EntryModel {
        EntryModel {
            symbol_id: self.symbol_id@,
            state: self.state,
            semantic_name: text::optional_view(self.semantic_name),
            generated_name: text::optional_view(self.generated_name),
            kind: self.kind@,
            scope: self.scope@,
            declaration: self.declaration@,
            usage: self.usage,
            references: reference_views(self.references@),
            references_truncated: self.references_truncated,
            calls: call_views(self.calls@),
            calls_truncated: self.calls_truncated,
            provenance: provenance_view(self.provenance),
        }
    }
}

/// Entries seen as their models.
pub open spec fn entry_views(list: Seq<SemanticNameEntry>) -> Seq<EntryModel> {
    list.map_values(|entry: SemanticNameEntry| entry@)
}

/// Events seen as their models.
pub open spec fn event_views(list: Seq<NameEvent>) -> Seq<EventModel> {
    list.map_values(|event: NameEvent| event@)
}

impl View for SemanticNameDocument {
    type V = DocumentModel;

    open spec fn view(&self) -> DocumentModel {
        DocumentModel {
            format: self.format@,
            revision: self.revision,
            instructions: self.instructions@,
            analysis: self.analysis@,
            redacted: self.redacted,
            symbols: entry_views(self.symbols@),
            events: event_views(self.events@),
        }
    }
}

/// The first of two faults.
pub open spec fn or_fault(first: Option<NamingError>, second: Option<NamingError>) -> Option<
    NamingError,
> {
    if first is Some {
        first
    } else {
        second
    }
}

/// A fault where a condition holds.
pub open spec fn fault_if(condition: bool, fault: NamingError) -> Option<NamingError> {
    if condition {
        Some(fault)
    } else {
        None
    }
}

/// A fault as the outcome of a check.
pub open spec fn outcome(fault: Option<NamingError>) -> Result<(), NamingError> {
    match fault {
        Some(fault) => Err(fault),
        None => Ok(()),
    }
}

} // verus!
