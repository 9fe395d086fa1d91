//! Language-neutral analysis data: the tree shape, lexical scopes,
//! declarations, references and calls of one source artifact.

use vstd::prelude::*;
use vstd::string::*;
use vstd::utf8::*;

pub mod assemble;

pub mod calls;
pub mod cache;
pub mod cache_laws;
pub mod cache_messages;
pub mod check;
pub mod codes;
pub mod columns;
pub mod content_laws;
pub mod ids;
pub mod interner;
pub mod json;
pub mod json_laws;
pub mod laws;
pub mod messages;
pub mod references;
pub mod role_laws;
pub mod rows;
pub mod symbols;
pub mod validate;
pub mod validity_laws;
pub mod view;

pub use ids::{same_id, IdParts, StableId};
pub use validate::AnalysisError;

use crate::bytes;

verus! {

/// Version of the language-neutral analysis model.
pub const ANALYSIS_VERSION: u32 = 1;

/// Identity of the persisted analysis profile.
pub const ANALYSIS_PROFILE: &'static str = "astdiff.analysis.v1";

/// Name of the program that produces analyses.
pub const PRODUCER: &'static str = "astdiff";

/// Version of the program that produces analyses.
pub const PRODUCER_VERSION: &'static str = "0.1.0";

/// Parser identity.
pub const JAVASCRIPT_FRONTEND: &'static str = "tree-sitter-javascript";

/// Grammar crate version.
pub const JAVASCRIPT_FRONTEND_VERSION: &'static str = "0.20.4";

/// Supported source languages.
#[derive(Debug, Clone, Copy, PartialEq, Eq, Structural)]
pub enum Language {
    /// ECMAScript parsed by the JavaScript tree-sitter grammar.
    JavaScript,
}

/// One syntax node in deterministic pre-order.
#[derive(Debug, Clone, Copy, PartialEq, Eq)]
pub struct AnalysisNode {
    pub id: StableId,
    pub parent: Option<u32>,
    pub child_ordinal: u32,
    pub kind: u32,
    pub start_byte: u64,
    pub end_byte: u64,
    pub flags: u8,
}

/// Language-neutral lexical-scope categories.
#[derive(Debug, Clone, Copy, PartialEq, Eq, Structural)]
pub enum AnalysisScopeKind {
    Global,
    Function,
    Block,
    Class,
    Module,
}

/// One lexical scope. Row indexes are local references; `id` is the durable
/// artifact-local identity.
#[derive(Debug, Clone, Copy, PartialEq, Eq)]
pub struct AnalysisScope {
    pub id: StableId,
    pub parent: Option<u32>,
    pub kind: AnalysisScopeKind,
    pub depth: u32,
    pub start_byte: u64,
    pub end_byte: u64,
}

/// Language-neutral symbol categories.
#[derive(Debug, Clone, Copy, PartialEq, Eq, Structural)]
pub enum AnalysisSymbolKind {
    Function,
    Var,
    Let,
    Const,
    Parameter,
    Class,
    Import,
    Catch,
}

/// One lexical binding. Its identity never contains its spelling.
#[derive(Debug, Clone, Copy, PartialEq, Eq)]
pub struct AnalysisSymbol {
    pub id: StableId,
    pub declaration_node: u32,
    pub scope: u32,
    pub name: u32,
    pub kind: AnalysisSymbolKind,
    pub reference_first: u32,
    pub reference_count: u32,
}

/// The lexical operation performed by an identifier occurrence.
#[derive(Debug, Clone, Copy, PartialEq, Eq, Structural)]
pub enum AnalysisReferenceRole {
    Read,
    Write,
    ReadWrite,
    Call,
    Construct,
    Export,
}

/// One lexical identifier occurrence, ordered by resolved symbol then source.
#[derive(Debug, Clone, Copy, PartialEq, Eq)]
pub struct AnalysisReference {
    pub id: StableId,
    pub node: u32,
    pub scope: u32,
    pub name: u32,
    pub role: AnalysisReferenceRole,
}

/// Result of resolving a reference through lexical scope parents.
#[derive(Debug, Clone, Copy, PartialEq, Eq, Structural)]
pub enum AnalysisResolution {
    Resolved,
    Unresolved,
    Ambiguous,
}

/// One reference-to-symbol resolution record.
#[derive(Debug, Clone, Copy, PartialEq, Eq)]
pub struct AnalysisDefUse {
    pub id: StableId,
    pub reference: u32,
    pub symbol: Option<u32>,
    pub resolution: AnalysisResolution,
}

/// Static shape of a call expression.
#[derive(Debug, Clone, Copy, PartialEq, Eq, Structural)]
pub enum AnalysisCallKind {
    Direct,
    Member,
    Construct,
    Dynamic,
}

/// One direct, member, constructor, or dynamic call site.
#[derive(Debug, Clone, Copy, PartialEq, Eq)]
pub struct AnalysisCall {
    pub id: StableId,
    pub node: u32,
    pub callee_reference: Option<u32>,
    pub target_symbol: Option<u32>,
    pub property: Option<u32>,
    pub kind: AnalysisCallKind,
}

/// A capability deliberately absent from the analysis.
#[derive(Debug, Clone, Copy, PartialEq, Eq, Structural)]
pub enum LossCode {
    SourceMapLineageUnavailable,
    FingerprintEvidenceUnavailable,
    DynamicCallTargetUnavailable,
    TdzAndFlowResolutionUnavailable,
    DynamicScopeUnavailable,
}

/// Machine-readable loss record. `message` indexes the shared string table.
#[derive(Debug, Clone, Copy, PartialEq, Eq, Structural)]
pub struct LossRecord {
    pub code: LossCode,
    pub message: u32,
}

/// Deterministic language-neutral analysis of one source artifact.
#[derive(Debug, PartialEq, Eq)]
pub struct Analysis {
    pub version: u32,
    pub profile: String,
    pub producer: String,
    pub producer_version: String,
    pub language: Language,
    pub frontend: String,
    pub frontend_version: String,
    pub source_digest: [u8; 32],
    pub source_length: u64,
    pub strings: Vec<String>,
    pub nodes: Vec<AnalysisNode>,
    pub scopes: Vec<AnalysisScope>,
    pub symbols: Vec<AnalysisSymbol>,
    pub references: Vec<AnalysisReference>,
    pub def_uses: Vec<AnalysisDefUse>,
    pub calls: Vec<AnalysisCall>,
    pub losses: Vec<LossRecord>,
}

impl AnalysisScopeKind {
    /// The persisted number of a scope kind.
    pub open spec fn code_spec(self) -> u8 {
        match self {
            AnalysisScopeKind::Global => 1,
            AnalysisScopeKind::Function => 2,
            AnalysisScopeKind::Block => 3,
            AnalysisScopeKind::Class => 4,
            AnalysisScopeKind::Module => 5,
        }
    }

    pub fn code(self) -> (code: u8)
        ensures
            code == self.code_spec(),
    {
        match self {
            AnalysisScopeKind::Global => 1,
            AnalysisScopeKind::Function => 2,
            AnalysisScopeKind::Block => 3,
            AnalysisScopeKind::Class => 4,
            AnalysisScopeKind::Module => 5,
        }
    }
}

impl AnalysisSymbolKind {
    /// The persisted number of a symbol kind.
    pub open spec fn code_spec(self) -> u8 {
        match self {
            AnalysisSymbolKind::Function => 1,
            AnalysisSymbolKind::Var => 2,
            AnalysisSymbolKind::Let => 3,
            AnalysisSymbolKind::Const => 4,
            AnalysisSymbolKind::Parameter => 5,
            AnalysisSymbolKind::Class => 6,
            AnalysisSymbolKind::Import => 7,
            AnalysisSymbolKind::Catch => 8,
        }
    }

    pub fn code(self) -> (code: u8)
        ensures
            code == self.code_spec(),
    {
        match self {
            AnalysisSymbolKind::Function => 1,
            AnalysisSymbolKind::Var => 2,
            AnalysisSymbolKind::Let => 3,
            AnalysisSymbolKind::Const => 4,
            AnalysisSymbolKind::Parameter => 5,
            AnalysisSymbolKind::Class => 6,
            AnalysisSymbolKind::Import => 7,
            AnalysisSymbolKind::Catch => 8,
        }
    }
}

impl AnalysisReferenceRole {
    /// The persisted number of a reference role.
    pub open spec fn code_spec(self) -> u8 {
        match self {
            AnalysisReferenceRole::Read => 1,
            AnalysisReferenceRole::Write => 2,
            AnalysisReferenceRole::ReadWrite => 3,
            AnalysisReferenceRole::Call => 4,
            AnalysisReferenceRole::Construct => 5,
            AnalysisReferenceRole::Export => 6,
        }
    }

    pub fn code(self) -> (code: u8)
        ensures
            code == self.code_spec(),
    {
        match self {
            AnalysisReferenceRole::Read => 1,
            AnalysisReferenceRole::Write => 2,
            AnalysisReferenceRole::ReadWrite => 3,
            AnalysisReferenceRole::Call => 4,
            AnalysisReferenceRole::Construct => 5,
            AnalysisReferenceRole::Export => 6,
        }
    }
}

impl AnalysisResolution {
    /// The persisted number of a resolution.
    pub open spec fn code_spec(self) -> u8 {
        match self {
            AnalysisResolution::Resolved => 1,
            AnalysisResolution::Unresolved => 2,
            AnalysisResolution::Ambiguous => 3,
        }
    }

    pub fn code(self) -> (code: u8)
        ensures
            code == self.code_spec(),
    {
        match self {
            AnalysisResolution::Resolved => 1,
            AnalysisResolution::Unresolved => 2,
            AnalysisResolution::Ambiguous => 3,
        }
    }
}

impl AnalysisCallKind {
    /// The persisted number of a call kind.
    pub open spec fn code_spec(self) -> u8 {
        match self {
            AnalysisCallKind::Direct => 1,
            AnalysisCallKind::Member => 2,
            AnalysisCallKind::Construct => 3,
            AnalysisCallKind::Dynamic => 4,
        }
    }

    pub fn code(self) -> (code: u8)
        ensures
            code == self.code_spec(),
    {
        match self {
            AnalysisCallKind::Direct => 1,
            AnalysisCallKind::Member => 2,
            AnalysisCallKind::Construct => 3,
            AnalysisCallKind::Dynamic => 4,
        }
    }
}

impl LossCode {
    /// The persisted number of a loss.
    pub open spec fn code_spec(self) -> u16 {
        match self {
            LossCode::SourceMapLineageUnavailable => 1,
            LossCode::FingerprintEvidenceUnavailable => 2,
            LossCode::DynamicCallTargetUnavailable => 3,
            LossCode::TdzAndFlowResolutionUnavailable => 4,
            LossCode::DynamicScopeUnavailable => 5,
        }
    }

    pub fn code(self) -> (code: u16)
        ensures
            code == self.code_spec(),
    {
        match self {
            LossCode::SourceMapLineageUnavailable => 1,
            LossCode::FingerprintEvidenceUnavailable => 2,
            LossCode::DynamicCallTargetUnavailable => 3,
            LossCode::TdzAndFlowResolutionUnavailable => 4,
            LossCode::DynamicScopeUnavailable => 5,
        }
    }
}

/// The row number that stands for a missing row.
pub open spec fn row_or_none(row: Option<u32>) -> u32 {
    match row {
        Some(row) => row,
        None => u32::MAX,
    }
}

pub(crate) fn row_number(row: Option<u32>) -> (number: u32)
    ensures
        number == row_or_none(row),
{
    match row {
        Some(row) => row,
        None => u32::MAX,
    }
}

/// The identity of a syntax node: its place under its parent, its kind and
/// its flags.
pub open spec fn node_id_of(
    parent: Option<u32>,
    child_ordinal: u32,
    kind: Seq<char>,
    flags: u8,
) -> Seq<u8> {
    ids::stable_id_of(
        encode_utf8("astdiff/node/v1"@),
        seq![
            bytes::le_bytes(row_or_none(parent) as int, 4),
            bytes::le_bytes(child_ordinal as int, 4),
            encode_utf8(kind),
            seq![flags],
        ],
    )
}

/// The identity of a scope: its parent, kind, depth and span.
pub open spec fn scope_id_of(
    parent: Option<u32>,
    kind: AnalysisScopeKind,
    depth: u32,
    start_byte: u64,
    end_byte: u64,
) -> Seq<u8> {
    ids::stable_id_of(
        encode_utf8("astdiff/scope/v1"@),
        seq![
            bytes::le_bytes(row_or_none(parent) as int, 4),
            seq![kind.code_spec()],
            bytes::le_bytes(depth as int, 4),
            bytes::le_bytes(start_byte as int, 8),
            bytes::le_bytes(end_byte as int, 8),
        ],
    )
}

/// The identity of a symbol: its declaration node and kind, not its name.
pub open spec fn symbol_id_of(declaration: Seq<u8>, kind: AnalysisSymbolKind) -> Seq<u8> {
    ids::stable_id_of(
        encode_utf8("astdiff/symbol/v1"@),
        seq![declaration, seq![kind.code_spec()]],
    )
}

/// The identity of a reference: its node and role.
pub open spec fn reference_id_of(node: Seq<u8>, role: AnalysisReferenceRole) -> Seq<u8> {
    ids::stable_id_of(
        encode_utf8("astdiff/reference/v1"@),
        seq![node, seq![role.code_spec()]],
    )
}

/// The identity of a resolution: reference, target and outcome.
pub open spec fn def_use_id_of(
    reference: Seq<u8>,
    target: Seq<u8>,
    resolution: AnalysisResolution,
) -> Seq<u8> {
    ids::stable_id_of(
        encode_utf8("astdiff/def-use/v1"@),
        seq![reference, target, seq![resolution.code_spec()]],
    )
}

/// The identity of a call: node, kind, callee resolution, target, property.
pub open spec fn call_id_of(
    node: Seq<u8>,
    kind: AnalysisCallKind,
    callee: Seq<u8>,
    target: Seq<u8>,
    property: Option<u32>,
) -> Seq<u8> {
    ids::stable_id_of(
        encode_utf8("astdiff/call/v1"@),
        seq![
            node,
            seq![kind.code_spec()],
            callee,
            target,
            bytes::le_bytes(row_or_none(property) as int, 4),
        ],
    )
}

/// The identity that stands for a missing row.
pub open spec fn no_id() -> Seq<u8> {
    Seq::new(32, |i: int| 0u8)
}

/// The identity that stands for a missing row.
pub fn missing_id() -> (id: StableId)
    ensures
        id.0@ == no_id(),
{
    let id = StableId([0; 32]);
    assert(id.0@ =~= no_id());
    id
}

pub fn node_id(parent: Option<u32>, child_ordinal: u32, kind: &str, flags: u8) -> (id: StableId)
    ensures
        id.0@ == node_id_of(parent, child_ordinal, kind@, flags),
{
    let parts = IdParts::new("astdiff/node/v1")
        .push_u32(row_number(parent))
        .push_u32(child_ordinal)
        .push(kind.as_bytes())
        .push_u8(flags);
    assert(parts.parts() =~= seq![bytes::le_bytes(row_or_none(parent) as int, 4), bytes::le_bytes(child_ordinal as int, 4), encode_utf8(kind@), seq![flags]]);
    parts.finish()
}

pub fn scope_id(
    parent: Option<u32>,
    kind: AnalysisScopeKind,
    depth: u32,
    start_byte: u64,
    end_byte: u64,
) -> (id: StableId)
    ensures
        id.0@ == scope_id_of(parent, kind, depth, start_byte, end_byte),
{
    let parts = IdParts::new("astdiff/scope/v1")
        .push_u32(row_number(parent))
        .push_u8(kind.code())
        .push_u32(depth)
        .push_u64(start_byte)
        .push_u64(end_byte);
    assert(parts.parts() =~= seq![bytes::le_bytes(row_or_none(parent) as int, 4), seq![kind.code_spec()], bytes::le_bytes(depth as int, 4), bytes::le_bytes(start_byte as int, 8), bytes::le_bytes(end_byte as int, 8)]);
    parts.finish()
}

pub fn symbol_id(declaration: &StableId, kind: AnalysisSymbolKind) -> (id: StableId)
    ensures
        id.0@ == symbol_id_of(declaration.0@, kind),
{
    let parts = IdParts::new("astdiff/symbol/v1")
        .push(declaration.0.as_slice())
        .push_u8(kind.code());
    assert(parts.parts() =~= seq![declaration.0@, seq![kind.code_spec()]]);
    parts.finish()
}

pub fn reference_id(node: &StableId, role: AnalysisReferenceRole) -> (id: StableId)
    ensures
        id.0@ == reference_id_of(node.0@, role),
{
    let parts = IdParts::new("astdiff/reference/v1")
        .push(node.0.as_slice())
        .push_u8(role.code());
    assert(parts.parts() =~= seq![node.0@, seq![role.code_spec()]]);
    parts.finish()
}

pub fn def_use_id(
    reference: &StableId,
    target: &StableId,
    resolution: AnalysisResolution,
) -> (id: StableId)
    ensures
        id.0@ == def_use_id_of(reference.0@, target.0@, resolution),
{
    let parts = IdParts::new("astdiff/def-use/v1")
        .push(reference.0.as_slice())
        .push(target.0.as_slice())
        .push_u8(resolution.code());
    assert(parts.parts() =~= seq![reference.0@, target.0@, seq![resolution.code_spec()]]);
    parts.finish()
}

pub fn call_id(
    node: &StableId,
    kind: AnalysisCallKind,
    callee: &StableId,
    target: &StableId,
    property: Option<u32>,
) -> (id: StableId)
    ensures
        id.0@ == call_id_of(node.0@, kind, callee.0@, target.0@, property),
{
    let parts = IdParts::new("astdiff/call/v1")
        .push(node.0.as_slice())
        .push_u8(kind.code())
        .push(callee.0.as_slice())
        .push(target.0.as_slice())
        .push_u32(row_number(property));
    assert(parts.parts() =~= seq![node.0@, seq![kind.code_spec()], callee.0@, target.0@, bytes::le_bytes(row_or_none(property) as int, 4)]);
    parts.finish()
}

/// A symbol's identity does not depend on its spelling: two symbols with the
/// same declaration identity and kind have the same identity, whatever their
/// names and scopes are.
pub proof fn law_symbol_identity_ignores_names(a: AnalysisSymbol, b: AnalysisSymbol, da: Seq<u8>, db: Seq<u8>)
    requires
        a.id.0@ == symbol_id_of(da, a.kind),
        b.id.0@ == symbol_id_of(db, b.kind),
        da == db,
        a.kind == b.kind,
    ensures
        a.id == b.id,
{
    assert(a.id.0 =~= b.id.0);
}

} // verus!
