//! How kinds are labelled in documents.

use vstd::prelude::*;
use vstd::string::*;

use crate::analysis::{
    AnalysisCallKind, AnalysisReferenceRole, AnalysisResolution, AnalysisScopeKind,
    AnalysisSymbolKind, Language,
};

verus! {

/// The label of a scope kind.
pub open spec fn scope_label_of(value: AnalysisScopeKind) -> Seq<char> {
    match value {
        AnalysisScopeKind::Global => "global"@,
        AnalysisScopeKind::Function => "function"@,
        AnalysisScopeKind::Block => "block"@,
        AnalysisScopeKind::Class => "class"@,
        AnalysisScopeKind::Module => "module"@,
    }
}

pub fn scope_label(value: AnalysisScopeKind) -> (label: &'static str)
    ensures
        label@ == scope_label_of(value),
{
    match value {
        AnalysisScopeKind::Global => "global",
        AnalysisScopeKind::Function => "function",
        AnalysisScopeKind::Block => "block",
        AnalysisScopeKind::Class => "class",
        AnalysisScopeKind::Module => "module",
    }
}

/// The label of a symbol kind.
pub open spec fn symbol_label_of(value: AnalysisSymbolKind) -> Seq<char> {
    match value {
        AnalysisSymbolKind::Function => "function"@,
        AnalysisSymbolKind::Var => "var"@,
        AnalysisSymbolKind::Let => "let"@,
        AnalysisSymbolKind::Const => "const"@,
        AnalysisSymbolKind::Parameter => "parameter"@,
        AnalysisSymbolKind::Class => "class"@,
        AnalysisSymbolKind::Import => "import"@,
        AnalysisSymbolKind::Catch => "catch"@,
    }
}

pub fn symbol_label(value: AnalysisSymbolKind) -> (label: &'static str)
    ensures
        label@ == symbol_label_of(value),
{
    match value {
        AnalysisSymbolKind::Function => "function",
        AnalysisSymbolKind::Var => "var",
        AnalysisSymbolKind::Let => "let",
        AnalysisSymbolKind::Const => "const",
        AnalysisSymbolKind::Parameter => "parameter",
        AnalysisSymbolKind::Class => "class",
        AnalysisSymbolKind::Import => "import",
        AnalysisSymbolKind::Catch => "catch",
    }
}

/// The label of a reference role.
pub open spec fn role_label_of(value: AnalysisReferenceRole) -> Seq<char> {
    match value {
        AnalysisReferenceRole::Read => "read"@,
        AnalysisReferenceRole::Write => "write"@,
        AnalysisReferenceRole::ReadWrite => "readwrite"@,
        AnalysisReferenceRole::Call => "call"@,
        AnalysisReferenceRole::Construct => "construct"@,
        AnalysisReferenceRole::Export => "export"@,
    }
}

pub fn role_label(value: AnalysisReferenceRole) -> (label: &'static str)
    ensures
        label@ == role_label_of(value),
{
    match value {
        AnalysisReferenceRole::Read => "read",
        AnalysisReferenceRole::Write => "write",
        AnalysisReferenceRole::ReadWrite => "readwrite",
        AnalysisReferenceRole::Call => "call",
        AnalysisReferenceRole::Construct => "construct",
        AnalysisReferenceRole::Export => "export",
    }
}

/// The label of a resolution.
pub open spec fn resolution_label_of(value: AnalysisResolution) -> Seq<char> {
    match value {
        AnalysisResolution::Resolved => "resolved"@,
        AnalysisResolution::Unresolved => "unresolved"@,
        AnalysisResolution::Ambiguous => "ambiguous"@,
    }
}

pub fn resolution_label(value: AnalysisResolution) -> (label: &'static str)
    ensures
        label@ == resolution_label_of(value),
{
    match value {
        AnalysisResolution::Resolved => "resolved",
        AnalysisResolution::Unresolved => "unresolved",
        AnalysisResolution::Ambiguous => "ambiguous",
    }
}

/// The label of a call kind.
pub open spec fn call_label_of(value: AnalysisCallKind) -> Seq<char> {
    match value {
        AnalysisCallKind::Direct => "direct"@,
        AnalysisCallKind::Member => "member"@,
        AnalysisCallKind::Construct => "construct"@,
        AnalysisCallKind::Dynamic => "dynamic"@,
    }
}

pub fn call_label(value: AnalysisCallKind) -> (label: &'static str)
    ensures
        label@ == call_label_of(value),
{
    match value {
        AnalysisCallKind::Direct => "direct",
        AnalysisCallKind::Member => "member",
        AnalysisCallKind::Construct => "construct",
        AnalysisCallKind::Dynamic => "dynamic",
    }
}

/// The label of a language.
pub open spec fn language_label_of(value: Language) -> Seq<char> {
    match value {
        Language::JavaScript => "javascript"@,
    }
}

pub fn language_label(value: Language) -> (label: &'static str)
    ensures
        label@ == language_label_of(value),
{
    match value {
        Language::JavaScript => "javascript",
    }
}

} // verus!
