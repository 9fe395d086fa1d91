//! The persisted numbers of kinds, read back.

use vstd::prelude::*;

use super::{
    AnalysisCallKind, AnalysisReferenceRole, AnalysisResolution, AnalysisScopeKind,
    AnalysisSymbolKind, LossCode,
};

verus! {

impl AnalysisScopeKind {
    /// The scope kind of a persisted number.
    pub open spec fn from_code_spec(code: u8) -> Option<AnalysisScopeKind> {
        match code {
            1 => Some(AnalysisScopeKind::Global),
            2 => Some(AnalysisScopeKind::Function),
            3 => Some(AnalysisScopeKind::Block),
            4 => Some(AnalysisScopeKind::Class),
            5 => Some(AnalysisScopeKind::Module),
            _ => None,
        }
    }

    pub fn from_code(code: u8) -> (r: Option<AnalysisScopeKind>)
        ensures
            r == AnalysisScopeKind::from_code_spec(code),
    {
        match code {
            1 => Some(AnalysisScopeKind::Global),
            2 => Some(AnalysisScopeKind::Function),
            3 => Some(AnalysisScopeKind::Block),
            4 => Some(AnalysisScopeKind::Class),
            5 => Some(AnalysisScopeKind::Module),
            _ => None,
        }
    }
}

impl AnalysisSymbolKind {
    /// The symbol kind of a persisted number.
    pub open spec fn from_code_spec(code: u8) -> Option<AnalysisSymbolKind> {
        match code {
            1 => Some(AnalysisSymbolKind::Function),
            2 => Some(AnalysisSymbolKind::Var),
            3 => Some(AnalysisSymbolKind::Let),
            4 => Some(AnalysisSymbolKind::Const),
            5 => Some(AnalysisSymbolKind::Parameter),
            6 => Some(AnalysisSymbolKind::Class),
            7 => Some(AnalysisSymbolKind::Import),
            8 => Some(AnalysisSymbolKind::Catch),
            _ => None,
        }
    }

    pub fn from_code(code: u8) -> (r: Option<AnalysisSymbolKind>)
        ensures
            r == AnalysisSymbolKind::from_code_spec(code),
    {
        match code {
            1 => Some(AnalysisSymbolKind::Function),
            2 => Some(AnalysisSymbolKind::Var),
            3 => Some(AnalysisSymbolKind::Let),
            4 => Some(AnalysisSymbolKind::Const),
            5 => Some(AnalysisSymbolKind::Parameter),
            6 => Some(AnalysisSymbolKind::Class),
            7 => Some(AnalysisSymbolKind::Import),
            8 => Some(AnalysisSymbolKind::Catch),
            _ => None,
        }
    }
}

impl AnalysisReferenceRole {
    /// The reference role of a persisted number.
    pub open spec fn from_code_spec(code: u8) -> Option<AnalysisReferenceRole> {
        match code {
            1 => Some(AnalysisReferenceRole::Read),
            2 => Some(AnalysisReferenceRole::Write),
            3 => Some(AnalysisReferenceRole::ReadWrite),
            4 => Some(AnalysisReferenceRole::Call),
            5 => Some(AnalysisReferenceRole::Construct),
            6 => Some(AnalysisReferenceRole::Export),
            _ => None,
        }
    }

    pub fn from_code(code: u8) -> (r: Option<AnalysisReferenceRole>)
        ensures
            r == AnalysisReferenceRole::from_code_spec(code),
    {
        match code {
            1 => Some(AnalysisReferenceRole::Read),
            2 => Some(AnalysisReferenceRole::Write),
            3 => Some(AnalysisReferenceRole::ReadWrite),
            4 => Some(AnalysisReferenceRole::Call),
            5 => Some(AnalysisReferenceRole::Construct),
            6 => Some(AnalysisReferenceRole::Export),
            _ => None,
        }
    }
}

impl AnalysisResolution {
    /// The resolution of a persisted number.
    pub open spec fn from_code_spec(code: u8) -> Option<AnalysisResolution> {
        match code {
            1 => Some(AnalysisResolution::Resolved),
            2 => Some(AnalysisResolution::Unresolved),
            3 => Some(AnalysisResolution::Ambiguous),
            _ => None,
        }
    }

    pub fn from_code(code: u8) -> (r: Option<AnalysisResolution>)
        ensures
            r == AnalysisResolution::from_code_spec(code),
    {
        match code {
            1 => Some(AnalysisResolution::Resolved),
            2 => Some(AnalysisResolution::Unresolved),
            3 => Some(AnalysisResolution::Ambiguous),
            _ => None,
        }
    }
}

impl AnalysisCallKind {
    /// The call kind of a persisted number.
    pub open spec fn from_code_spec(code: u8) -> Option<AnalysisCallKind> {
        match code {
            1 => Some(AnalysisCallKind::Direct),
            2 => Some(AnalysisCallKind::Member),
            3 => Some(AnalysisCallKind::Construct),
            4 => Some(AnalysisCallKind::Dynamic),
            _ => None,
        }
    }

    pub fn from_code(code: u8) -> (r: Option<AnalysisCallKind>)
        ensures
            r == AnalysisCallKind::from_code_spec(code),
    {
        match code {
            1 => Some(AnalysisCallKind::Direct),
            2 => Some(AnalysisCallKind::Member),
            3 => Some(AnalysisCallKind::Construct),
            4 => Some(AnalysisCallKind::Dynamic),
            _ => None,
        }
    }
}

impl LossCode {
    /// The loss of a persisted number.
    pub open spec fn from_code_spec(code: u16) -> Option<LossCode> {
        match code {
            1 => Some(LossCode::SourceMapLineageUnavailable),
            2 => Some(LossCode::FingerprintEvidenceUnavailable),
            3 => Some(LossCode::DynamicCallTargetUnavailable),
            4 => Some(LossCode::TdzAndFlowResolutionUnavailable),
            5 => Some(LossCode::DynamicScopeUnavailable),
            _ => None,
        }
    }

    pub fn from_code(code: u16) -> (r: Option<LossCode>)
        ensures
            r == LossCode::from_code_spec(code),
    {
        match code {
            1 => Some(LossCode::SourceMapLineageUnavailable),
            2 => Some(LossCode::FingerprintEvidenceUnavailable),
            3 => Some(LossCode::DynamicCallTargetUnavailable),
            4 => Some(LossCode::TdzAndFlowResolutionUnavailable),
            5 => Some(LossCode::DynamicScopeUnavailable),
            _ => None,
        }
    }
}

/// Reading a persisted number gives back the kind that was written.
pub proof fn law_codes_read_back(
    scope: AnalysisScopeKind,
    symbol: AnalysisSymbolKind,
    role: AnalysisReferenceRole,
    resolution: AnalysisResolution,
    call: AnalysisCallKind,
    loss: LossCode,
)
    ensures
        AnalysisScopeKind::from_code_spec(scope.code_spec()) == Some(scope),
        AnalysisSymbolKind::from_code_spec(symbol.code_spec()) == Some(symbol),
        AnalysisReferenceRole::from_code_spec(role.code_spec()) == Some(role),
        AnalysisResolution::from_code_spec(resolution.code_spec()) == Some(resolution),
        AnalysisCallKind::from_code_spec(call.code_spec()) == Some(call),
        LossCode::from_code_spec(loss.code_spec()) == Some(loss),
{
}

} // verus!
