//! What to tell about a refused lineage report.

use vstd::prelude::*;
use vstd::string::*;

use super::LineageError;

verus! {

impl LineageError {
    /// What to tell about the refusal.
    pub open spec fn message_spec(self) -> Seq<char> {
        match self {
            LineageError::Analysis(error) => error.message_spec(),
            LineageError::SourceMap(error) => error.message_spec(),
            LineageError::TooManySymbols => "too many symbols"@,
            LineageError::SubtreeTooLarge => "syntax subtree is too large"@,
            LineageError::IncompatibleProfiles => "analysis language/front-end profiles are incompatible"@,
            LineageError::InvalidConfiguration => "invalid lineage matcher configuration"@,
            LineageError::InexactText => "source-map lineage requires exact JavaScript bytes"@,
            LineageError::UnsupportedFormat => "unsupported lineage report format"@,
            LineageError::ConfigurationDigest => "lineage configuration digest mismatch"@,
            LineageError::Digest => "expected a lowercase 256-bit hexadecimal value"@,
            LineageError::UnpairedMapDigests => "lineage source-map digests must be supplied as a pair"@,
            LineageError::SourceRowsUnordered => "lineage source rows are not strictly ordered"@,
            LineageError::ScoreRange => "lineage score, margin, or candidate count is invalid"@,
            LineageError::NoTarget => "candidate match has no target"@,
            LineageError::NoTargetId => "candidate match has no target ID"@,
            LineageError::NoEvidence => "candidate match has no evidence"@,
            LineageError::EvidenceRange => "lineage evidence component is out of range"@,
            LineageError::UnboundMapEvidence => "lineage source-map evidence is not bound to raw maps"@,
            LineageError::NotOneToOne => "accepted lineage matches are not one-to-one"@,
            LineageError::DeletedRowData => "deleted lineage row contains candidate data"@,
            LineageError::Statistics => "lineage statistics disagree with report rows"@,
            LineageError::TargetRows => "added target rows are not canonical"@,
            LineageError::MapsRequired => "lineage report is source-map bound; exact source maps are required"@,
            LineageError::DifferentMaps => "lineage report is for different source maps"@,
            LineageError::DifferentText => "lineage report is for different JavaScript bytes"@,
            LineageError::DifferentArtifacts => "lineage report is for different analysis artifacts"@,
            LineageError::SourceRowRange => "lineage source row is out of bounds"@,
            LineageError::SourceRowId => "lineage source row and stable ID disagree"@,
            LineageError::TargetRowRange => "lineage target row is out of bounds"@,
            LineageError::TargetRowId => "lineage target row and stable ID disagree"@,
            LineageError::AddedRows => "lineage added target row is invalid"@,
            LineageError::NotReproduced => "lineage decisions or evidence do not match deterministic recomputation"@,
        }
    }

    pub fn message(self) -> (text: String)
        ensures
            text@ == self.message_spec(),
    {
        match self {
            LineageError::Analysis(error) => error.message(),
            LineageError::SourceMap(error) => error.message().to_string(),
            LineageError::TooManySymbols => "too many symbols".to_string(),
            LineageError::SubtreeTooLarge => "syntax subtree is too large".to_string(),
            LineageError::IncompatibleProfiles => "analysis language/front-end profiles are incompatible".to_string(),
            LineageError::InvalidConfiguration => "invalid lineage matcher configuration".to_string(),
            LineageError::InexactText => "source-map lineage requires exact JavaScript bytes".to_string(),
            LineageError::UnsupportedFormat => "unsupported lineage report format".to_string(),
            LineageError::ConfigurationDigest => "lineage configuration digest mismatch".to_string(),
            LineageError::Digest => "expected a lowercase 256-bit hexadecimal value".to_string(),
            LineageError::UnpairedMapDigests => "lineage source-map digests must be supplied as a pair".to_string(),
            LineageError::SourceRowsUnordered => "lineage source rows are not strictly ordered".to_string(),
            LineageError::ScoreRange => "lineage score, margin, or candidate count is invalid".to_string(),
            LineageError::NoTarget => "candidate match has no target".to_string(),
            LineageError::NoTargetId => "candidate match has no target ID".to_string(),
            LineageError::NoEvidence => "candidate match has no evidence".to_string(),
            LineageError::EvidenceRange => "lineage evidence component is out of range".to_string(),
            LineageError::UnboundMapEvidence => "lineage source-map evidence is not bound to raw maps".to_string(),
            LineageError::NotOneToOne => "accepted lineage matches are not one-to-one".to_string(),
            LineageError::DeletedRowData => "deleted lineage row contains candidate data".to_string(),
            LineageError::Statistics => "lineage statistics disagree with report rows".to_string(),
            LineageError::TargetRows => "added target rows are not canonical".to_string(),
            LineageError::MapsRequired => "lineage report is source-map bound; exact source maps are required".to_string(),
            LineageError::DifferentMaps => "lineage report is for different source maps".to_string(),
            LineageError::DifferentText => "lineage report is for different JavaScript bytes".to_string(),
            LineageError::DifferentArtifacts => "lineage report is for different analysis artifacts".to_string(),
            LineageError::SourceRowRange => "lineage source row is out of bounds".to_string(),
            LineageError::SourceRowId => "lineage source row and stable ID disagree".to_string(),
            LineageError::TargetRowRange => "lineage target row is out of bounds".to_string(),
            LineageError::TargetRowId => "lineage target row and stable ID disagree".to_string(),
            LineageError::AddedRows => "lineage added target row is invalid".to_string(),
            LineageError::NotReproduced => "lineage decisions or evidence do not match deterministic recomputation".to_string(),
        }
    }
}

} // verus!
