//! What to tell about a refused semantic-name document.

use vstd::prelude::*;
use vstd::string::*;

use super::NamingError;

verus! {

impl NamingError {
    /// What to tell about the refusal.
    pub open spec fn message_spec(self) -> Seq<char> {
        match self {
            NamingError::Analysis(error) => error.message_spec(),
            NamingError::Lineage(error) => error.message_spec(),
            NamingError::Unsupported => "unsupported semantic-name document"@,
            NamingError::Digest => "expected a lowercase 256-bit hexadecimal value"@,
            NamingError::Token => "metadata token contains unsupported characters"@,
            NamingError::Text => "name is empty, too long, padded, or contains control characters"@,
            NamingError::RowLimits => "semantic-name document exceeds its row limits"@,
            NamingError::Unsorted => "semantic-name symbols are not strictly ID-sorted"@,
            NamingError::StateName => "semantic name and state disagree"@,
            NamingError::Collision => "approved semantic name collides in one scope"@,
            NamingError::RedactedName => "redacted semantic-name document contains a generated name"@,
            NamingError::DeclarationContext => "semantic-name declaration context is invalid"@,
            NamingError::NoProvenance => "edited semantic-name entry has no provenance"@,
            NamingError::EventHistory => "semantic-name event history is not canonical"@,
            NamingError::UnknownEventSymbol => "semantic-name event references an unknown symbol"@,
            NamingError::StaleEvent => "semantic-name event history has a stale precondition"@,
            NamingError::Revision => "semantic-name revision disagrees with event history"@,
            NamingError::StateHistory => "semantic-name materialized state disagrees with event history"@,
            NamingError::DifferentAnalysis => "semantic-name document is for a different analysis artifact"@,
            NamingError::SymbolSet => "semantic-name symbol set disagrees with its analysis artifact"@,
            NamingError::ContextModified => "semantic-name structural context was modified"@,
            NamingError::UnknownSymbol => "unknown symbol ID"@,
            NamingError::InvalidTransition => "invalid semantic-name state transition"@,
            NamingError::RevisionOverflow => "revision overflow"@,
        }
    }

    pub fn message(self) -> (text: String)
        ensures
            text@ == self.message_spec(),
    {
        match self {
            NamingError::Analysis(error) => error.message(),
            NamingError::Lineage(error) => error.message(),
            NamingError::Unsupported => "unsupported semantic-name document".to_string(),
            NamingError::Digest => "expected a lowercase 256-bit hexadecimal value".to_string(),
            NamingError::Token => "metadata token contains unsupported characters".to_string(),
            NamingError::Text => "name is empty, too long, padded, or contains control characters".to_string(),
            NamingError::RowLimits => "semantic-name document exceeds its row limits".to_string(),
            NamingError::Unsorted => "semantic-name symbols are not strictly ID-sorted".to_string(),
            NamingError::StateName => "semantic name and state disagree".to_string(),
            NamingError::Collision => "approved semantic name collides in one scope".to_string(),
            NamingError::RedactedName => "redacted semantic-name document contains a generated name".to_string(),
            NamingError::DeclarationContext => "semantic-name declaration context is invalid".to_string(),
            NamingError::NoProvenance => "edited semantic-name entry has no provenance".to_string(),
            NamingError::EventHistory => "semantic-name event history is not canonical".to_string(),
            NamingError::UnknownEventSymbol => "semantic-name event references an unknown symbol".to_string(),
            NamingError::StaleEvent => "semantic-name event history has a stale precondition".to_string(),
            NamingError::Revision => "semantic-name revision disagrees with event history".to_string(),
            NamingError::StateHistory => "semantic-name materialized state disagrees with event history".to_string(),
            NamingError::DifferentAnalysis => "semantic-name document is for a different analysis artifact".to_string(),
            NamingError::SymbolSet => "semantic-name symbol set disagrees with its analysis artifact".to_string(),
            NamingError::ContextModified => "semantic-name structural context was modified".to_string(),
            NamingError::UnknownSymbol => "unknown symbol ID".to_string(),
            NamingError::InvalidTransition => "invalid semantic-name state transition".to_string(),
            NamingError::RevisionOverflow => "revision overflow".to_string(),
        }
    }
}

} // verus!
