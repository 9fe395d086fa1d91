//! Comparison of the declarations of two texts.

use vstd::prelude::*;
use vstd::string::*;

pub mod alpha;
pub mod candidates;
pub mod comparison_laws;
pub mod declaration_laws;
pub mod declarations;
pub mod display;
pub mod fingerprint;
pub mod fingerprint_laws;
pub mod hashes;
pub mod matching;
pub mod normalize;
pub mod normalize_laws;
pub mod report;
pub mod similarity;
pub mod token_laws;

pub use candidates::CandidateMatch;
pub use declarations::{Declaration, DeclarationKind};
pub use matching::{Change, ChangeType, DiffResult, Location, SimilarityResult};
pub use normalize::DiffClassification;
pub use report::extract_source_range;
pub use similarity::declaration_similarity;

verus! {

/// Compares the declarations of two texts.
#[derive(Debug, Clone, Copy)]
pub struct StructuralDiff {
    pub use_fingerprints: bool,
}

impl StructuralDiff {
    /// A comparison that makes no use of fingerprints.
    pub fn new() -> (diff: Self)
        ensures
            !diff.use_fingerprints,
    {
        StructuralDiff { use_fingerprints: false }
    }

    /// Says whether to make use of fingerprints.
    pub fn set_use_fingerprints(&mut self, use_fingerprints: bool)
        ensures
            final(self).use_fingerprints == use_fingerprints,
    {
        self.use_fingerprints = use_fingerprints;
    }
}

impl Default for StructuralDiff {
    fn default() -> (diff: Self)
        ensures
            !diff.use_fingerprints,
    {
        StructuralDiff::new()
    }
}

/// Why texts cannot be compared.
#[derive(Debug, Clone, PartialEq, Eq)]
pub enum DiffError {
    /// A text has more symbols than can be numbered.
    TooManySymbols,
    /// A declaration covers no part of its text.
    InvalidRange { name: String },
}

impl DiffError {
    /// What to tell about the refusal.
    pub open spec fn message_spec(self) -> Seq<char> {
        match self {
            DiffError::TooManySymbols => "too many symbols for structural comparison"@,
            DiffError::InvalidRange { name } => "invalid source range for declaration '"@ + name@
                + "'"@,
        }
    }

    /// What to tell about the refusal.
    pub fn message(&self) -> (message: String)
        ensures
            message@ == self.message_spec(),
    {
        match self {
            DiffError::TooManySymbols => "too many symbols for structural comparison".to_string(),
            DiffError::InvalidRange { name } => {
                "invalid source range for declaration '".to_string().concat(
                    name.as_str(),
                ).concat("'")
            },
        }
    }
}

} // verus!
