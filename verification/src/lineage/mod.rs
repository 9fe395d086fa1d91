//! Deterministic structural-context matching across analysis artifacts.
//!
//! The matcher never compares artifact-local identities directly. It builds
//! compact identifier-erased context fingerprints, uses indexes to bound the
//! candidates of each symbol, and scores only the surviving pairs.

use vstd::prelude::*;
use vstd::string::*;
use vstd::utf8::*;

use crate::analysis::AnalysisError;
use crate::digest::sha256;
use crate::sourcemap::SourceMapError;
use crate::text::{decimal_text, hex_text};
use crate::{digest, text};

pub mod candidates;
pub mod context;
pub mod decide;
pub mod erasure;
pub mod evidence_laws;
pub mod index;
pub mod laws;
pub mod match_laws;
pub mod matcher;
pub mod messages;
pub mod report;
pub mod report_laws;
pub mod score;
pub mod shape;

verus! {

/// The score of a perfect match, in basis points.
pub const SCORE_SCALE: u32 = 10_000;

/// Why a lineage report was refused.
#[derive(Debug, Clone, Copy, PartialEq, Eq, Structural)]
pub enum LineageError {
    Analysis(AnalysisError),
    SourceMap(SourceMapError),
    SubtreeTooLarge,
    TooManySymbols,
    IncompatibleProfiles,
    InvalidConfiguration,
    InexactText,
    UnsupportedFormat,
    ConfigurationDigest,
    Digest,
    UnpairedMapDigests,
    SourceRowsUnordered,
    ScoreRange,
    NoTarget,
    NoTargetId,
    NoEvidence,
    EvidenceRange,
    UnboundMapEvidence,
    NotOneToOne,
    DeletedRowData,
    Statistics,
    TargetRows,
    MapsRequired,
    DifferentMaps,
    DifferentText,
    DifferentArtifacts,
    SourceRowRange,
    SourceRowId,
    TargetRowRange,
    TargetRowId,
    AddedRows,
    NotReproduced,
}

/// How symbols are matched.
#[derive(Debug, Clone, Copy, PartialEq, Eq, Structural)]
pub struct MatcherConfig {
    pub min_score_bps: u32,
    pub min_margin_bps: u32,
    pub max_candidates: usize,
    pub rare_feature_max_frequency: usize,
    pub max_size_ratio: u32,
}

impl Default for MatcherConfig {
    fn default() -> (config: Self)
        ensures
            config.min_score_bps == 7_200,
            config.min_margin_bps == 700,
            config.max_candidates == 96,
            config.rare_feature_max_frequency == 24,
            config.max_size_ratio == 4,
    {
        MatcherConfig {
            min_score_bps: 7_200,
            min_margin_bps: 700,
            max_candidates: 96,
            rare_feature_max_frequency: 24,
            max_size_ratio: 4,
        }
    }
}

/// What became of a source symbol.
#[derive(Debug, Clone, Copy, PartialEq, Eq, Structural)]
pub enum MatchDecision {
    Accepted,
    Abstained,
    Deleted,
}

/// How far a match can be relied on.
#[derive(Debug, Clone, Copy, PartialEq, Eq, Structural)]
pub enum ConfidenceTier {
    Exact,
    High,
    Medium,
    Low,
}

/// What speaks for a match.
#[derive(Debug, Clone, Copy, PartialEq, Eq, Structural)]
pub struct MatchEvidence {
    pub exact_shape: bool,
    pub shape_bps: u32,
    pub context_bps: u32,
    pub roles_bps: u32,
    pub size_bps: u32,
    pub scope_bps: u32,
    pub shared_rare_features: u32,
    /// Whether both symbols resolve to the same source-map origin. `None`
    /// means that source-map evidence was not supplied.
    pub source_map_origin_match: Option<bool>,
}

/// What became of one source symbol, and why.
#[derive(Debug, Clone, PartialEq, Eq)]
pub struct SymbolMatch {
    pub source_row: u32,
    pub source_symbol_id: String,
    pub target_row: Option<u32>,
    pub target_symbol_id: Option<String>,
    pub decision: MatchDecision,
    pub confidence: ConfidenceTier,
    pub score_bps: u32,
    pub source_margin_bps: u32,
    pub target_margin_bps: u32,
    pub candidate_count: u32,
    pub candidates_truncated: bool,
    pub evidence: Option<MatchEvidence>,
}

/// What a matching took and gave.
#[derive(Debug, Clone, Copy, PartialEq, Eq, Structural)]
pub struct CandidateStats {
    pub source_symbols: u64,
    pub target_symbols: u64,
    pub exact_unique_anchors: u64,
    pub candidate_pairs: u64,
    pub expensive_comparisons: u64,
    pub truncated_sources: u64,
    pub accepted: u64,
    pub abstained: u64,
    pub deleted: u64,
    pub added: u64,
    pub ambiguous_targets: u64,
}

/// The matching of two artifacts.
#[derive(Debug, Clone, PartialEq, Eq)]
pub struct LineageReport {
    pub format: String,
    pub algorithm: String,
    pub source_digest: String,
    pub target_digest: String,
    /// SHA-256 of the raw source map supplied for the source artifact. Both
    /// map digests are either present together or absent together.
    pub source_map_source_digest: Option<String>,
    /// SHA-256 of the raw source map supplied for the target artifact.
    pub source_map_target_digest: Option<String>,
    pub config: MatcherConfig,
    pub config_digest: String,
    pub stats: CandidateStats,
    pub matches: Vec<SymbolMatch>,
    pub added_target_rows: Vec<u32>,
    pub ambiguous_target_rows: Vec<u32>,
}

/// The model of a [`SymbolMatch`].
pub struct MatchModel {
    pub source_row: u32,
    pub source_symbol_id: Seq<char>,
    pub target_row: Option<u32>,
    pub target_symbol_id: Option<Seq<char>>,
    pub decision: MatchDecision,
    pub confidence: ConfidenceTier,
    pub score_bps: u32,
    pub source_margin_bps: u32,
    pub target_margin_bps: u32,
    pub candidate_count: u32,
    pub candidates_truncated: bool,
    pub evidence: Option<MatchEvidence>,
}

/// The model of a [`LineageReport`].
pub struct ReportModel {
    pub format: Seq<char>,
    pub algorithm: Seq<char>,
    pub source_digest: Seq<char>,
    pub target_digest: Seq<char>,
    pub source_map_source_digest: Option<Seq<char>>,
    pub source_map_target_digest: Option<Seq<char>>,
    pub config: MatcherConfig,
    pub config_digest: Seq<char>,
    pub stats: CandidateStats,
    pub matches: Seq<MatchModel>,
    pub added_target_rows: Seq<u32>,
    pub ambiguous_target_rows: Seq<u32>,
}

impl View for SymbolMatch {
    type V = MatchModel;

    open spec fn view(&self) -> MatchModel {
        MatchModel {
            source_row: self.source_row,
            source_symbol_id: self.source_symbol_id@,
            target_row: self.target_row,
            target_symbol_id: text::optional_view(self.target_symbol_id),
            decision: self.decision,
            confidence: self.confidence,
            score_bps: self.score_bps,
            source_margin_bps: self.source_margin_bps,
            target_margin_bps: self.target_margin_bps,
            candidate_count: self.candidate_count,
            candidates_truncated: self.candidates_truncated,
            evidence: self.evidence,
        }
    }
}

/// Matches seen as their models.
pub open spec fn match_views(matches: Seq<SymbolMatch>) -> Seq<MatchModel> {
    matches.map_values(|matched: SymbolMatch| matched@)
}

impl View for LineageReport {
    type V = ReportModel;

    open spec fn view(&self) -> ReportModel {
        ReportModel {
            format: self.format@,
            algorithm: self.algorithm@,
            source_digest: self.source_digest@,
            target_digest: self.target_digest@,
            source_map_source_digest: text::optional_view(self.source_map_source_digest),
            source_map_target_digest: text::optional_view(self.source_map_target_digest),
            config: self.config,
            config_digest: self.config_digest@,
            stats: self.stats,
            matches: match_views(self.matches@),
            added_target_rows: self.added_target_rows@,
            ambiguous_target_rows: self.ambiguous_target_rows@,
        }
    }
}

/// Whether a configuration can be matched with.
pub open spec fn config_is_valid(config: MatcherConfig) -> bool {
    config.max_candidates > 0 && config.rare_feature_max_frequency > 0 && config.max_size_ratio > 0
        && config.min_score_bps <= SCORE_SCALE && config.min_margin_bps <= SCORE_SCALE
}

/// Whether a configuration can be matched with.
pub fn config_fits(config: &MatcherConfig) -> (r: bool)
    ensures
        r == config_is_valid(*config),
{
    config.max_candidates > 0 && config.rare_feature_max_frequency > 0 && config.max_size_ratio > 0
        && config.min_score_bps <= SCORE_SCALE && config.min_margin_bps <= SCORE_SCALE
}

/// A configuration as compact JSON.
pub open spec fn config_text(config: MatcherConfig) -> Seq<char> {
    "{\"min_score_bps\":"@ + text::decimal_of(config.min_score_bps as nat) + ",\"min_margin_bps\":"@
        + text::decimal_of(config.min_margin_bps as nat) + ",\"max_candidates\":"@
        + text::decimal_of(config.max_candidates as nat) + ",\"rare_feature_max_frequency\":"@
        + text::decimal_of(config.rare_feature_max_frequency as nat) + ",\"max_size_ratio\":"@
        + text::decimal_of(config.max_size_ratio as nat) + "}"@
}

/// The spelled digest of a configuration.
pub open spec fn config_digest_of(config: MatcherConfig) -> Seq<char> {
    text::hex_of(digest::sha256_of(encode_utf8(config_text(config))))
}

/// The spelled digest of a configuration.
pub fn digest_of_config(config: &MatcherConfig) -> (hex: String)
    ensures
        hex@ == config_digest_of(*config),
{
    let json = "{\"min_score_bps\":".to_string()
        .concat(decimal_text(config.min_score_bps as u64).as_str())
        .concat(",\"min_margin_bps\":")
        .concat(decimal_text(config.min_margin_bps as u64).as_str())
        .concat(",\"max_candidates\":")
        .concat(decimal_text(config.max_candidates as u64).as_str())
        .concat(",\"rare_feature_max_frequency\":")
        .concat(decimal_text(config.rare_feature_max_frequency as u64).as_str())
        .concat(",\"max_size_ratio\":")
        .concat(decimal_text(config.max_size_ratio as u64).as_str())
        .concat("}");
    hex_text(sha256(json.as_str().as_bytes()).as_slice())
}

} // verus!
