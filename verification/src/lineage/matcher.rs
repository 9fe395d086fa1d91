//! Matching two analyses.

use vstd::prelude::*;
use vstd::string::*;
use vstd::utf8::*;

use super::candidates::{score_candidates, Pairing};
use super::context::collect_contexts;
use super::decide::{decide, rank_sources, Scores};
use super::index::ContextIndex;
use super::score::CandidateScore;
use super::shape::subtree_fingerprints;
use super::{
    config_fits, digest_of_config, CandidateStats, LineageError, LineageReport, MatchDecision,
    MatcherConfig, ReportModel, SymbolMatch,
};
use crate::analysis::Analysis;
use crate::bytes::{push_all, push_framed, push_le};
use crate::digest::sha256;
use crate::sourcemap::{
    positions_for_byte_offsets, MapModel, OriginalModel, OriginalPosition, SourceMap,
    SourceMapError,
};
use crate::text::{hex_text, same_bytes, same_text};
use crate::{bytes, digest, sets, sourcemap, text};

use super::{candidates, context, decide, score, shape};
use crate::analysis::validate;

verus! {

/// The format of lineage reports.
pub const REPORT_FORMAT: &'static str = "astdiff.lineage.v1";

/// The algorithm behind lineage reports.
pub const REPORT_ALGORITHM: &'static str = "structural-context-v1";

/// What a matching of two analyses stands on.
pub open spec fn pairing_of(
    source: Analysis,
    target: Analysis,
    config: MatcherConfig,
    source_origins: Option<Seq<Option<Seq<u8>>>>,
    target_origins: Option<Seq<Option<Seq<u8>>>>,
) -> Pairing {
    Pairing {
        source: context::contexts_of(source, source_origins),
        target: context::contexts_of(target, target_origins),
        config,
    }
}

/// The report of a matching.
pub open spec fn report_of(
    source: Analysis,
    target: Analysis,
    p: Pairing,
    source_map: Option<Seq<char>>,
    target_map: Option<Seq<char>>,
) -> ReportModel {
    ReportModel {
        format: REPORT_FORMAT@,
        algorithm: REPORT_ALGORITHM@,
        source_digest: text::hex_of(source.source_digest@),
        target_digest: text::hex_of(target.source_digest@),
        source_map_source_digest: source_map,
        source_map_target_digest: target_map,
        config: p.config,
        config_digest: super::config_digest_of(p.config),
        stats: decide::stats_of(p),
        matches: decide::records_of(p, source.symbols@, target.symbols@),
        added_target_rows: decide::added_upto(p, p.target.len() as int),
        ambiguous_target_rows: decide::ambiguous_upto(p, p.target.len() as int),
    }
}

/// The fault of an analysis as a lineage error.
pub open spec fn analysis_error(a: Analysis) -> Option<LineageError> {
    match validate::analysis_fault(a) {
        Some(fault) => Some(LineageError::Analysis(fault)),
        None => None,
    }
}

/// Why two analyses cannot be matched.
pub open spec fn match_fault(
    source: Analysis,
    target: Analysis,
    config: MatcherConfig,
) -> Option<LineageError> {
    if analysis_error(source) is Some {
        analysis_error(source)
    } else if analysis_error(target) is Some {
        analysis_error(target)
    } else if source.language != target.language || source.frontend@ != target.frontend@ {
        Some(LineageError::IncompatibleProfiles)
    } else if !super::config_is_valid(config) {
        Some(LineageError::InvalidConfiguration)
    } else if source.symbols@.len() > u32::MAX || target.symbols@.len() > u32::MAX {
        Some(LineageError::TooManySymbols)
    } else if shape::some_subtree_is_too_large(source) || shape::some_subtree_is_too_large(target) {
        Some(LineageError::SubtreeTooLarge)
    } else {
        None
    }
}

/// Whether an outcome is a fault, or else a report.
pub open spec fn is_outcome(
    r: Result<LineageReport, LineageError>,
    fault: Option<LineageError>,
    report: ReportModel,
) -> bool {
    match (r, fault) {
        (Ok(found), None) => found@ == report,
        (Err(error), Some(fault)) => error == fault,
        _ => false,
    }
}

fn check_analysis(a: &Analysis) -> (r: Result<(), LineageError>)
    ensures
        match (r, analysis_error(*a)) {
            (Ok(_), None) => validate::is_valid(*a) && validate::rows_fit(*a),
            (Err(error), Some(fault)) => error == fault,
            _ => false,
        },
{
    match a.validate() {
        Ok(()) => {
            proof {
                validate::lemma_valid_rows_fit(*a);
            }
            Ok(())
        },
        Err(error) => Err(LineageError::Analysis(error)),
    }
}

fn build_index(a: &Analysis, origins: &Option<Vec<Option<[u8; 32]>>>) -> (r: Result<
    ContextIndex,
    LineageError,
>)
    requires
        validate::rows_fit(*a),
        a.symbols@.len() <= u32::MAX,
        origins matches Some(list) ==> list@.len() == a.symbols@.len(),
    ensures
        match r {
            Ok(found) => {
                &&& !shape::some_subtree_is_too_large(*a)
                &&& found.is_wf()
                &&& found.models() == context::contexts_of(*a, context::optional_origins(*origins))
                &&& forall|k: int|
                    0 <= k < found.models().len() ==> score::is_sound(
                        #[trigger] found.models()[k],
                    )
            },
            Err(error) => error == LineageError::SubtreeTooLarge
                && shape::some_subtree_is_too_large(*a),
        },
{
    let shapes = match subtree_fingerprints(a) {
        Ok(shapes) => shapes,
        Err(error) => {
            return Err(error);
        },
    };
    let contexts = collect_contexts(a, &shapes, origins);
    let ghost models = context::contexts_of(*a, context::optional_origins(*origins));
    proof {
        assert(context::context_views(contexts@).len() == contexts@.len());
        assert forall|k: int| 0 <= k < contexts@.len() implies sets::is_ascending(
            (#[trigger] contexts@[k]).features@,
        ) && score::is_sound(models[k]) by {
            assert(models[k] == contexts@[k]@);
            sets::lemma_sorted_set(context::raw_features(*a, k));
            assert(contexts@[k]@.features == context::features_of(*a, k));
            let roles = contexts@[k].roles@;
            assert(context::number_views(roles) == context::roles_of(*a, k));
            assert(context::number_views(roles).len() == 6);
            assert forall|j: int| 0 <= j < 6 implies 0 <= #[trigger] models[k].roles[j]
                <= u32::MAX by {
                assert(models[k].roles[j] == roles[j] as int);
            }
        }
    }
    Ok(ContextIndex::build(contexts))
}

fn score_all(
    source: &ContextIndex,
    target: &ContextIndex,
    config: &MatcherConfig,
    p: Ghost<Pairing>,
) -> (scores: Scores)
    requires
        candidates::is_pairing(p@, *source, *target),
        *config == p@.config,
    ensures
        decide::scores_are(scores, p@),
{
    let contexts = source.contexts();
    let count: usize = contexts.len();
    assert(p@.source.len() == count);
    let mut lists: Vec<Vec<CandidateScore>> = Vec::new();
    let mut truncated: Vec<bool> = Vec::new();
    let mut s: usize = 0;
    while s < count
        invariant
            s <= count,
            count == p@.source.len(),
            candidates::is_pairing(p@, *source, *target),
            *config == p@.config,
            lists@.len() == s,
            truncated@.len() == s,
            forall|k: int|
                0 <= k < s ==> candidates::are_scores((#[trigger] lists@[k])@, p@, k),
            forall|k: int|
                0 <= k < s ==> #[trigger] truncated@[k] == candidates::is_truncated(p@, k),
        decreases count - s,
    {
        let (list, more) = score_candidates(source, target, s, config, p);
        lists.push(list);
        truncated.push(more);
        s += 1;
    }
    Scores { lists, truncated }
}

/// What the decisions on the first sources add up to.
struct Tally {
    anchors: u64,
    pairs: u64,
    truncated: u64,
    accepted: u64,
    abstained: u64,
    deleted: u64,
}

spec fn tally_is(tally: Tally, p: Pairing, count: int) -> bool {
    &&& tally.anchors == decide::anchors_upto(p, count)
    &&& tally.pairs == decide::pairs_upto(p, count)
    &&& tally.truncated == decide::truncated_upto(p, count)
    &&& tally.accepted == decide::decisions_upto(p, MatchDecision::Accepted, count)
    &&& tally.abstained == decide::decisions_upto(p, MatchDecision::Abstained, count)
    &&& tally.deleted == decide::decisions_upto(p, MatchDecision::Deleted, count)
    &&& tally.anchors <= count
    &&& tally.pairs <= count * u32::MAX
    &&& tally.truncated <= count
    &&& tally.accepted <= count
    &&& tally.abstained <= count
    &&& tally.deleted <= count
}

fn extend_tally(
    tally: Tally,
    record: &SymbolMatch,
    anchor: bool,
    truncated: bool,
    compared: usize,
    p: Ghost<Pairing>,
    s: usize,
) -> (next: Tally)
    requires
        s < p@.source.len() <= u32::MAX,
        p@.target.len() <= u32::MAX,
        tally_is(tally, p@, s as int),
        record.decision == decide::decision_of(p@, s as int),
        anchor == candidates::is_anchor(p@, s as int),
        truncated == candidates::is_truncated(p@, s as int),
        compared == candidates::scored(p@, s as int).len(),
    ensures
        tally_is(next, p@, s + 1),
{
    proof {
        candidates::law_candidates_are_bounded(p@, s as int);
        assert((s + 1) * u32::MAX == s * u32::MAX + u32::MAX) by (nonlinear_arith);
        assert(s * u32::MAX <= 0xffff_ffff * 0xffff_ffff) by (nonlinear_arith)
            requires
                s <= 0xffff_ffff,
        ;
    }
    let accepted = record.decision == MatchDecision::Accepted;
    Tally {
        anchors: tally.anchors + if accepted && anchor {
            1
        } else {
            0
        },
        pairs: tally.pairs + compared as u64,
        truncated: tally.truncated + if truncated {
            1
        } else {
            0
        },
        accepted: tally.accepted + if accepted {
            1
        } else {
            0
        },
        abstained: tally.abstained + if record.decision == MatchDecision::Abstained {
            1
        } else {
            0
        },
        deleted: tally.deleted + if record.decision == MatchDecision::Deleted {
            1
        } else {
            0
        },
    }
}

fn untaken_rows(
    standings: &Vec<decide::Standing>,
    taken: &Vec<bool>,
    led: bool,
    p: Ghost<Pairing>,
) -> (rows: Vec<u32>)
    requires
        standings@.len() == p@.target.len(),
        taken@.len() == p@.target.len(),
        p@.target.len() <= u32::MAX,
        forall|t: int|
            0 <= t < p@.target.len() ==> decide::standing_is(
                #[trigger] standings@[t],
                p@,
                t,
                p@.source.len() as int,
            ),
        forall|t: int|
            0 <= t < p@.target.len() ==> #[trigger] taken@[t] == decide::is_taken(p@, t),
    ensures
        rows@ == if led {
            decide::ambiguous_upto(p@, p@.target.len() as int)
        } else {
            decide::added_upto(p@, p@.target.len() as int)
        },
        rows@.len() <= p@.target.len(),
{
    let mut rows: Vec<u32> = Vec::new();
    let mut t: usize = 0;
    while t < taken.len()
        invariant
            t <= taken@.len(),
            standings@.len() == p@.target.len(),
            taken@.len() == p@.target.len(),
            p@.target.len() <= u32::MAX,
            forall|k: int|
                0 <= k < p@.target.len() ==> decide::standing_is(
                    #[trigger] standings@[k],
                    p@,
                    k,
                    p@.source.len() as int,
                ),
            forall|k: int|
                0 <= k < p@.target.len() ==> #[trigger] taken@[k] == decide::is_taken(p@, k),
            rows@ == if led {
                decide::ambiguous_upto(p@, t as int)
            } else {
                decide::added_upto(p@, t as int)
            },
            rows@.len() <= t,
        decreases taken@.len() - t,
    {
        assert(decide::standing_is(standings@[t as int], p@, t as int, p@.source.len() as int));
        if !taken[t] && standings[t].leader.is_some() == led {
            rows.push(t as u32);
        }
        t += 1;
    }
    rows
}

/// Matches the symbols of two analyses.
fn match_indexed(
    source: &Analysis,
    target: &Analysis,
    source_index: &ContextIndex,
    target_index: &ContextIndex,
    config: MatcherConfig,
    source_map: Option<String>,
    target_map: Option<String>,
    p: Ghost<Pairing>,
) -> (report: LineageReport)
    requires
        candidates::is_pairing(p@, *source_index, *target_index),
        config == p@.config,
        p@.source.len() == source.symbols@.len(),
        p@.target.len() == target.symbols@.len(),
        source.symbols@.len() <= u32::MAX,
        target.symbols@.len() <= u32::MAX,
    ensures
        report@ == report_of(
            *source,
            *target,
            p@,
            text::optional_view(source_map),
            text::optional_view(target_map),
        ),
{
    let scores = score_all(source_index, target_index, &config, p);
    let count: usize = source.symbols.len();
    let targets: usize = target.symbols.len();
    let standings = rank_sources(&scores, targets, p);
    let mut taken: Vec<bool> = Vec::new();
    while taken.len() < targets
        invariant
            taken@.len() <= targets,
            forall|t: int| 0 <= t < taken@.len() ==> !#[trigger] taken@[t],
        decreases targets - taken@.len(),
    {
        taken.push(false);
    }
    let mut records: Vec<SymbolMatch> = Vec::new();
    let mut tally = Tally {
        anchors: 0,
        pairs: 0,
        truncated: 0,
        accepted: 0,
        abstained: 0,
        deleted: 0,
    };
    let mut s: usize = 0;
    while s < count
        invariant
            s <= count,
            count == p@.source.len(),
            count == source.symbols@.len(),
            targets == p@.target.len(),
            targets == target.symbols@.len(),
            count <= u32::MAX,
            targets <= u32::MAX,
            candidates::is_pairing(p@, *source_index, *target_index),
            config == p@.config,
            decide::scores_are(scores, p@),
            standings@.len() == targets,
            forall|t: int|
                0 <= t < targets ==> decide::standing_is(
                    #[trigger] standings@[t],
                    p@,
                    t,
                    p@.source.len() as int,
                ),
            tally_is(tally, p@, s as int),
            taken@.len() == targets,
            forall|t: int|
                0 <= t < targets ==> #[trigger] taken@[t] == taken_before(p@, t, s as int),
            records@.len() == s,
            forall|k: int|
                0 <= k < s ==> (#[trigger] records@[k])@ == decide::record_of(
                    p@,
                    source.symbols@,
                    target.symbols@,
                    k,
                ),
        decreases count - s,
    {
        let anchor = candidates::anchor_row(source_index, target_index, s, p).is_some();
        let record = decide(&scores, &standings, source, target, s, anchor, &config, p);
        let compared: usize = scores.lists[s].len();
        assert(candidates::are_scores(scores.lists@[s as int]@, p@, s as int));
        tally = extend_tally(tally, &record, anchor, scores.truncated[s], compared, p, s);
        let ghost before = taken@;
        if record.decision == MatchDecision::Accepted {
            proof {
                candidates::law_candidates_are_bounded(p@, s as int);
                let list = candidates::scored(p@, s as int);
                assert(list.contains(list[0]));
            }
            if let Some(row) = record.target_row {
                taken.set(row as usize, true);
            }
        }
        proof {
            assert forall|t: int| 0 <= t < targets implies #[trigger] taken@[t] == taken_before(
                p@,
                t,
                s + 1,
            ) by {
                assert(before[t] == taken_before(p@, t, s as int));
                if taken_before(p@, t, s as int) {
                    let k = choose|k: int|
                        0 <= k < s && #[trigger] decide::is_accepted(p@, k) && decide::best_target(
                            p@,
                            k,
                        ) == t;
                    assert(decide::is_accepted(p@, k));
                }
                if decide::is_accepted(p@, s as int) && decide::best_target(p@, s as int) == t {
                    assert(taken_before(p@, t, s + 1));
                }
                if taken_before(p@, t, s + 1) && !taken_before(p@, t, s as int) {
                    let k = choose|k: int|
                        0 <= k < s + 1 && #[trigger] decide::is_accepted(p@, k)
                            && decide::best_target(p@, k) == t;
                    assert(k == s);
                }
            }
        }
        records.push(record);
        s += 1;
    }
    proof {
        assert(super::match_views(records@) =~= decide::records_of(
            p@,
            source.symbols@,
            target.symbols@,
        ));
        assert forall|t: int| 0 <= t < targets implies #[trigger] taken@[t] == decide::is_taken(
            p@,
            t,
        ) by {
            assert(taken@[t] == taken_before(p@, t, s as int));
        }
    }
    let added_target_rows = untaken_rows(&standings, &taken, false, p);
    let ambiguous_target_rows = untaken_rows(&standings, &taken, true, p);
    let stats = CandidateStats {
        source_symbols: count as u64,
        target_symbols: targets as u64,
        exact_unique_anchors: tally.anchors,
        candidate_pairs: tally.pairs,
        expensive_comparisons: tally.pairs,
        truncated_sources: tally.truncated,
        accepted: tally.accepted,
        abstained: tally.abstained,
        deleted: tally.deleted,
        added: added_target_rows.len() as u64,
        ambiguous_targets: ambiguous_target_rows.len() as u64,
    };
    LineageReport {
        format: REPORT_FORMAT.to_string(),
        algorithm: REPORT_ALGORITHM.to_string(),
        source_digest: hex_text(source.source_digest.as_slice()),
        target_digest: hex_text(target.source_digest.as_slice()),
        source_map_source_digest: source_map,
        source_map_target_digest: target_map,
        config,
        config_digest: digest_of_config(&config),
        stats,
        matches: records,
        added_target_rows,
        ambiguous_target_rows,
    }
}

spec fn taken_before(p: Pairing, t: int, count: int) -> bool {
    exists|s: int|
        0 <= s < count && #[trigger] decide::is_accepted(p, s) && decide::best_target(p, s) == t
}

fn match_analyses_internal(
    source: &Analysis,
    target: &Analysis,
    config: MatcherConfig,
    source_origins: Option<Vec<Option<[u8; 32]>>>,
    target_origins: Option<Vec<Option<[u8; 32]>>>,
    source_map: Option<String>,
    target_map: Option<String>,
) -> (r: Result<LineageReport, LineageError>)
    requires
        source_origins matches Some(list) ==> list@.len() == source.symbols@.len(),
        target_origins matches Some(list) ==> list@.len() == target.symbols@.len(),
    ensures
        is_outcome(
            r,
            match_fault(*source, *target, config),
            report_of(
                *source,
                *target,
                pairing_of(
                    *source,
                    *target,
                    config,
                    context::optional_origins(source_origins),
                    context::optional_origins(target_origins),
                ),
                text::optional_view(source_map),
                text::optional_view(target_map),
            ),
        ),
{
    match check_analysis(source) {
        Ok(()) => {},
        Err(error) => {
            return Err(error);
        },
    }
    match check_analysis(target) {
        Ok(()) => {},
        Err(error) => {
            return Err(error);
        },
    }
    if source.language != target.language || !same_text(
        source.frontend.as_str(),
        target.frontend.as_str(),
    ) {
        return Err(LineageError::IncompatibleProfiles);
    }
    if !config_fits(&config) {
        return Err(LineageError::InvalidConfiguration);
    }
    if source.symbols.len() > u32::MAX as usize || target.symbols.len() > u32::MAX as usize {
        return Err(LineageError::TooManySymbols);
    }
    let source_index = match build_index(source, &source_origins) {
        Ok(found) => found,
        Err(error) => {
            return Err(error);
        },
    };
    let target_index = match build_index(target, &target_origins) {
        Ok(found) => found,
        Err(error) => {
            return Err(error);
        },
    };
    let ghost p = pairing_of(
        *source,
        *target,
        config,
        context::optional_origins(source_origins),
        context::optional_origins(target_origins),
    );
    Ok(
        match_indexed(
            source,
            target,
            &source_index,
            &target_index,
            config,
            source_map,
            target_map,
            Ghost(p),
        ),
    )
}

/// The report of two analyses matched on their own.
pub open spec fn plain_report(
    source: Analysis,
    target: Analysis,
    config: MatcherConfig,
) -> ReportModel {
    report_of(source, target, pairing_of(source, target, config, None, None), None, None)
}

/// Matches the lexical symbols of two independently analyzed artifacts.
pub fn match_analyses(source: &Analysis, target: &Analysis, config: MatcherConfig) -> (r: Result<
    LineageReport,
    LineageError,
>)
    ensures
        is_outcome(
            r,
            match_fault(*source, *target, config),
            plain_report(*source, *target, config),
        ),
{
    match_analyses_internal(source, target, config, None, None, None, None)
}

/// A text that may be missing, behind a byte that tells.
pub open spec fn optional_bytes(text: Option<Seq<char>>) -> Seq<u8> {
    match text {
        Some(text) => seq![1u8] + bytes::framed(encode_utf8(text)),
        None => seq![0u8],
    }
}

/// The digest of an origin: its source, line and column, but no name.
pub open spec fn origin_digest(origin: OriginalModel) -> Option<Seq<u8>> {
    match origin.source {
        None => None,
        Some(_) => Some(
            digest::sha256_of(
                encode_utf8("astdiff.lineage.source-map-origin.v1"@) + optional_bytes(
                    origin.source_root,
                ) + optional_bytes(origin.source) + bytes::le_bytes(origin.line as int, 4)
                    + bytes::le_bytes(origin.column as int, 4),
            ),
        ),
    }
}

/// The byte at which every symbol is declared.
pub open spec fn declaration_bytes(a: Analysis) -> Seq<u64> {
    Seq::new(
        a.symbols@.len(),
        |row: int| a.nodes@[a.symbols@[row].declaration_node as int].start_byte,
    )
}

/// The origin of a byte of a text, where the map has exactly one.
pub open spec fn origin_of_byte(text: Seq<char>, map: MapModel, offset: u64) -> Option<Seq<u8>> {
    let found = sourcemap::originals_at(map, sourcemap::positions::position_of(text, offset));
    if found.len() == 1 {
        origin_digest(found[0])
    } else {
        None
    }
}

/// The origin of every symbol.
pub open spec fn origins_of(a: Analysis, text: Seq<char>, map: MapModel) -> Seq<Option<Seq<u8>>> {
    Seq::new(
        a.symbols@.len(),
        |row: int| origin_of_byte(text, map, declaration_bytes(a)[row]),
    )
}

/// Why declarations have no positions in a text.
pub open spec fn positions_fault(a: Analysis, text: Seq<char>) -> Option<LineageError> {
    let offsets = declaration_bytes(a);
    if sourcemap::positions::some_beyond(text, offsets) {
        Some(LineageError::SourceMap(SourceMapError::OffsetBeyondSource))
    } else {
        match sourcemap::positions::stop_from(text, offsets, 0) {
            Some(error) => Some(LineageError::SourceMap(error)),
            None => None,
        }
    }
}

fn push_optional(output: &mut Vec<u8>, value: &Option<String>)
    ensures
        final(output)@ == old(output)@ + optional_bytes(text::optional_view(*value)),
{
    let ghost before = output@;
    match value {
        Some(value) => {
            output.push(1);
            push_framed(output, value.as_str().as_bytes());
        },
        None => {
            output.push(0);
        },
    }
    assert(output@ =~= before + optional_bytes(text::optional_view(*value)));
}

fn origin_hash(origin: &OriginalPosition) -> (r: Option<[u8; 32]>)
    ensures
        context::origin_view(r) == origin_digest(origin@),
{
    if origin.source.is_none() {
        return None;
    }
    let mut buffer: Vec<u8> = Vec::new();
    push_all(&mut buffer, "astdiff.lineage.source-map-origin.v1".as_bytes());
    push_optional(&mut buffer, &origin.source_root);
    push_optional(&mut buffer, &origin.source);
    push_le(&mut buffer, origin.line as u64, 4);
    push_le(&mut buffer, origin.column as u64, 4);
    assert(buffer@ =~= encode_utf8("astdiff.lineage.source-map-origin.v1"@) + optional_bytes(
        origin@.source_root,
    ) + optional_bytes(origin@.source) + bytes::le_bytes(origin@.line as int, 4)
        + bytes::le_bytes(origin@.column as int, 4));
    Some(sha256(buffer.as_slice()))
}

fn source_map_origins(a: &Analysis, text: &str, map: &SourceMap) -> (r: Result<
    Vec<Option<[u8; 32]>>,
    LineageError,
>)
    requires
        validate::rows_fit(*a),
    ensures
        match (r, positions_fault(*a, text@)) {
            (Ok(origins), None) => origins@.len() == a.symbols@.len() && context::origin_views(
                origins@,
            ) == origins_of(*a, text@, map@),
            (Err(error), Some(fault)) => error == fault,
            _ => false,
        },
{
    let count: usize = a.symbols.len();
    let mut offsets: Vec<u64> = Vec::new();
    let mut row: usize = 0;
    while row < count
        invariant
            row <= count,
            count == a.symbols@.len(),
            validate::rows_fit(*a),
            offsets@.len() == row,
            forall|k: int| 0 <= k < row ==> #[trigger] offsets@[k] == declaration_bytes(*a)[k],
        decreases count - row,
    {
        offsets.push(a.nodes[a.symbols[row].declaration_node as usize].start_byte);
        row += 1;
    }
    assert(offsets@ =~= declaration_bytes(*a));
    let positions = match positions_for_byte_offsets(text, offsets.as_slice()) {
        Ok(positions) => positions,
        Err(error) => {
            return Err(LineageError::SourceMap(error));
        },
    };
    let mut origins: Vec<Option<[u8; 32]>> = Vec::new();
    let mut k: usize = 0;
    while k < count
        invariant
            k <= count,
            count == a.symbols@.len(),
            positions@.len() == count,
            offsets@ == declaration_bytes(*a),
            forall|i: int|
                0 <= i < count ==> #[trigger] positions@[i] == sourcemap::positions::position_of(
                    text@,
                    offsets@[i],
                ),
            origins@.len() == k,
            forall|i: int|
                0 <= i < k ==> context::origin_view(#[trigger] origins@[i]) == origin_of_byte(
                    text@,
                    map@,
                    declaration_bytes(*a)[i],
                ),
        decreases count - k,
    {
        let origin: Option<[u8; 32]> = match map.lookup(positions[k]) {
            Some(origin) => origin_hash(&origin),
            None => None,
        };
        origins.push(origin);
        k += 1;
    }
    assert(context::origin_views(origins@) =~= origins_of(*a, text@, map@));
    Ok(origins)
}

/// Whether a text is the one that was analyzed.
pub open spec fn is_text_of(a: Analysis, text: Seq<char>) -> bool {
    digest::sha256_of(encode_utf8(text)) == a.source_digest@
}

/// Whether a text is the one that was analyzed.
pub fn matches_text(a: &Analysis, text: &str) -> (r: bool)
    ensures
        r == is_text_of(*a, text@),
{
    let digest = sha256(text.as_bytes());
    same_bytes(digest.as_slice(), a.source_digest.as_slice())
}

/// Why two analyses cannot be matched with source maps.
pub open spec fn mapped_fault(
    source: Analysis,
    target: Analysis,
    config: MatcherConfig,
    source_text: Seq<char>,
    target_text: Seq<char>,
) -> Option<LineageError> {
    if analysis_error(source) is Some {
        analysis_error(source)
    } else if analysis_error(target) is Some {
        analysis_error(target)
    } else if !is_text_of(source, source_text) || !is_text_of(target, target_text) {
        Some(LineageError::InexactText)
    } else if positions_fault(source, source_text) is Some {
        positions_fault(source, source_text)
    } else if positions_fault(target, target_text) is Some {
        positions_fault(target, target_text)
    } else {
        match_fault(source, target, config)
    }
}

/// The report of two analyses matched with source maps.
pub open spec fn mapped_report(
    source: Analysis,
    target: Analysis,
    config: MatcherConfig,
    source_text: Seq<char>,
    target_text: Seq<char>,
    source_map: SourceMap,
    target_map: SourceMap,
) -> ReportModel {
    report_of(
        source,
        target,
        pairing_of(
            source,
            target,
            config,
            Some(origins_of(source, source_text, source_map@)),
            Some(origins_of(target, target_text, target_map@)),
        ),
        Some(text::hex_of(source_map.digest_spec())),
        Some(text::hex_of(target_map.digest_spec())),
    )
}

/// Matches symbols with the help of source maps. Callers provide both maps and
/// both exact generated texts.
pub fn match_analyses_with_source_maps(
    source: &Analysis,
    target: &Analysis,
    config: MatcherConfig,
    source_text: &str,
    target_text: &str,
    source_map: &SourceMap,
    target_map: &SourceMap,
) -> (r: Result<LineageReport, LineageError>)
    ensures
        is_outcome(
            r,
            mapped_fault(*source, *target, config, source_text@, target_text@),
            mapped_report(
                *source,
                *target,
                config,
                source_text@,
                target_text@,
                *source_map,
                *target_map,
            ),
        ),
{
    match check_analysis(source) {
        Ok(()) => {},
        Err(error) => {
            return Err(error);
        },
    }
    match check_analysis(target) {
        Ok(()) => {},
        Err(error) => {
            return Err(error);
        },
    }
    if !matches_text(source, source_text) || !matches_text(target, target_text) {
        return Err(LineageError::InexactText);
    }
    let source_origins = match source_map_origins(source, source_text, source_map) {
        Ok(origins) => origins,
        Err(error) => {
            return Err(error);
        },
    };
    let target_origins = match source_map_origins(target, target_text, target_map) {
        Ok(origins) => origins,
        Err(error) => {
            return Err(error);
        },
    };
    match_analyses_internal(
        source,
        target,
        config,
        Some(source_origins),
        Some(target_origins),
        Some(hex_text(source_map.digest().as_slice())),
        Some(hex_text(target_map.digest().as_slice())),
    )
}

} // verus!
