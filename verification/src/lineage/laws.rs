//! What holds of every lineage report.

use vstd::prelude::*;

use super::candidates::Pairing;
use super::context::ContextModel;
use super::{ConfidenceTier, MatchDecision, MatcherConfig, ReportModel, SCORE_SCALE};
use crate::analysis::Analysis;
use crate::sourcemap::SourceMap;

use super::{candidates, context, decide, matcher, report, score};
use crate::text;

verus! {

/// Whether a target among those below `sources` is accepted.
spec fn taken_below(p: Pairing, t: int, sources: int) -> bool {
    exists|s: int|
        0 <= s < sources && #[trigger] decide::is_accepted(p, s) && decide::best_target(p, s) == t
}

/// How many of the first `count` targets the first `sources` sources take.
spec fn taken_count(p: Pairing, sources: int, count: int) -> nat
    decreases count,
{
    if count <= 0 {
        0
    } else {
        taken_count(p, sources, count - 1) + if taken_below(p, count - 1, sources) {
            1nat
        } else {
            0
        }
    }
}

proof fn lemma_none_taken(p: Pairing, count: int)
    ensures
        taken_count(p, 0, count) == 0,
    decreases count,
{
    if count > 0 {
        lemma_none_taken(p, count - 1);
    }
}

proof fn lemma_taken_step(p: Pairing, s: int, t: int)
    requires
        0 <= s < p.source.len(),
    ensures
        taken_below(p, t, s + 1) == (taken_below(p, t, s) || (decide::is_accepted(p, s)
            && decide::best_target(p, s) == t)),
        decide::is_accepted(p, s) && decide::best_target(p, s) == t ==> !taken_below(p, t, s),
{
    if taken_below(p, t, s) {
        let k = choose|k: int|
            0 <= k < s && #[trigger] decide::is_accepted(p, k) && decide::best_target(p, k) == t;
        assert(decide::is_accepted(p, k));
        if decide::is_accepted(p, s) && decide::best_target(p, s) == t {
            decide::law_accepted_matches_are_one_to_one(p, k, s);
        }
    }
    if taken_below(p, t, s + 1) && !taken_below(p, t, s) {
        let k = choose|k: int|
            0 <= k < s + 1 && #[trigger] decide::is_accepted(p, k) && decide::best_target(p, k)
                == t;
        assert(k == s);
    }
}

proof fn lemma_taken_count_step(p: Pairing, s: int, count: int)
    requires
        0 <= s < p.source.len(),
        decide::is_accepted(p, s) ==> 0 <= decide::best_target(p, s),
    ensures
        taken_count(p, s + 1, count) == taken_count(p, s, count) + if decide::is_accepted(p, s)
            && decide::best_target(p, s) < count {
            1nat
        } else {
            0
        },
    decreases count,
{
    if count > 0 {
        lemma_taken_count_step(p, s, count - 1);
        lemma_taken_step(p, s, count - 1);
    }
}

proof fn lemma_best_target(p: Pairing, s: int)
    requires
        candidates::scored(p, s).len() > 0,
    ensures
        0 <= decide::best_target(p, s) < p.target.len(),
        decide::competes(p, s, decide::best_target(p, s)),
{
    candidates::law_candidates_are_bounded(p, s);
    assert(candidates::scored(p, s).contains(candidates::scored(p, s)[0]));
}

proof fn lemma_taken_total(p: Pairing, sources: int)
    requires
        0 <= sources <= p.source.len(),
    ensures
        taken_count(p, sources, p.target.len() as int) == decide::decisions_upto(
            p,
            MatchDecision::Accepted,
            sources,
        ),
    decreases sources,
{
    if sources == 0 {
        lemma_none_taken(p, p.target.len() as int);
    } else {
        lemma_taken_total(p, sources - 1);
        if candidates::scored(p, sources - 1).len() > 0 {
            lemma_best_target(p, sources - 1);
        }
        lemma_taken_count_step(p, sources - 1, p.target.len() as int);
    }
}

proof fn lemma_partition_upto(p: Pairing, count: int)
    requires
        0 <= count,
    ensures
        taken_count(p, p.source.len() as int, count) + decide::added_upto(p, count).len()
            + decide::ambiguous_upto(p, count).len() == count,
    decreases count,
{
    if count > 0 {
        lemma_partition_upto(p, count - 1);
        assert(taken_below(p, count - 1, p.source.len() as int) == decide::is_taken(p, count - 1));
    }
}

/// Every target is accepted for one source, or added, or ambiguous: the three
/// counts sum to the number of targets.
pub proof fn law_targets_are_partitioned(p: Pairing)
    ensures
        decide::decisions_upto(p, MatchDecision::Accepted, p.source.len() as int)
            + decide::added_upto(p, p.target.len() as int).len() + decide::ambiguous_upto(
            p,
            p.target.len() as int,
        ).len() == p.target.len(),
{
    lemma_taken_total(p, p.source.len() as int);
    lemma_partition_upto(p, p.target.len() as int);
}

proof fn lemma_added(p: Pairing, count: int)
    requires
        0 <= count <= u32::MAX,
    ensures
        report::rows_ascend(decide::added_upto(p, count)),
        forall|i: int|
            0 <= i < decide::added_upto(p, count).len() ==> {
                let t = #[trigger] decide::added_upto(p, count)[i];
                t < count && !decide::is_taken(p, t as int) && decide::leader(p, t as int) is None
            },
    decreases count,
{
    if count > 0 {
        lemma_added(p, count - 1);
        let shorter = decide::added_upto(p, count - 1);
        let longer = decide::added_upto(p, count);
        assert forall|i: int| 0 < i < longer.len() implies #[trigger] report::ascends_at(
            longer,
            i,
        ) by {
            if i < shorter.len() {
                assert(report::ascends_at(shorter, i));
            } else {
                assert(shorter[i - 1] < count - 1);
            }
        }
        assert forall|i: int| 0 <= i < longer.len() implies {
            let t = #[trigger] longer[i];
            t < count && !decide::is_taken(p, t as int) && decide::leader(p, t as int) is None
        } by {
            if i < shorter.len() {
                assert(shorter[i] == longer[i]);
            }
        }
    }
}

proof fn lemma_ambiguous(p: Pairing, count: int)
    requires
        0 <= count <= u32::MAX,
    ensures
        report::rows_ascend(decide::ambiguous_upto(p, count)),
        forall|i: int|
            0 <= i < decide::ambiguous_upto(p, count).len() ==> {
                let t = #[trigger] decide::ambiguous_upto(p, count)[i];
                t < count && !decide::is_taken(p, t as int) && decide::leader(p, t as int) is Some
            },
    decreases count,
{
    if count > 0 {
        lemma_ambiguous(p, count - 1);
        let shorter = decide::ambiguous_upto(p, count - 1);
        let longer = decide::ambiguous_upto(p, count);
        assert forall|i: int| 0 < i < longer.len() implies #[trigger] report::ascends_at(
            longer,
            i,
        ) by {
            if i < shorter.len() {
                assert(report::ascends_at(shorter, i));
            } else {
                assert(shorter[i - 1] < count - 1);
            }
        }
        assert forall|i: int| 0 <= i < longer.len() implies {
            let t = #[trigger] longer[i];
            t < count && !decide::is_taken(p, t as int) && decide::leader(p, t as int) is Some
        } by {
            if i < shorter.len() {
                assert(shorter[i] == longer[i]);
            }
        }
    }
}

proof fn lemma_overlap_in_cover(left: Seq<int>, right: Seq<int>, count: int)
    requires
        0 <= count <= 6,
        forall|k: int| 0 <= k < 6 ==> 0 <= #[trigger] left[k],
        forall|k: int| 0 <= k < 6 ==> 0 <= #[trigger] right[k],
    ensures
        0 <= score::overlap(left, right, count) <= score::cover(left, right, count),
    decreases count,
{
    if count > 0 {
        lemma_overlap_in_cover(left, right, count - 1);
        assert(0 <= left[count - 1]);
        assert(0 <= right[count - 1]);
    }
}

/// Whether no symbol is used a negative number of times.
pub open spec fn roles_are_counts(c: ContextModel) -> bool {
    forall|k: int| 0 <= k < 6 ==> 0 <= #[trigger] c.roles[k]
}

proof fn lemma_ones_in_range(value: u64, count: u64)
    ensures
        score::ones(value, count) <= count,
    decreases count,
{
    if count > 0 {
        lemma_ones_in_range(value, (count - 1) as u64);
    }
}

proof fn lemma_share(part: int, whole: int)
    requires
        0 <= part <= whole,
        0 < whole,
    ensures
        0 <= part * SCORE_SCALE / whole <= SCORE_SCALE,
{
    assert(0 <= part * 10000 / whole <= 10000) by (nonlinear_arith)
        requires
            0 <= part <= whole,
            0 < whole,
    ;
}

/// Every score and every part of the evidence is at most the scale.
pub(crate) proof fn lemma_scores_in_range(a: ContextModel, b: ContextModel)
    requires
        roles_are_counts(a),
        roles_are_counts(b),
    ensures
        0 <= score::score_of(a, b) <= SCORE_SCALE,
        score::is_in_range(decide::evidence_of(a, b)),
{
    lemma_ones_in_range(a.shape_hash ^ b.shape_hash, 64);
    lemma_ones_in_range(a.context_hash ^ b.context_hash, 64);
    lemma_overlap_in_cover(a.roles, b.roles, 6);
    if score::cover(a.roles, b.roles, 6) != 0 {
        lemma_share(score::overlap(a.roles, b.roles, 6), score::cover(a.roles, b.roles, 6));
    }
    lemma_share(
        score::larger(score::smaller(a.size, b.size), 1),
        score::larger(score::larger(a.size, b.size), 1),
    );
}

/// A score is the weighted mean of the parts of the evidence.
pub(crate) proof fn lemma_evidence_weighs(a: ContextModel, b: ContextModel)
    requires
        roles_are_counts(a),
        roles_are_counts(b),
    ensures
        ({
            let e = decide::evidence_of(a, b);
            let sum = 45 * e.shape_bps + 20 * e.context_bps + 15 * e.roles_bps + 10 * e.size_bps
                + 10 * e.scope_bps;
            100 * score::score_of(a, b) <= sum < 100 * score::score_of(a, b) + 100
        }),
{
    lemma_ones_in_range(a.shape_hash ^ b.shape_hash, 64);
    lemma_ones_in_range(a.context_hash ^ b.context_hash, 64);
    lemma_overlap_in_cover(a.roles, b.roles, 6);
    if score::cover(a.roles, b.roles, 6) != 0 {
        lemma_share(score::overlap(a.roles, b.roles, 6), score::cover(a.roles, b.roles, 6));
    }
    lemma_share(
        score::larger(score::smaller(a.size, b.size), 1),
        score::larger(score::larger(a.size, b.size), 1),
    );
}

/// Whether the contexts of a pairing are those of two lists of symbols.
spec fn is_sound(p: Pairing) -> bool {
    &&& p.source.len() <= u32::MAX
    &&& p.target.len() <= u32::MAX
    &&& super::config_is_valid(p.config)
    &&& forall|k: int| 0 <= k < p.source.len() ==> roles_are_counts(#[trigger] p.source[k])
    &&& forall|k: int| 0 <= k < p.target.len() ==> roles_are_counts(#[trigger] p.target[k])
}

/// Whether a report is the one of a pairing of two analyses.
spec fn is_report(
    r: ReportModel,
    source: Analysis,
    target: Analysis,
    p: Pairing,
    source_map: Option<Seq<char>>,
    target_map: Option<Seq<char>>,
) -> bool {
    &&& r == matcher::report_of(source, target, p, source_map, target_map)
    &&& is_sound(p)
    &&& p.source.len() == source.symbols@.len()
    &&& p.target.len() == target.symbols@.len()
    &&& match (source_map, target_map) {
        (Some(a), Some(b)) => text::is_digest_text(a) && text::is_digest_text(b),
        (None, None) => forall|k: int|
            0 <= k < p.source.len() ==> (#[trigger] p.source[k]).origin is None,
        _ => false,
    }
}

proof fn lemma_record_is_sound(
    r: ReportModel,
    source: Analysis,
    target: Analysis,
    p: Pairing,
    source_map: Option<Seq<char>>,
    target_map: Option<Seq<char>>,
    i: int,
)
    requires
        is_report(r, source, target, p, source_map, target_map),
        0 <= i < r.matches.len(),
    ensures
        report::match_fault(r, i) is None,
        report::row_fault(r, source, target, i) is None,
        r.matches[i].decision == decide::decision_of(p, i),
        r.matches[i].decision == MatchDecision::Accepted ==> r.matches[i].target_row == Some(
            decide::best_target(p, i) as u32,
        ) && 0 <= decide::best_target(p, i) < p.target.len(),
{
    let m = r.matches[i];
    assert(m == decide::record_of(p, source.symbols@, target.symbols@, i));
    text::lemma_hex_spells_digest(source.symbols@[i].id.0@);
    if i > 0 {
        assert(r.matches[i - 1] == decide::record_of(
            p,
            source.symbols@,
            target.symbols@,
            i - 1,
        ));
    }
    candidates::law_candidates_are_bounded(p, i);
    let list = candidates::scored(p, i);
    if list.len() > 0 {
        let t = decide::best_target(p, i);
        lemma_best_target(p, i);
        text::lemma_hex_spells_digest(target.symbols@[t].id.0@);
        lemma_scores_in_range(p.source[i], p.target[t]);
        if list.len() > 1 {
            assert(list.contains(list[1]));
            lemma_scores_in_range(p.source[i], p.target[list[1]]);
        }
        lemma_rival_is_nonnegative(p, i, t, p.source.len() as int);
        if decide::is_accepted(p, i) && report::is_accepted_before(r, t as u32, i) {
            let k = choose|k: int|
                0 <= k < i && (#[trigger] r.matches[k]).decision == MatchDecision::Accepted
                    && r.matches[k].target_row == Some(t as u32);
            assert(r.matches[k] == decide::record_of(p, source.symbols@, target.symbols@, k));
            lemma_best_target(p, k);
            decide::law_accepted_matches_are_one_to_one(p, k, i);
        }
    }
}

proof fn lemma_rival_is_nonnegative(p: Pairing, s: int, t: int, count: int)
    requires
        is_sound(p),
        0 <= t < p.target.len(),
        count <= p.source.len(),
    ensures
        0 <= decide::rival_upto(p, s, t, count),
    decreases count,
{
    if count > 0 {
        lemma_rival_is_nonnegative(p, s, t, count - 1);
    }
}

proof fn lemma_no_match_fault(r: ReportModel, i: int)
    requires
        0 <= i <= r.matches.len(),
        forall|k: int| i <= k < r.matches.len() ==> (#[trigger] report::match_fault(r, k)) is None,
    ensures
        report::first_match_fault(r, i) is None,
    decreases r.matches.len() - i,
{
    if i < r.matches.len() {
        lemma_no_match_fault(r, i + 1);
    }
}

proof fn lemma_no_row_fault(r: ReportModel, source: Analysis, target: Analysis, i: int)
    requires
        0 <= i <= r.matches.len(),
        forall|k: int|
            i <= k < r.matches.len() ==> (#[trigger] report::row_fault(
                r,
                source,
                target,
                k,
            )) is None,
    ensures
        report::first_row_fault(r, source, target, i) is None,
    decreases r.matches.len() - i,
{
    if i < r.matches.len() {
        lemma_no_row_fault(r, source, target, i + 1);
    }
}

proof fn lemma_decisions(r: ReportModel, p: Pairing, decision: MatchDecision, count: int)
    requires
        0 <= count <= r.matches.len(),
        forall|k: int|
            0 <= k < r.matches.len() ==> (#[trigger] r.matches[k]).decision == decide::decision_of(
                p,
                k,
            ),
    ensures
        report::decisions_upto(r.matches, decision, count) == decide::decisions_upto(
            p,
            decision,
            count,
        ),
        decide::decisions_upto(p, decision, count) <= count,
    decreases count,
{
    if count > 0 {
        lemma_decisions(r, p, decision, count - 1);
        assert(r.matches[count - 1].decision == decide::decision_of(p, count - 1));
    }
}

proof fn lemma_report_is_sound(
    r: ReportModel,
    source: Analysis,
    target: Analysis,
    p: Pairing,
    source_map: Option<Seq<char>>,
    target_map: Option<Seq<char>>,
)
    requires
        is_report(r, source, target, p, source_map, target_map),
        matcher::analysis_error(source) is None,
        matcher::analysis_error(target) is None,
    ensures
        report::report_fault(r) is None,
        report::against_fault(r, source, target, r) is None,
{
    let n = p.source.len() as int;
    text::lemma_hex_spells_digest(source.source_digest@);
    text::lemma_hex_spells_digest(target.source_digest@);
    assert(report::header_fault(r) is None);
    assert(r.matches.len() == n);
    assert forall|k: int| 0 <= k < n implies (#[trigger] report::match_fault(r, k)) is None by {
        lemma_record_is_sound(r, source, target, p, source_map, target_map, k);
    }
    assert forall|k: int| 0 <= k < n implies (#[trigger] report::row_fault(
        r,
        source,
        target,
        k,
    )) is None by {
        lemma_record_is_sound(r, source, target, p, source_map, target_map, k);
    }
    assert forall|k: int| 0 <= k < n implies (#[trigger] r.matches[k]).decision
        == decide::decision_of(p, k) by {
        lemma_record_is_sound(r, source, target, p, source_map, target_map, k);
    }
    lemma_no_match_fault(r, 0);
    lemma_no_row_fault(r, source, target, 0);
    lemma_decisions(r, p, MatchDecision::Accepted, n);
    lemma_decisions(r, p, MatchDecision::Abstained, n);
    lemma_decisions(r, p, MatchDecision::Deleted, n);
    let total = p.target.len() as int;
    lemma_added(p, total);
    lemma_ambiguous(p, total);
    law_targets_are_partitioned(p);
    assert forall|row: u32| #[trigger] report::is_accepted_target(r, row) implies decide::is_taken(
        p,
        row as int,
    ) by {
        let k = choose|k: int|
            0 <= k < n && (#[trigger] r.matches[k]).decision == MatchDecision::Accepted
                && r.matches[k].target_row == Some(row);
        lemma_record_is_sound(r, source, target, p, source_map, target_map, k);
        assert(decide::is_accepted(p, k));
    }
    assert(report::stats_agree(r));
    assert forall|i: int| 0 <= i < r.ambiguous_target_rows.len() implies !report::is_accepted_target(
        r,
        #[trigger] r.ambiguous_target_rows[i],
    ) && !r.added_target_rows.contains(r.ambiguous_target_rows[i]) by {
        let row = r.ambiguous_target_rows[i];
        if r.added_target_rows.contains(row) {
            let k = choose|k: int|
                0 <= k < r.added_target_rows.len() && r.added_target_rows[k] == row;
            assert(decide::leader(p, r.added_target_rows[k] as int) is None);
        }
    }
    assert(report::target_rows_agree(r));
}

pub(crate) proof fn lemma_contexts(a: Analysis, origins: Option<Seq<Option<Seq<u8>>>>)
    ensures
        context::contexts_of(a, origins).len() == a.symbols@.len(),
        forall|k: int|
            0 <= k < a.symbols@.len() ==> roles_are_counts(
                #[trigger] context::contexts_of(a, origins)[k],
            ),
{
}

/// A match is accepted only where it is an exact anchor, or where its score
/// and its margins on both sides reach the configured minima and no candidate
/// was left out. Everything else is abstained from or deleted.
pub proof fn law_accepted_matches_are_exact_or_clear(
    source: Analysis,
    target: Analysis,
    config: MatcherConfig,
    s: int,
)
    requires
        matcher::match_fault(source, target, config) is None,
        0 <= s < source.symbols@.len(),
    ensures
        ({
            let m = matcher::plain_report(source, target, config).matches[s];
            m.decision == MatchDecision::Accepted ==> {
                ||| m.confidence == ConfidenceTier::Exact
                ||| m.score_bps >= config.min_score_bps && m.source_margin_bps
                    >= config.min_margin_bps && m.target_margin_bps >= config.min_margin_bps
                    && !m.candidates_truncated
            }
        }),
{
    let p = matcher::pairing_of(source, target, config, None, None);
    lemma_contexts(source, None);
    lemma_contexts(target, None);
    let list = candidates::scored(p, s);
    if list.len() > 0 {
        lemma_best_target(p, s);
        lemma_scores_in_range(p.source[s], p.target[decide::best_target(p, s)]);
        if list.len() > 1 {
            candidates::law_candidates_are_bounded(p, s);
            assert(list.contains(list[1]));
            lemma_scores_in_range(p.source[s], p.target[list[1]]);
        }
        lemma_rival_is_nonnegative(p, s, decide::best_target(p, s), p.source.len() as int);
    }
}

/// A report validates against the two analyses that it was made from.
pub proof fn law_reports_are_reproducible(
    source: Analysis,
    target: Analysis,
    config: MatcherConfig,
)
    requires
        matcher::match_fault(source, target, config) is None,
    ensures
        report::plain_binding_fault(
            matcher::plain_report(source, target, config),
            source,
            target,
        ) is None,
{
    let p = matcher::pairing_of(source, target, config, None, None);
    lemma_contexts(source, None);
    lemma_contexts(target, None);
    lemma_report_is_sound(
        matcher::plain_report(source, target, config),
        source,
        target,
        p,
        None,
        None,
    );
}

/// A report made with source maps validates against the analyses, the texts
/// and the maps that it was made from.
pub proof fn law_mapped_reports_are_reproducible(
    source: Analysis,
    target: Analysis,
    config: MatcherConfig,
    source_text: Seq<char>,
    target_text: Seq<char>,
    source_map: SourceMap,
    target_map: SourceMap,
)
    requires
        matcher::mapped_fault(source, target, config, source_text, target_text) is None,
    ensures
        report::mapped_binding_fault(
            matcher::mapped_report(
                source,
                target,
                config,
                source_text,
                target_text,
                source_map,
                target_map,
            ),
            source,
            target,
            source_text,
            target_text,
            source_map,
            target_map,
        ) is None,
{
    let source_origins = Some(matcher::origins_of(source, source_text, source_map@));
    let target_origins = Some(matcher::origins_of(target, target_text, target_map@));
    let p = matcher::pairing_of(source, target, config, source_origins, target_origins);
    lemma_contexts(source, source_origins);
    lemma_contexts(target, target_origins);
    source_map.lemma_digest_length();
    target_map.lemma_digest_length();
    text::lemma_hex_spells_digest(source_map.digest_spec());
    text::lemma_hex_spells_digest(target_map.digest_spec());
    lemma_report_is_sound(
        matcher::mapped_report(
            source,
            target,
            config,
            source_text,
            target_text,
            source_map,
            target_map,
        ),
        source,
        target,
        p,
        Some(text::hex_of(source_map.digest_spec())),
        Some(text::hex_of(target_map.digest_spec())),
    );
}

} // verus!
