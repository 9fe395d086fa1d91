//! Which matches are accepted.

use vstd::prelude::*;
use vstd::string::*;

use super::candidates::Pairing;
use super::score::CandidateScore;
use super::{
    CandidateStats, ConfidenceTier, MatchDecision, MatchEvidence, MatchModel, MatcherConfig,
    SymbolMatch,
};
use crate::analysis::{Analysis, AnalysisSymbol};
use crate::{sets, text};

use super::context::ContextModel;
use super::{candidates, score};

verus! {

/// The score of a source and a target.
pub open spec fn pair_score(p: Pairing, s: int, t: int) -> int {
    score::score_of(p.source[s], p.target[t])
}

/// Whether a source was compared with a target.
pub open spec fn competes(p: Pairing, s: int, t: int) -> bool {
    candidates::scored(p, s).contains(t)
}

/// The first of the best sources for a target among the first `count`.
pub open spec fn leader_upto(p: Pairing, t: int, count: int) -> Option<int>
    decreases count,
{
    if count <= 0 {
        None
    } else {
        let earlier = leader_upto(p, t, count - 1);
        if competes(p, count - 1, t) && (earlier matches Some(best) ==> pair_score(p, best, t)
            < pair_score(p, count - 1, t)) {
            Some(count - 1)
        } else {
            earlier
        }
    }
}

/// The first of the best sources for a target.
pub open spec fn leader(p: Pairing, t: int) -> Option<int> {
    leader_upto(p, t, p.source.len() as int)
}

/// The best score of a target among the first `count` sources, one left out.
pub open spec fn rival_upto(p: Pairing, s: int, t: int, count: int) -> int
    decreases count,
{
    if count <= 0 {
        0
    } else if count - 1 != s && competes(p, count - 1, t) {
        score::larger(rival_upto(p, s, t, count - 1), pair_score(p, count - 1, t))
    } else {
        rival_upto(p, s, t, count - 1)
    }
}

/// The best score that another source has with a target.
pub open spec fn rival_score(p: Pairing, s: int, t: int) -> int {
    rival_upto(p, s, t, p.source.len() as int)
}

/// What remains of a number after another is taken away.
pub open spec fn remainder(a: int, b: int) -> int {
    if a > b {
        a - b
    } else {
        0
    }
}

/// The best target of a source.
pub open spec fn best_target(p: Pairing, s: int) -> int {
    candidates::scored(p, s)[0]
}

/// The score of a source's best target.
pub open spec fn best_score(p: Pairing, s: int) -> int {
    pair_score(p, s, best_target(p, s))
}

/// How far the best target of a source is ahead of the next one.
pub open spec fn source_margin(p: Pairing, s: int) -> int {
    let list = candidates::scored(p, s);
    remainder(
        best_score(p, s),
        if list.len() > 1 {
            pair_score(p, s, list[1])
        } else {
            0
        },
    )
}

/// How far a source is ahead of other sources of its best target.
pub open spec fn target_margin(p: Pairing, s: int) -> int {
    remainder(best_score(p, s), rival_score(p, s, best_target(p, s)))
}

/// Whether a source matches its best target: it leads there, and is certain
/// or clear enough.
pub open spec fn is_accepted(p: Pairing, s: int) -> bool {
    &&& candidates::scored(p, s).len() > 0
    &&& leader(p, best_target(p, s)) == Some(s)
    &&& candidates::is_anchor(p, s) || (best_score(p, s) >= p.config.min_score_bps
        && source_margin(p, s) >= p.config.min_margin_bps && target_margin(p, s)
        >= p.config.min_margin_bps && !candidates::is_truncated(p, s))
}

/// What becomes of a source.
pub open spec fn decision_of(p: Pairing, s: int) -> MatchDecision {
    if candidates::scored(p, s).len() == 0 {
        MatchDecision::Deleted
    } else if is_accepted(p, s) {
        MatchDecision::Accepted
    } else {
        MatchDecision::Abstained
    }
}

/// How far the best target of a source can be relied on.
pub open spec fn confidence_of(p: Pairing, s: int) -> ConfidenceTier {
    if candidates::is_anchor(p, s) {
        ConfidenceTier::Exact
    } else if best_score(p, s) >= 8500 && source_margin(p, s) >= 1500 && target_margin(p, s)
        >= 1500 {
        ConfidenceTier::High
    } else if best_score(p, s) >= 7200 && source_margin(p, s) >= 700 && target_margin(p, s)
        >= 700 {
        ConfidenceTier::Medium
    } else {
        ConfidenceTier::Low
    }
}

/// What speaks for a pair.
pub open spec fn evidence_of(source: ContextModel, target: ContextModel) -> MatchEvidence {
    MatchEvidence {
        exact_shape: source.digest == target.digest,
        shape_bps: score::hash_similarity(source.shape_hash, target.shape_hash) as u32,
        context_bps: score::hash_similarity(source.context_hash, target.context_hash) as u32,
        roles_bps: score::roles_similarity(source.roles, target.roles) as u32,
        size_bps: score::size_similarity(source.size, target.size) as u32,
        scope_bps: score::depth_similarity(source.scope_depth, target.scope_depth) as u32,
        shared_rare_features: sets::shared(
            source.features,
            target.features,
            source.features.len() as int,
        ) as u32,
        source_map_origin_match: score::origins_match(source.origin, target.origin),
    }
}

/// The spelled identity of a symbol.
pub open spec fn symbol_text(symbols: Seq<AnalysisSymbol>, row: int) -> Seq<char> {
    text::hex_of(symbols[row].id.0@)
}

/// The record of a source symbol.
pub open spec fn record_of(
    p: Pairing,
    source: Seq<AnalysisSymbol>,
    target: Seq<AnalysisSymbol>,
    s: int,
) -> MatchModel {
    let list = candidates::scored(p, s);
    if list.len() == 0 {
        MatchModel {
            source_row: s as u32,
            source_symbol_id: symbol_text(source, s),
            target_row: None,
            target_symbol_id: None,
            decision: MatchDecision::Deleted,
            confidence: ConfidenceTier::Low,
            score_bps: 0,
            source_margin_bps: 0,
            target_margin_bps: 0,
            candidate_count: 0,
            candidates_truncated: candidates::is_truncated(p, s),
            evidence: None,
        }
    } else {
        MatchModel {
            source_row: s as u32,
            source_symbol_id: symbol_text(source, s),
            target_row: Some(best_target(p, s) as u32),
            target_symbol_id: Some(symbol_text(target, best_target(p, s))),
            decision: decision_of(p, s),
            confidence: confidence_of(p, s),
            score_bps: best_score(p, s) as u32,
            source_margin_bps: source_margin(p, s) as u32,
            target_margin_bps: target_margin(p, s) as u32,
            candidate_count: list.len() as u32,
            candidates_truncated: candidates::is_truncated(p, s),
            evidence: Some(evidence_of(p.source[s], p.target[best_target(p, s)])),
        }
    }
}

/// The records of all source symbols.
pub open spec fn records_of(
    p: Pairing,
    source: Seq<AnalysisSymbol>,
    target: Seq<AnalysisSymbol>,
) -> Seq<MatchModel> {
    Seq::new(p.source.len(), |s: int| record_of(p, source, target, s))
}

/// Whether a target is the accepted match of a source.
pub open spec fn is_taken(p: Pairing, t: int) -> bool {
    exists|s: int|
        0 <= s < p.source.len() && #[trigger] is_accepted(p, s) && best_target(p, s) == t
}

/// The targets among the first `count` that no source was compared with.
pub open spec fn added_upto(p: Pairing, count: int) -> Seq<u32>
    decreases count,
{
    if count <= 0 {
        Seq::empty()
    } else if !is_taken(p, count - 1) && leader(p, count - 1) is None {
        added_upto(p, count - 1).push((count - 1) as u32)
    } else {
        added_upto(p, count - 1)
    }
}

/// The targets among the first `count` that some source was compared with,
/// and none accepted.
pub open spec fn ambiguous_upto(p: Pairing, count: int) -> Seq<u32>
    decreases count,
{
    if count <= 0 {
        Seq::empty()
    } else if !is_taken(p, count - 1) && leader(p, count - 1) is Some {
        ambiguous_upto(p, count - 1).push((count - 1) as u32)
    } else {
        ambiguous_upto(p, count - 1)
    }
}

/// How many of the first `count` sources have a decision.
pub open spec fn decisions_upto(p: Pairing, decision: MatchDecision, count: int) -> nat
    decreases count,
{
    if count <= 0 {
        0
    } else {
        decisions_upto(p, decision, count - 1) + if decision_of(p, count - 1) == decision {
            1nat
        } else {
            0
        }
    }
}

/// How many of the first `count` sources are accepted anchors.
pub open spec fn anchors_upto(p: Pairing, count: int) -> nat
    decreases count,
{
    if count <= 0 {
        0
    } else {
        anchors_upto(p, count - 1) + if is_accepted(p, count - 1) && candidates::is_anchor(
            p,
            count - 1,
        ) {
            1nat
        } else {
            0
        }
    }
}

/// How many of the first `count` sources have more candidates than compared.
pub open spec fn truncated_upto(p: Pairing, count: int) -> nat
    decreases count,
{
    if count <= 0 {
        0
    } else {
        truncated_upto(p, count - 1) + if candidates::is_truncated(p, count - 1) {
            1nat
        } else {
            0
        }
    }
}

/// How many pairs of the first `count` sources were compared.
pub open spec fn pairs_upto(p: Pairing, count: int) -> nat
    decreases count,
{
    if count <= 0 {
        0
    } else {
        pairs_upto(p, count - 1) + candidates::scored(p, count - 1).len()
    }
}

/// What a matching took and gave.
pub open spec fn stats_of(p: Pairing) -> CandidateStats {
    let n = p.source.len() as int;
    CandidateStats {
        source_symbols: n as u64,
        target_symbols: p.target.len() as u64,
        exact_unique_anchors: anchors_upto(p, n) as u64,
        candidate_pairs: pairs_upto(p, n) as u64,
        expensive_comparisons: pairs_upto(p, n) as u64,
        truncated_sources: truncated_upto(p, n) as u64,
        accepted: decisions_upto(p, MatchDecision::Accepted, n) as u64,
        abstained: decisions_upto(p, MatchDecision::Abstained, n) as u64,
        deleted: decisions_upto(p, MatchDecision::Deleted, n) as u64,
        added: added_upto(p, p.target.len() as int).len() as u64,
        ambiguous_targets: ambiguous_upto(p, p.target.len() as int).len() as u64,
    }
}

/// Accepted matches are one-to-one: no target is accepted for two sources.
pub proof fn law_accepted_matches_are_one_to_one(p: Pairing, a: int, b: int)
    requires
        0 <= a < p.source.len(),
        0 <= b < p.source.len(),
        is_accepted(p, a),
        is_accepted(p, b),
        best_target(p, a) == best_target(p, b),
    ensures
        a == b,
{
}

/// A leader was compared with its target, and no source scores higher.
proof fn lemma_leader(p: Pairing, t: int, count: int)
    ensures
        match leader_upto(p, t, count) {
            Some(best) => {
                &&& 0 <= best < count
                &&& competes(p, best, t)
                &&& forall|k: int|
                    0 <= k < count && #[trigger] competes(p, k, t) ==> pair_score(p, k, t)
                        <= pair_score(p, best, t)
            },
            None => forall|k: int| 0 <= k < count ==> !#[trigger] competes(p, k, t),
        },
    decreases count,
{
    if count > 0 {
        lemma_leader(p, t, count - 1);
    }
}

/// The best score with one source left out.
proof fn lemma_rival(p: Pairing, s: int, t: int, count: int)
    ensures
        0 <= rival_upto(p, s, t, count),
        forall|k: int|
            0 <= k < count && k != s && #[trigger] competes(p, k, t) ==> pair_score(p, k, t)
                <= rival_upto(p, s, t, count),
        rival_upto(p, s, t, count) == 0 || exists|k: int|
            0 <= k < count && k != s && #[trigger] competes(p, k, t) && pair_score(p, k, t)
                == rival_upto(p, s, t, count),
    decreases count,
{
    if count > 0 {
        lemma_rival(p, s, t, count - 1);
    }
}

/// Where a source does not lead, its rival is the leader.
proof fn lemma_rival_is_leader(p: Pairing, s: int, t: int, count: int, best: int)
    requires
        leader_upto(p, t, count) == Some(best),
        best != s,
        pair_score(p, best, t) >= 0,
    ensures
        rival_upto(p, s, t, count) == pair_score(p, best, t),
{
    lemma_leader(p, t, count);
    lemma_rival(p, s, t, count);
    assert(competes(p, best, t));
    if rival_upto(p, s, t, count) != 0 {
        let k = choose|k: int|
            0 <= k < count && k != s && #[trigger] competes(p, k, t) && pair_score(p, k, t)
                == rival_upto(p, s, t, count);
        assert(competes(p, k, t));
    }
}

/// Where nothing was compared before, there is no rival.
proof fn lemma_no_rival(p: Pairing, s: int, t: int, count: int)
    requires
        leader_upto(p, t, count) is None,
    ensures
        rival_upto(p, s, t, count) == 0,
{
    lemma_leader(p, t, count);
    lemma_rival(p, s, t, count);
}

/// The best and the next best source of a target so far.
pub struct Standing {
    pub leader: Option<usize>,
    pub best: u32,
    pub second: u32,
}

/// Whether standings are those after `count` sources, and for targets that
/// the first `done` candidates of the next source hold, after one more.
spec fn standings_are(
    standings: Seq<Standing>,
    p: Pairing,
    count: int,
    done: Seq<int>,
) -> bool {
    &&& standings.len() == p.target.len()
    &&& forall|t: int|
        0 <= t < standings.len() ==> standing_is(
            #[trigger] standings[t],
            p,
            t,
            if done.contains(t) {
                count + 1
            } else {
                count
            },
        )
}

/// Whether a standing is that of a target after `count` sources.
pub open spec fn standing_is(standing: Standing, p: Pairing, t: int, count: int) -> bool {
    match leader_upto(p, t, count) {
        Some(best) => {
            &&& standing.leader matches Some(row) && row == best
            &&& standing.best == pair_score(p, best, t)
            &&& standing.second == rival_upto(p, best, t, count)
        },
        None => standing.leader is None,
    }
}

proof fn lemma_standing_step(
    before: Standing,
    after: Standing,
    p: Pairing,
    t: int,
    count: int,
    value: u32,
)
    requires
        0 <= count <= usize::MAX,
        standing_is(before, p, t, count),
        competes(p, count, t),
        value == pair_score(p, count, t),
        after == (match before.leader {
            None => Standing { leader: Some(count as usize), best: value, second: 0 },
            Some(row) => if value > before.best {
                Standing { leader: Some(count as usize), best: value, second: before.best }
            } else if value > before.second {
                Standing { leader: Some(row), best: before.best, second: value }
            } else {
                before
            },
        }),
    ensures
        standing_is(after, p, t, count + 1),
{
    match leader_upto(p, t, count) {
        None => {
            lemma_no_rival(p, count, t, count);
        },
        Some(best) => {
            lemma_leader(p, t, count);
            lemma_rival_is_leader(p, count, t, count, best);
        },
    }
}

proof fn lemma_standing_skip(standing: Standing, p: Pairing, t: int, count: int)
    requires
        0 <= count,
        standing_is(standing, p, t, count),
        !competes(p, count, t),
    ensures
        standing_is(standing, p, t, count + 1),
{
}

/// Every source's scores.
pub struct Scores {
    pub lists: Vec<Vec<CandidateScore>>,
    pub truncated: Vec<bool>,
}

/// Whether scores are those of every source.
pub open spec fn scores_are(scores: Scores, p: Pairing) -> bool {
    &&& scores.lists@.len() == p.source.len()
    &&& scores.truncated@.len() == p.source.len()
    &&& forall|s: int|
        0 <= s < p.source.len() ==> candidates::are_scores((#[trigger] scores.lists@[s])@, p, s)
    &&& forall|s: int|
        0 <= s < p.source.len() ==> #[trigger] scores.truncated@[s] == candidates::is_truncated(
            p,
            s,
        )
}

/// The best and the next best source of every target.
pub(crate) fn rank_sources(scores: &Scores, targets: usize, p: Ghost<Pairing>) -> (standings: Vec<
    Standing,
>)
    requires
        scores_are(*scores, p@),
        targets == p@.target.len(),
    ensures
        standings@.len() == targets,
        forall|t: int|
            0 <= t < targets ==> standing_is(
                #[trigger] standings@[t],
                p@,
                t,
                p@.source.len() as int,
            ),
{
    let mut standings: Vec<Standing> = Vec::new();
    while standings.len() < targets
        invariant
            standings@.len() <= targets,
            forall|t: int|
                0 <= t < standings@.len() ==> standing_is(#[trigger] standings@[t], p@, t, 0),
        decreases targets - standings@.len(),
    {
        standings.push(Standing { leader: None, best: 0, second: 0 });
    }
    let mut s: usize = 0;
    while s < scores.lists.len()
        invariant
            s <= scores.lists@.len(),
            scores_are(*scores, p@),
            targets == p@.target.len(),
            standings@.len() == targets,
            forall|t: int|
                0 <= t < targets ==> standing_is(#[trigger] standings@[t], p@, t, s as int),
        decreases scores.lists@.len() - s,
    {
        let list = &scores.lists[s];
        let ghost rows = candidates::scored(p@, s as int);
        assert(candidates::are_scores(list@, p@, s as int));
        let mut k: usize = 0;
        proof {
            assert(rows.take(0) =~= Seq::<int>::empty());
            candidates::law_candidates_are_bounded(p@, s as int);
        }
        while k < list.len()
            invariant
                k <= list@.len(),
                s < p@.source.len(),
                s < usize::MAX,
                rows == candidates::scored(p@, s as int),
                candidates::are_scores(list@, p@, s as int),
                rows.no_duplicates(),
                targets == p@.target.len(),
                standings@.len() == targets,
                standings_are(standings@, p@, s as int, rows.take(k as int)),
            decreases list@.len() - k,
        {
            let found = &list[k];
            let t = found.target;
            let ghost earlier = standings@;
            proof {
                assert(list@[k as int].target == rows[k as int]);
                assert(candidates::is_score(list@[k as int], p@, s as int));
                assert(!rows.take(k as int).contains(t as int)) by {
                    if rows.take(k as int).contains(t as int) {
                        let j = choose|j: int| 0 <= j < k && rows.take(k as int)[j] == t as int;
                        assert(rows[j] == rows[k as int]);
                    }
                }
                assert(standing_is(earlier[t as int], p@, t as int, s as int));
                assert(competes(p@, s as int, t as int)) by {
                    assert(rows[k as int] == t as int);
                }
            }
            let known = &standings[t];
            let next = match known.leader {
                None => Standing { leader: Some(s), best: found.score, second: 0 },
                Some(row) => if found.score > known.best {
                    Standing { leader: Some(s), best: found.score, second: known.best }
                } else if found.score > known.second {
                    Standing { leader: Some(row), best: known.best, second: found.score }
                } else {
                    Standing { leader: known.leader, best: known.best, second: known.second }
                },
            };
            proof {
                lemma_standing_step(
                    earlier[t as int],
                    next,
                    p@,
                    t as int,
                    s as int,
                    found.score,
                );
            }
            standings.set(t, next);
            proof {
                let shorter = rows.take(k as int);
                let longer = rows.take(k + 1);
                assert forall|other: int| 0 <= other < standings@.len() implies standing_is(
                    #[trigger] standings@[other],
                    p@,
                    other,
                    if longer.contains(other) {
                        s + 1
                    } else {
                        s as int
                    },
                ) by {
                    assert(standing_is(
                        earlier[other],
                        p@,
                        other,
                        if shorter.contains(other) {
                            s + 1
                        } else {
                            s as int
                        },
                    ));
                    if other == t {
                        assert(longer[k as int] == other);
                    } else {
                        if shorter.contains(other) {
                            let j = choose|j: int| 0 <= j < shorter.len() && shorter[j] == other;
                            assert(longer[j] == other);
                        }
                        if longer.contains(other) {
                            let j = choose|j: int| 0 <= j < longer.len() && longer[j] == other;
                            assert(j < k);
                            assert(shorter[j] == other);
                        }
                    }
                }
            }
            k += 1;
        }
        proof {
            assert(rows.take(k as int) =~= rows);
            assert forall|t: int| 0 <= t < targets implies standing_is(
                #[trigger] standings@[t],
                p@,
                t,
                s + 1,
            ) by {
                if !rows.contains(t) {
                    assert(standing_is(standings@[t], p@, t, s as int));
                    lemma_standing_skip(standings@[t], p@, t, s as int);
                }
            }
        }
        s += 1;
    }
    standings
}

fn less(a: u32, b: u32) -> (r: u32)
    ensures
        r == remainder(a as int, b as int),
{
    if a > b {
        a - b
    } else {
        0
    }
}

fn confidence_tier(anchor: bool, best: u32, source: u32, target: u32) -> (tier: ConfidenceTier)
    ensures
        tier == (if anchor {
            ConfidenceTier::Exact
        } else if best >= 8500 && source >= 1500 && target >= 1500 {
            ConfidenceTier::High
        } else if best >= 7200 && source >= 700 && target >= 700 {
            ConfidenceTier::Medium
        } else {
            ConfidenceTier::Low
        }),
{
    if anchor {
        ConfidenceTier::Exact
    } else if best >= 8_500 && source >= 1_500 && target >= 1_500 {
        ConfidenceTier::High
    } else if best >= 7_200 && source >= 700 && target >= 700 {
        ConfidenceTier::Medium
    } else {
        ConfidenceTier::Low
    }
}

proof fn lemma_evidence(evidence: MatchEvidence, source: ContextModel, target: ContextModel)
    requires
        score::is_evidence_of(evidence, source, target),
    ensures
        evidence == evidence_of(source, target),
{
}

/// Decides on one source symbol.
pub fn decide(
    scores: &Scores,
    standings: &Vec<Standing>,
    source: &Analysis,
    target: &Analysis,
    s: usize,
    anchor: bool,
    config: &MatcherConfig,
    p: Ghost<Pairing>,
) -> (record: SymbolMatch)
    requires
        scores_are(*scores, p@),
        s < p@.source.len(),
        p@.source.len() == source.symbols@.len(),
        p@.target.len() == target.symbols@.len(),
        p@.source.len() <= u32::MAX,
        p@.target.len() <= u32::MAX,
        *config == p@.config,
        anchor == candidates::is_anchor(p@, s as int),
        standings@.len() == p@.target.len(),
        forall|t: int|
            0 <= t < p@.target.len() ==> standing_is(
                #[trigger] standings@[t],
                p@,
                t,
                p@.source.len() as int,
            ),
    ensures
        record@ == record_of(p@, source.symbols@, target.symbols@, s as int),
        record.decision == decision_of(p@, s as int),
{
    let list = &scores.lists[s];
    let ghost rows = candidates::scored(p@, s as int);
    assert(candidates::are_scores(list@, p@, s as int));
    let truncated = scores.truncated[s];
    let source_symbol_id = source.symbols[s].id.to_hex();
    if list.len() == 0 {
        return SymbolMatch {
            source_row: s as u32,
            source_symbol_id,
            target_row: None,
            target_symbol_id: None,
            decision: MatchDecision::Deleted,
            confidence: ConfidenceTier::Low,
            score_bps: 0,
            source_margin_bps: 0,
            target_margin_bps: 0,
            candidate_count: 0,
            candidates_truncated: truncated,
            evidence: None,
        };
    }
    let best = &list[0];
    let t = best.target;
    proof {
        assert(list@[0].target == rows[0]);
        assert(candidates::is_score(list@[0], p@, s as int));
        lemma_evidence(best.evidence, p@.source[s as int], p@.target[t as int]);
        assert(standing_is(standings@[t as int], p@, t as int, p@.source.len() as int));
        lemma_leader(p@, t as int, p@.source.len() as int);
        assert(competes(p@, s as int, t as int)) by {
            assert(rows.contains(rows[0]));
        }
    }
    let runner_up: u32 = if list.len() > 1 {
        assert(list@[1].target == rows[1]);
        assert(candidates::is_score(list@[1], p@, s as int));
        list[1].score
    } else {
        0
    };
    let source_margin_bps = less(best.score, runner_up);
    let standing = &standings[t];
    let leads = match standing.leader {
        Some(row) => row == s,
        None => false,
    };
    let rival: u32 = if leads {
        standing.second
    } else {
        standing.best
    };
    proof {
        if !leads {
            let row = leader(p@, t as int)->0;
            lemma_rival_is_leader(p@, s as int, t as int, p@.source.len() as int, row);
        }
    }
    let target_margin_bps = less(best.score, rival);
    let accepted = leads && (anchor || (best.score >= config.min_score_bps && source_margin_bps
        >= config.min_margin_bps && target_margin_bps >= config.min_margin_bps && !truncated));
    proof {
        candidates::law_candidates_are_bounded(p@, s as int);
    }
    SymbolMatch {
        source_row: s as u32,
        source_symbol_id,
        target_row: Some(t as u32),
        target_symbol_id: Some(target.symbols[t].id.to_hex()),
        decision: if accepted {
            MatchDecision::Accepted
        } else {
            MatchDecision::Abstained
        },
        confidence: confidence_tier(anchor, best.score, source_margin_bps, target_margin_bps),
        score_bps: best.score,
        source_margin_bps,
        target_margin_bps,
        candidate_count: list.len() as u32,
        candidates_truncated: truncated,
        evidence: Some(best.evidence),
    }
}

} // verus!
