//! When a match is accepted, and what its score and margins say.

use vstd::prelude::*;

use super::candidates::Pairing;
use super::context::ContextModel;
use super::{ConfidenceTier, MatchDecision, MatchModel, MatcherConfig, SCORE_SCALE};
use crate::analysis::Analysis;
use crate::sourcemap::SourceMap;

use super::{candidates, decide, index, laws, matcher, score};
use crate::order;

verus! {

/// Whether a source was compared with a target, and of all the sources that
/// were, it scores best; of several that score the same, it is the first.
pub open spec fn is_first_choice(p: Pairing, s: int, t: int) -> bool {
    &&& 0 <= s < p.source.len()
    &&& candidates::scored(p, s).contains(t)
    &&& forall|k: int|
        0 <= k < p.source.len() && #[trigger] candidates::scored(p, k).contains(t) ==> {
            let rival = score::score_of(p.source[k], p.target[t]);
            let own = score::score_of(p.source[s], p.target[t]);
            rival < own || (rival == own && s <= k)
        }
}

/// Whether a record is clear: its score reaches the minimum, it is ahead of
/// the next candidate on both sides by the minimum, and no candidate was left
/// out.
pub open spec fn is_clear(m: MatchModel, config: MatcherConfig) -> bool {
    &&& m.score_bps >= config.min_score_bps
    &&& m.source_margin_bps >= config.min_margin_bps
    &&& m.target_margin_bps >= config.min_margin_bps
    &&& !m.candidates_truncated
}

/// Whether a source and a target have the same shape, which no other symbol
/// of their kind has on either side.
pub open spec fn is_unique_pair(p: Pairing, s: int, t: int) -> bool {
    &&& p.source[s].class == p.target[t].class
    &&& p.source[s].digest == p.target[t].digest
    &&& forall|k: int|
        0 <= k < p.source.len() && (#[trigger] p.source[k]).class == p.source[s].class
            && p.source[k].digest == p.source[s].digest ==> k == s
    &&& forall|k: int|
        0 <= k < p.target.len() && (#[trigger] p.target[k]).class == p.target[t].class
            && p.target[k].digest == p.target[t].digest ==> k == t
}

proof fn lemma_leader_is_first(p: Pairing, t: int, count: int)
    requires
        0 <= count <= p.source.len(),
    ensures
        match decide::leader_upto(p, t, count) {
            Some(best) => {
                &&& 0 <= best < count
                &&& candidates::scored(p, best).contains(t)
                &&& forall|k: int|
                    0 <= k < count && #[trigger] candidates::scored(p, k).contains(t) ==> {
                        let rival = score::score_of(p.source[k], p.target[t]);
                        let own = score::score_of(p.source[best], p.target[t]);
                        rival < own || (rival == own && best <= k)
                    }
            },
            None => forall|k: int|
                0 <= k < count ==> !#[trigger] candidates::scored(p, k).contains(t),
        },
    decreases count,
{
    if count > 0 {
        lemma_leader_is_first(p, t, count - 1);
        assert(decide::competes(p, count - 1, t) == candidates::scored(p, count - 1).contains(t));
    }
}

proof fn lemma_leader(p: Pairing, s: int, t: int)
    ensures
        (decide::leader(p, t) == Some(s)) == is_first_choice(p, s, t),
{
    lemma_leader_is_first(p, t, p.source.len() as int);
    if is_first_choice(p, s, t) {
        let best = decide::leader(p, t)->0;
        assert(candidates::scored(p, s).contains(t));
        assert(candidates::scored(p, best).contains(t));
    }
}

/// Whether the contexts of a pairing count their uses.
spec fn is_sound(p: Pairing) -> bool {
    &&& p.source.len() <= u32::MAX
    &&& p.target.len() <= u32::MAX
    &&& super::config_is_valid(p.config)
    &&& forall|k: int| 0 <= k < p.source.len() ==> laws::roles_are_counts(#[trigger] p.source[k])
    &&& forall|k: int| 0 <= k < p.target.len() ==> laws::roles_are_counts(#[trigger] p.target[k])
}

proof fn lemma_pairing_is_sound(
    source: Analysis,
    target: Analysis,
    config: MatcherConfig,
    source_origins: Option<Seq<Option<Seq<u8>>>>,
    target_origins: Option<Seq<Option<Seq<u8>>>>,
)
    requires
        matcher::match_fault(source, target, config) is None,
    ensures
        is_sound(matcher::pairing_of(source, target, config, source_origins, target_origins)),
{
    laws::lemma_contexts(source, source_origins);
    laws::lemma_contexts(target, target_origins);
}

/// The compared candidates come from the best score down; the first row comes
/// first among equals.
proof fn lemma_scored_order(p: Pairing, s: int, i: int, j: int)
    requires
        is_sound(p),
        0 <= s < p.source.len(),
        0 <= i < j < candidates::scored(p, s).len(),
    ensures
        ({
            let a = candidates::scored(p, s)[i];
            let b = candidates::scored(p, s)[j];
            let first = score::score_of(p.source[s], p.target[a]);
            let second = score::score_of(p.source[s], p.target[b]);
            first > second || (first == second && a < b)
        }),
{
    let rows = candidates::compared(p, s);
    let keys = candidates::scored_keys(p, s, rows);
    let list = candidates::scored(p, s);
    candidates::law_candidates_are_bounded(p, s);
    order::lemma_rank_is_bijective(keys);
    let x = order::row_at(keys, i);
    let y = order::row_at(keys, j);
    assert(order::comes_before(keys, x, y));
    let a = list[i];
    let b = list[j];
    assert(list.contains(a));
    assert(list.contains(b));
    assert(a == rows[x] && b == rows[y]);
    assert(keys[x] == candidates::scored_key(p, s, a));
    assert(keys[y] == candidates::scored_key(p, s, b));
    laws::lemma_scores_in_range(p.source[s], p.target[a]);
    laws::lemma_scores_in_range(p.source[s], p.target[b]);
    assert(a != b);
}

/// Whether a row is the only one with a property.
spec fn is_only_row(
    contexts: Seq<ContextModel>,
    property: spec_fn(ContextModel) -> bool,
    count: int,
    t: int,
) -> bool {
    &&& 0 <= t < count
    &&& property(contexts[t])
    &&& forall|k: int| 0 <= k < count && property(#[trigger] contexts[k]) ==> k == t
}

proof fn lemma_only_row(
    contexts: Seq<ContextModel>,
    property: spec_fn(ContextModel) -> bool,
    count: int,
)
    requires
        0 <= count <= contexts.len(),
    ensures
        index::rows_where(contexts, property, count).len() == 0 <==> forall|k: int|
            0 <= k < count ==> !property(#[trigger] contexts[k]),
        index::rows_where(contexts, property, count).len() == 1 <==> exists|t: int|
            is_only_row(contexts, property, count, t),
    decreases count,
{
    if count > 0 {
        lemma_only_row(contexts, property, count - 1);
        let shorter = index::rows_where(contexts, property, count - 1);
        let longer = index::rows_where(contexts, property, count);
        let last = property(contexts[count - 1]);
        if longer.len() == 0 {
            assert(!last);
        }
        if forall|k: int| 0 <= k < count ==> !property(#[trigger] contexts[k]) {
            assert(!last);
        }
        if longer.len() == 1 {
            if last {
                assert(shorter.len() == 0);
                assert(is_only_row(contexts, property, count, count - 1));
            } else {
                let before = count - 1;
                let t = choose|t: int| is_only_row(contexts, property, before, t);
                assert(is_only_row(contexts, property, count, t));
            }
        }
        if exists|t: int| is_only_row(contexts, property, count, t) {
            let t = choose|t: int| is_only_row(contexts, property, count, t);
            if last {
                assert(t == count - 1);
                assert(shorter.len() == 0);
            } else {
                assert(is_only_row(contexts, property, count - 1, t));
            }
        }
    }
}

pub(crate) proof fn lemma_anchor(p: Pairing, s: int)
    requires
        0 <= s < p.source.len(),
    ensures
        candidates::is_anchor(p, s) == exists|t: int|
            0 <= t < p.target.len() && #[trigger] is_unique_pair(p, s, t),
{
    let shape = index::has_shape(p.source[s].class, p.source[s].digest);
    let n = p.source.len() as int;
    let m = p.target.len() as int;
    lemma_only_row(p.source, shape, n);
    lemma_only_row(p.target, shape, m);
    if candidates::is_anchor(p, s) {
        let k = choose|k: int| is_only_row(p.source, shape, n, k);
        let t = choose|t: int| is_only_row(p.target, shape, m, t);
        assert(shape(p.source[s]));
        assert(k == s);
        assert forall|k: int|
            0 <= k < n && (#[trigger] p.source[k]).class == p.source[s].class
                && p.source[k].digest == p.source[s].digest implies k == s by {
            assert(shape(p.source[k]));
        }
        assert forall|k: int|
            0 <= k < m && (#[trigger] p.target[k]).class == p.target[t].class
                && p.target[k].digest == p.target[t].digest implies k == t by {
            assert(shape(p.target[k]));
        }
        assert(is_unique_pair(p, s, t));
    }
    if exists|t: int| 0 <= t < m && #[trigger] is_unique_pair(p, s, t) {
        let t = choose|t: int| 0 <= t < m && #[trigger] is_unique_pair(p, s, t);
        assert(is_only_row(p.source, shape, n, s));
        assert(is_only_row(p.target, shape, m, t));
    }
}

/// Whether the decision of a record follows from what was found: a source
/// without candidates is deleted, and one with candidates is accepted exactly
/// where it is the first choice of its best target, and is clear or the only
/// one of its shape on both sides.
pub open spec fn is_decided(m: MatchModel, p: Pairing, s: int) -> bool {
    match m.target_row {
        None => m.decision == MatchDecision::Deleted && candidates::scored(p, s).len() == 0,
        Some(t) => {
            let unique = exists|u: int|
                0 <= u < p.target.len() && #[trigger] is_unique_pair(p, s, u);
            &&& t < p.target.len()
            &&& candidates::scored(p, s).contains(t as int)
            &&& m.decision == (if is_first_choice(p, s, t as int) && (is_clear(m, p.config)
                || unique) {
                MatchDecision::Accepted
            } else {
                MatchDecision::Abstained
            })
            &&& (m.confidence == ConfidenceTier::Exact) == unique
        },
    }
}

/// Whether a margin is how far a score is ahead of the best of other scores:
/// no other score reaches into it, and where it is less than the score some
/// other score bounds it.
pub open spec fn is_margin(margin: int, own: int, others: Set<int>) -> bool {
    &&& 0 <= margin <= own
    &&& forall|other: int|
        #[trigger] others.contains(other) ==> other + margin <= own || (margin == 0 && other
            >= own)
    &&& margin < own ==> exists|other: int| #[trigger] others.contains(other) && other + margin >= own
}

/// The scores that a source has with its other candidates.
pub open spec fn other_target_scores(p: Pairing, s: int, t: int) -> Set<int> {
    Set::new(
        |x: int|
            exists|u: int|
                u != t && #[trigger] candidates::scored(p, s).contains(u) && x == score::score_of(
                    p.source[s],
                    p.target[u],
                ),
    )
}

/// The scores that other sources have with a target.
pub open spec fn other_source_scores(p: Pairing, s: int, t: int) -> Set<int> {
    Set::new(
        |x: int|
            exists|k: int|
                0 <= k < p.source.len() && k != s && #[trigger] candidates::scored(p, k).contains(t)
                    && x == score::score_of(p.source[k], p.target[t]),
    )
}

/// Whether a record says how well its target fits: no candidate fits better,
/// and the margins are those over the next ones on both sides.
pub open spec fn is_measured(m: MatchModel, p: Pairing, s: int) -> bool {
    m.target_row matches Some(t) ==> {
        let own = score::score_of(p.source[s], p.target[t as int]);
        &&& m.score_bps == own
        &&& forall|u: int| #[trigger]
            candidates::scored(p, s).contains(u) ==> score::score_of(p.source[s], p.target[u])
                <= own
        &&& is_margin(m.source_margin_bps as int, own, other_target_scores(p, s, t as int))
        &&& is_margin(m.target_margin_bps as int, own, other_source_scores(p, s, t as int))
        &&& m.candidate_count == candidates::scored(p, s).len()
        &&& m.evidence matches Some(e) && {
            let sum = 45 * e.shape_bps + 20 * e.context_bps + 15 * e.roles_bps + 10 * e.size_bps
                + 10 * e.scope_bps;
            100 * m.score_bps <= sum < 100 * m.score_bps + 100
        }
    }
}

proof fn lemma_best(p: Pairing, s: int)
    requires
        is_sound(p),
        0 <= s < p.source.len(),
        candidates::scored(p, s).len() > 0,
    ensures
        0 <= decide::best_target(p, s) < p.target.len(),
        candidates::scored(p, s).contains(decide::best_target(p, s)),
        0 <= decide::best_score(p, s) <= SCORE_SCALE,
        forall|u: int| #[trigger]
            candidates::scored(p, s).contains(u) ==> score::score_of(p.source[s], p.target[u])
                <= decide::best_score(p, s),
{
    let list = candidates::scored(p, s);
    candidates::law_candidates_are_bounded(p, s);
    let t = list[0];
    assert(list.contains(t));
    laws::lemma_scores_in_range(p.source[s], p.target[t]);
    assert forall|u: int| #[trigger] list.contains(u) implies score::score_of(
        p.source[s],
        p.target[u],
    ) <= decide::best_score(p, s) by {
        let j = choose|j: int| 0 <= j < list.len() && list[j] == u;
        if j > 0 {
            lemma_scored_order(p, s, 0, j);
        }
    }
}

proof fn lemma_source_margin(p: Pairing, s: int)
    requires
        is_sound(p),
        0 <= s < p.source.len(),
        candidates::scored(p, s).len() > 0,
    ensures
        is_margin(
            decide::source_margin(p, s),
            decide::best_score(p, s),
            other_target_scores(p, s, decide::best_target(p, s)),
        ),
{
    let list = candidates::scored(p, s);
    let t = list[0];
    let others = other_target_scores(p, s, t);
    candidates::law_candidates_are_bounded(p, s);
    lemma_best(p, s);
    if list.len() > 1 {
        let u = list[1];
        assert(list.contains(u));
        laws::lemma_scores_in_range(p.source[s], p.target[u]);
        let second = score::score_of(p.source[s], p.target[u]);
        lemma_scored_order(p, s, 0, 1);
        assert(others.contains(second));
        assert forall|x: int| #[trigger] others.contains(x) implies x <= second by {
            let v = choose|v: int|
                v != t && #[trigger] list.contains(v) && x == score::score_of(
                    p.source[s],
                    p.target[v],
                );
            let j = choose|j: int| 0 <= j < list.len() && list[j] == v;
            if j > 1 {
                lemma_scored_order(p, s, 1, j);
            }
        }
    } else {
        assert forall|x: int| !#[trigger] others.contains(x) by {
            if others.contains(x) {
                let v = choose|v: int|
                    v != t && #[trigger] list.contains(v) && x == score::score_of(
                        p.source[s],
                        p.target[v],
                    );
                let j = choose|j: int| 0 <= j < list.len() && list[j] == v;
            }
        }
    }
}

proof fn lemma_target_margin(p: Pairing, s: int)
    requires
        is_sound(p),
        0 <= s < p.source.len(),
        candidates::scored(p, s).len() > 0,
    ensures
        is_margin(
            decide::target_margin(p, s),
            decide::best_score(p, s),
            other_source_scores(p, s, decide::best_target(p, s)),
        ),
{
    let t = decide::best_target(p, s);
    let n = p.source.len() as int;
    let rivals = other_source_scores(p, s, t);
    let rival = decide::rival_score(p, s, t);
    lemma_best(p, s);
    lemma_rival(p, s, t, n);
    assert forall|x: int| #[trigger] rivals.contains(x) implies x <= rival by {
        let k = choose|k: int|
            0 <= k < n && k != s && #[trigger] candidates::scored(p, k).contains(t) && x
                == score::score_of(p.source[k], p.target[t]);
        assert(decide::competes(p, k, t));
    }
    if rival > 0 {
        let k = choose|k: int|
            0 <= k < n && k != s && #[trigger] decide::competes(p, k, t) && decide::pair_score(
                p,
                k,
                t,
            ) == rival;
        assert(candidates::scored(p, k).contains(t));
        assert(rivals.contains(rival));
    }
}

proof fn lemma_decided(p: Pairing, source: Analysis, target: Analysis, s: int)
    requires
        is_sound(p),
        p.source.len() == source.symbols@.len(),
        p.target.len() == target.symbols@.len(),
        0 <= s < p.source.len(),
    ensures
        is_decided(decide::record_of(p, source.symbols@, target.symbols@, s), p, s),
{
    lemma_anchor(p, s);
    if candidates::scored(p, s).len() > 0 {
        lemma_best(p, s);
        lemma_source_margin(p, s);
        lemma_target_margin(p, s);
        lemma_leader(p, s, decide::best_target(p, s));
    }
}

proof fn lemma_measured(p: Pairing, source: Analysis, target: Analysis, s: int)
    requires
        is_sound(p),
        p.source.len() == source.symbols@.len(),
        p.target.len() == target.symbols@.len(),
        0 <= s < p.source.len(),
    ensures
        is_measured(decide::record_of(p, source.symbols@, target.symbols@, s), p, s),
{
    if candidates::scored(p, s).len() > 0 {
        let t = decide::best_target(p, s);
        lemma_best(p, s);
        lemma_source_margin(p, s);
        lemma_target_margin(p, s);
        candidates::law_candidates_are_bounded(p, s);
        laws::lemma_evidence_weighs(p.source[s], p.target[t]);
    }
}

proof fn lemma_rival(p: Pairing, s: int, t: int, count: int)
    requires
        is_sound(p),
        0 <= t < p.target.len(),
        count <= p.source.len(),
    ensures
        0 <= decide::rival_upto(p, s, t, count) <= SCORE_SCALE,
        forall|k: int|
            0 <= k < count && k != s && #[trigger] decide::competes(p, k, t) ==> decide::pair_score(
                p,
                k,
                t,
            ) <= decide::rival_upto(p, s, t, count),
        decide::rival_upto(p, s, t, count) == 0 || exists|k: int|
            0 <= k < count && k != s && #[trigger] decide::competes(p, k, t) && decide::pair_score(
                p,
                k,
                t,
            ) == decide::rival_upto(p, s, t, count),
    decreases count,
{
    if count > 0 {
        lemma_rival(p, s, t, count - 1);
        laws::lemma_scores_in_range(p.source[count - 1], p.target[t]);
    }
}

/// Every record of a report says what its score and margins are over, and its
/// decision follows from them.
pub proof fn law_decisions_follow_from_scores(
    source: Analysis,
    target: Analysis,
    config: MatcherConfig,
    s: int,
)
    requires
        matcher::match_fault(source, target, config) is None,
        0 <= s < source.symbols@.len(),
    ensures
        ({
            let m = matcher::plain_report(source, target, config).matches[s];
            let p = matcher::pairing_of(source, target, config, None, None);
            is_decided(m, p, s) && is_measured(m, p, s)
        }),
{
    let p = matcher::pairing_of(source, target, config, None, None);
    lemma_pairing_is_sound(source, target, config, None, None);
    lemma_decided(p, source, target, s);
    lemma_measured(p, source, target, s);
}

/// The same holds of a report that was made with source maps.
pub proof fn law_mapped_decisions_follow_from_scores(
    source: Analysis,
    target: Analysis,
    config: MatcherConfig,
    source_text: Seq<char>,
    target_text: Seq<char>,
    source_map: SourceMap,
    target_map: SourceMap,
    s: int,
)
    requires
        matcher::mapped_fault(source, target, config, source_text, target_text) is None,
        0 <= s < source.symbols@.len(),
    ensures
        ({
            let m = matcher::mapped_report(
                source,
                target,
                config,
                source_text,
                target_text,
                source_map,
                target_map,
            ).matches[s];
            let p = matcher::pairing_of(
                source,
                target,
                config,
                Some(matcher::origins_of(source, source_text, source_map@)),
                Some(matcher::origins_of(target, target_text, target_map@)),
            );
            is_decided(m, p, s) && is_measured(m, p, s)
        }),
{
    let a = Some(matcher::origins_of(source, source_text, source_map@));
    let b = Some(matcher::origins_of(target, target_text, target_map@));
    let p = matcher::pairing_of(source, target, config, a, b);
    lemma_pairing_is_sound(source, target, config, a, b);
    lemma_decided(p, source, target, s);
    lemma_measured(p, source, target, s);
}

/// A match that is clear on both sides is accepted: its score and both margins
/// reach the minima, no candidate was left out, and no other source fits its
/// target as well.
pub proof fn law_clear_matches_are_accepted(
    source: Analysis,
    target: Analysis,
    config: MatcherConfig,
    s: int,
)
    requires
        matcher::match_fault(source, target, config) is None,
        0 <= s < source.symbols@.len(),
    ensures
        ({
            let m = matcher::plain_report(source, target, config).matches[s];
            m.target_row is Some && m.score_bps >= config.min_score_bps && m.source_margin_bps
                >= config.min_margin_bps && m.target_margin_bps >= config.min_margin_bps
                && m.target_margin_bps > 0 && !m.candidates_truncated ==> m.decision
                == MatchDecision::Accepted
        }),
{
    let m = matcher::plain_report(source, target, config).matches[s];
    let p = matcher::pairing_of(source, target, config, None, None);
    law_decisions_follow_from_scores(source, target, config, s);
    if m.target_row is Some && m.target_margin_bps > 0 {
        let t = m.target_row->0 as int;
        let others = other_source_scores(p, s, t);
        assert forall|k: int|
            0 <= k < p.source.len() && #[trigger] candidates::scored(p, k).contains(t) implies {
            let rival = score::score_of(p.source[k], p.target[t]);
            let own = score::score_of(p.source[s], p.target[t]);
            rival < own || (rival == own && s <= k)
        } by {
            if k != s {
                assert(others.contains(score::score_of(p.source[k], p.target[t])));
            }
        }
        assert(is_first_choice(p, s, t));
    }
}

/// Where no candidate was left out, every target that something suggests and
/// that is compatible was compared.
pub proof fn law_every_candidate_is_compared(p: Pairing, s: int, t: int)
    requires
        !candidates::is_truncated(p, s),
        0 <= t < p.target.len(),
    ensures
        candidates::scored(p, s).contains(t) == candidates::is_candidate(p, s, t),
{
    candidates::law_candidates_are_bounded(p, s);
    let all = candidates::all_candidates(p, s);
    lemma_all_candidates(p, s, p.target.len() as int);
    order::lemma_arranged(all, candidates::candidate_keys(p, s, all));
    let chosen = candidates::compared(p, s);
    order::lemma_arranged(chosen, candidates::scored_keys(p, s, chosen));
}

proof fn lemma_all_candidates(p: Pairing, s: int, count: int)
    ensures
        forall|t: int|
            0 <= t < count && #[trigger] candidates::is_candidate(p, s, t)
                ==> candidates::candidates_upto(p, s, count).contains(t),
    decreases count,
{
    if count > 0 {
        lemma_all_candidates(p, s, count - 1);
        let shorter = candidates::candidates_upto(p, s, count - 1);
        let longer = candidates::candidates_upto(p, s, count);
        assert forall|t: int|
            0 <= t < count && #[trigger] candidates::is_candidate(
                p,
                s,
                t,
            ) implies longer.contains(t) by {
            if t < count - 1 {
                let k = choose|k: int| 0 <= k < shorter.len() && shorter[k] == t;
                assert(longer[k] == t);
            } else {
                assert(longer[longer.len() - 1] == t);
            }
        }
    }
}

} // verus!
