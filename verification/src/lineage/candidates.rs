//! Which target symbols a source symbol is compared with.

use vstd::prelude::*;

use super::context::{ContextFingerprint, ContextModel};
use super::index::{ContextIndex, BANDS};
use super::score::{score_pair, CandidateScore};
use super::{MatcherConfig, SCORE_SCALE};
use crate::order::{stable_order, Pair};
use crate::{order, syntax};

use super::{context, index, score};

verus! {

/// The votes of a certain candidate.
pub const ALL_VOTES: u16 = 65535;

/// What is matched with what, and how.
pub struct Pairing {
    pub source: Seq<ContextModel>,
    pub target: Seq<ContextModel>,
    pub config: MatcherConfig,
}

/// The longest list of rows that still tells symbols apart.
pub open spec fn posting_cap(config: MatcherConfig) -> int {
    let cap = config.max_candidates * 8;
    if cap > usize::MAX {
        usize::MAX as int
    } else if cap < 64 {
        64
    } else {
        cap
    }
}

/// How many rows of a similar size are considered.
pub open spec fn nearby_cap(config: MatcherConfig) -> int {
    let cap = config.max_candidates * 2;
    if cap > usize::MAX {
        usize::MAX as int
    } else {
        cap
    }
}

/// Whether a symbol is the only one of its shape on both sides.
pub open spec fn is_anchor(p: Pairing, s: int) -> bool {
    let shape = index::has_shape(p.source[s].class, p.source[s].digest);
    index::rows_with(p.source, shape).len() == 1 && index::rows_with(p.target, shape).len() == 1
}

/// Whether a feature is rare enough among targets to count.
pub open spec fn is_rare(p: Pairing, feature: u64) -> bool {
    index::rows_with(p.target, index::has_feature(feature)).len()
        <= p.config.rare_feature_max_frequency
}

/// How many of the first `count` features of a source are rare and shared
/// with a target.
pub open spec fn rare_votes(p: Pairing, s: int, t: int, count: int) -> nat
    decreases count,
{
    if count <= 0 {
        0
    } else {
        let feature = p.source[s].features[count - 1];
        rare_votes(p, s, t, count - 1) + if is_rare(p, feature) && p.target[t].features.contains(
            feature,
        ) {
            1nat
        } else {
            0
        }
    }
}

/// Whether few enough targets agree with a source in a band, and a target is
/// one of them.
pub open spec fn shares_band(p: Pairing, s: int, t: int, band: u64) -> bool {
    let agrees = index::has_band(p.source[s].class, band, index::band_value(p.source[s], band));
    agrees(p.target[t]) && index::rows_with(p.target, agrees).len() <= posting_cap(p.config)
}

/// Whether a target agrees with a source in one of the first bands.
pub open spec fn shares_some_band(p: Pairing, s: int, t: int, count: u64) -> bool {
    exists|band: u64| band < count && #[trigger] shares_band(p, s, t, band)
}

/// A number of votes, if any.
pub open spec fn counted(votes: nat) -> Option<int> {
    if votes == 0 {
        None
    } else if votes > ALL_VOTES {
        Some(ALL_VOTES as int)
    } else {
        Some(votes as int)
    }
}

/// The votes of rare features and bands up to a number of bands.
pub open spec fn feature_votes(p: Pairing, s: int, t: int, bands: u64) -> Option<int> {
    match counted(rare_votes(p, s, t, p.source[s].features.len() as int)) {
        Some(votes) => Some(votes),
        None => if shares_some_band(p, s, t, bands) {
            Some(0)
        } else {
            None
        },
    }
}

/// The votes of shapes and features for a target.
pub open spec fn structural_votes(p: Pairing, s: int, t: int) -> Option<int> {
    if is_anchor(p, s) {
        if p.target[t].class == p.source[s].class && p.target[t].digest == p.source[s].digest {
            Some(ALL_VOTES as int)
        } else {
            None
        }
    } else {
        feature_votes(p, s, t, BANDS)
    }
}

/// Whether shapes or features speak for any target.
pub open spec fn has_structural(p: Pairing, s: int) -> bool {
    exists|t: int| 0 <= t < p.target.len() && (#[trigger] structural_votes(p, s, t)) is Some
}

/// The sizes of targets.
pub open spec fn sizes_of(target: Seq<ContextModel>, rows: Seq<int>) -> Seq<u64> {
    rows.map_values(|row: int| target[row].size as u64)
}

/// Rows by size.
pub open spec fn by_size(target: Seq<ContextModel>, rows: Seq<int>) -> Seq<int> {
    order::arranged(rows, sizes_of(target, rows))
}

/// The first place from `k` on that holds a larger row.
pub open spec fn first_larger(
    target: Seq<ContextModel>,
    rows: Seq<int>,
    size: int,
    k: int,
) -> int
    decreases rows.len() - k,
{
    if k < 0 || k >= rows.len() || target[rows[k]].size > size {
        k
    } else {
        first_larger(target, rows, size, k + 1)
    }
}

/// Whether the next closest row lies on the left.
pub open spec fn left_is_closer(
    target: Seq<ContextModel>,
    rows: Seq<int>,
    size: int,
    left: int,
    right: int,
) -> bool {
    if left >= 0 && right < rows.len() {
        score::distance(size, target[rows[left]].size) <= score::distance(
            size,
            target[rows[right]].size,
        )
    } else {
        left >= 0
    }
}

/// The closest rows around a gap, up to a limit.
pub open spec fn closest(
    target: Seq<ContextModel>,
    rows: Seq<int>,
    size: int,
    left: int,
    right: int,
    limit: int,
) -> Seq<int>
    decreases limit,
{
    if limit <= 0 || (left < 0 && right >= rows.len()) {
        Seq::empty()
    } else if left_is_closer(target, rows, size, left, right) {
        seq![rows[left]] + closest(target, rows, size, left - 1, right, limit - 1)
    } else {
        seq![rows[right]] + closest(target, rows, size, left, right + 1, limit - 1)
    }
}

/// The rows whose size is closest to a size, up to a limit.
pub open spec fn nearby(
    target: Seq<ContextModel>,
    rows: Seq<int>,
    size: int,
    limit: int,
) -> Seq<int> {
    if rows.len() <= limit {
        rows
    } else {
        let sorted = by_size(target, rows);
        let split = first_larger(target, sorted, size, 0);
        closest(target, sorted, size, split - 1, split, limit)
    }
}

/// The targets of a size bucket that are close to a source.
pub open spec fn nearby_in_bucket(p: Pairing, s: int, bucket: int) -> Seq<int> {
    nearby(
        p.target,
        index::rows_with(
            p.target,
            index::has_bucket(p.source[s].class, p.source[s].scope_kind, bucket),
        ),
        p.source[s].size,
        nearby_cap(p.config),
    )
}

/// The bucket below a bucket, if there is one.
pub open spec fn lower_bucket(bucket: int) -> int {
    if bucket > 0 {
        bucket - 1
    } else {
        bucket
    }
}

/// Whether a target is of a size close to that of a source.
pub open spec fn is_nearby(p: Pairing, s: int, t: int) -> bool {
    let bucket = index::size_bucket(p.source[s].size);
    nearby_in_bucket(p, s, lower_bucket(bucket)).contains(t) || nearby_in_bucket(
        p,
        s,
        bucket,
    ).contains(t) || nearby_in_bucket(p, s, bucket + 1).contains(t)
}

/// Whether two symbols come from one origin that few enough targets have.
pub open spec fn shares_origin(p: Pairing, s: int, t: int) -> bool {
    p.source[s].origin matches Some(origin) && p.target[t].origin == Some(origin)
        && index::rows_with(p.target, index::has_origin(origin)).len() <= posting_cap(p.config)
}

/// The votes for a target: none where nothing suggests it.
pub open spec fn votes_for(p: Pairing, s: int, t: int) -> Option<int> {
    if shares_origin(p, s, t) {
        Some(ALL_VOTES as int)
    } else if has_structural(p, s) {
        structural_votes(p, s, t)
    } else if is_nearby(p, s, t) {
        Some(0)
    } else {
        None
    }
}

/// Whether two symbols may match at all: same class, same kind of scope, and
/// sizes within the ratio.
pub open spec fn is_compatible(p: Pairing, s: int, t: int) -> bool {
    let a = p.source[s];
    let b = p.target[t];
    a.class == b.class && a.scope_kind == b.scope_kind && score::larger(a.size, b.size)
        <= score::larger(score::smaller(a.size, b.size), 1) * p.config.max_size_ratio
}

/// Whether a target is a candidate for a source.
pub open spec fn is_candidate(p: Pairing, s: int, t: int) -> bool {
    votes_for(p, s, t) is Some && is_compatible(p, s, t)
}

/// The candidates among the first `count` targets.
pub open spec fn candidates_upto(p: Pairing, s: int, count: int) -> Seq<int>
    decreases count,
{
    if count <= 0 {
        Seq::empty()
    } else if is_candidate(p, s, count - 1) {
        candidates_upto(p, s, count - 1).push(count - 1)
    } else {
        candidates_upto(p, s, count - 1)
    }
}

/// All candidates, in row order.
pub open spec fn all_candidates(p: Pairing, s: int) -> Seq<int> {
    candidates_upto(p, s, p.target.len() as int)
}

/// What candidates are ordered by: most votes, closest size, closest shape.
pub open spec fn candidate_key(p: Pairing, s: int, t: int) -> Pair<u64, Pair<u64, u64>> {
    Pair(
        (ALL_VOTES - votes_for(p, s, t)->0) as u64,
        Pair(
            score::distance(p.source[s].size, p.target[t].size) as u64,
            p.source[s].shape_hash ^ p.target[t].shape_hash,
        ),
    )
}

/// The ordering keys of candidates.
pub open spec fn candidate_keys(p: Pairing, s: int, rows: Seq<int>) -> Seq<
    Pair<u64, Pair<u64, u64>>,
> {
    rows.map_values(|t: int| candidate_key(p, s, t))
}

/// The candidates from the likeliest down.
pub open spec fn ranked_candidates(p: Pairing, s: int) -> Seq<int> {
    let rows = all_candidates(p, s);
    order::arranged(rows, candidate_keys(p, s, rows))
}

/// Whether a source has more candidates than are compared.
pub open spec fn is_truncated(p: Pairing, s: int) -> bool {
    all_candidates(p, s).len() > p.config.max_candidates
}

/// The candidates that are compared.
pub open spec fn compared(p: Pairing, s: int) -> Seq<int> {
    if is_truncated(p, s) {
        ranked_candidates(p, s).take(p.config.max_candidates as int)
    } else {
        ranked_candidates(p, s)
    }
}

/// What compared candidates are ordered by: best score, first row.
pub open spec fn scored_key(p: Pairing, s: int, t: int) -> Pair<u64, u64> {
    Pair((SCORE_SCALE - score::score_of(p.source[s], p.target[t])) as u64, t as u64)
}

/// The ordering keys of compared candidates.
pub open spec fn scored_keys(p: Pairing, s: int, rows: Seq<int>) -> Seq<Pair<u64, u64>> {
    rows.map_values(|t: int| scored_key(p, s, t))
}

/// The compared candidates from the best score down.
pub open spec fn scored(p: Pairing, s: int) -> Seq<int> {
    let rows = compared(p, s);
    order::arranged(rows, scored_keys(p, s, rows))
}

/// Votes seen as integers.
pub open spec fn vote_view(votes: Option<u16>) -> Option<int> {
    match votes {
        Some(votes) => Some(votes as int),
        None => None,
    }
}

/// The pairing of two indexes.
pub open spec fn is_pairing(p: Pairing, source: ContextIndex, target: ContextIndex) -> bool {
    &&& p.source == source.models()
    &&& p.target == target.models()
    &&& source.is_wf()
    &&& target.is_wf()
    &&& forall|k: int| 0 <= k < p.source.len() ==> score::is_sound(#[trigger] p.source[k])
    &&& forall|k: int| 0 <= k < p.target.len() ==> score::is_sound(#[trigger] p.target[k])
}

fn cap_of(candidates: usize, factor: usize, least: usize) -> (cap: usize)
    requires
        factor > 0,
    ensures
        cap == (if candidates * factor > usize::MAX {
            usize::MAX as int
        } else if candidates * factor < least {
            least as int
        } else {
            candidates * factor
        }),
{
    match candidates.checked_mul(factor) {
        Some(cap) => if cap < least {
            least
        } else {
            cap
        },
        None => usize::MAX,
    }
}

fn no_votes(count: usize) -> (votes: Vec<Option<u16>>)
    ensures
        votes@.len() == count,
        forall|t: int| 0 <= t < count ==> #[trigger] votes@[t] is None,
{
    let mut votes: Vec<Option<u16>> = Vec::new();
    while votes.len() < count
        invariant
            votes@.len() <= count,
            forall|t: int| 0 <= t < votes@.len() ==> #[trigger] votes@[t] is None,
        decreases count - votes@.len(),
    {
        votes.push(None);
    }
    votes
}

proof fn lemma_rows_are_distinct(
    contexts: Seq<ContextModel>,
    property: spec_fn(ContextModel) -> bool,
    count: int,
)
    requires
        0 <= count <= contexts.len(),
    ensures
        forall|i: int, j: int|
            0 <= i < j < index::rows_where(contexts, property, count).len()
                ==> index::rows_where(contexts, property, count)[i] < index::rows_where(
                contexts,
                property,
                count,
            )[j],
    decreases count,
{
    if count > 0 {
        lemma_rows_are_distinct(contexts, property, count - 1);
        index::lemma_rows_where(contexts, property, count - 1);
    }
}

/// What a listing of rows with a property holds.
proof fn lemma_listing(
    list: Seq<usize>,
    contexts: Seq<ContextModel>,
    property: spec_fn(ContextModel) -> bool,
)
    requires
        syntax::index_views(list) == index::rows_with(contexts, property),
    ensures
        forall|k: int| 0 <= k < list.len() ==> #[trigger] list[k] < contexts.len(),
        forall|k: int| 0 <= k < list.len() ==> property(contexts[#[trigger] list[k] as int]),
        forall|i: int, j: int| 0 <= i < j < list.len() ==> list[i] < list[j],
        forall|t: int|
            0 <= t < contexts.len() && property(#[trigger] contexts[t]) ==> exists|k: int|
                0 <= k < list.len() && list[k] == t,
        list.len() == index::rows_with(contexts, property).len(),
{
    let rows = index::rows_with(contexts, property);
    index::lemma_rows_where(contexts, property, contexts.len() as int);
    lemma_rows_are_distinct(contexts, property, contexts.len() as int);
    assert(rows.len() == list.len());
    assert forall|k: int| 0 <= k < list.len() implies #[trigger] list[k] < contexts.len()
        && property(contexts[list[k] as int]) by {
        assert(rows[k] == list[k] as int);
    }
    assert forall|i: int, j: int| 0 <= i < j < list.len() implies list[i] < list[j] by {
        assert(rows[i] == list[i] as int);
        assert(rows[j] == list[j] as int);
    }
    assert forall|t: int| 0 <= t < contexts.len() && property(
        #[trigger] contexts[t],
    ) implies exists|k: int| 0 <= k < list.len() && list[k] == t by {
        assert(rows.contains(t));
        let k = choose|k: int| 0 <= k < rows.len() && rows[k] == t;
        assert(list[k] as int == t);
    }
}

fn vote_once(votes: &mut Vec<Option<u16>>, list: &Vec<usize>, before: Ghost<Seq<nat>>)
    requires
        old(votes)@.len() == before@.len(),
        forall|k: int| 0 <= k < list@.len() ==> #[trigger] list@[k] < before@.len(),
        forall|i: int, j: int| 0 <= i < j < list@.len() ==> list@[i] < list@[j],
        forall|t: int|
            0 <= t < before@.len() ==> vote_view(#[trigger] old(votes)@[t]) == counted(before@[t]),
    ensures
        final(votes)@.len() == before@.len(),
        forall|t: int|
            0 <= t < before@.len() ==> vote_view(#[trigger] final(votes)@[t]) == counted(
                before@[t] + if list@.contains(t as usize) {
                    1nat
                } else {
                    0
                },
            ),
{
    let total: usize = votes.len();
    let mut k: usize = 0;
    while k < list.len()
        invariant
            k <= list@.len(),
            votes@.len() == before@.len(),
            total == before@.len(),
            forall|j: int| 0 <= j < list@.len() ==> #[trigger] list@[j] < before@.len(),
            forall|i: int, j: int| 0 <= i < j < list@.len() ==> list@[i] < list@[j],
            forall|t: int|
                0 <= t < before@.len() ==> vote_view(#[trigger] votes@[t]) == counted(
                    before@[t] + if list@.take(k as int).contains(t as usize) {
                        1nat
                    } else {
                        0
                    },
                ),
        decreases list@.len() - k,
    {
        let row = list[k];
        let ghost earlier = votes@;
        let ghost shorter = list@.take(k as int);
        let ghost longer = list@.take(k + 1);
        proof {
            assert(!shorter.contains(row)) by {
                if shorter.contains(row) {
                    let j = choose|j: int| 0 <= j < shorter.len() && shorter[j] == row;
                    assert(list@[j] < list@[k as int]);
                }
            }
            assert(vote_view(earlier[row as int]) == counted(before@[row as int]));
        }
        let more: u16 = match votes[row] {
            Some(count) => if count < ALL_VOTES {
                count + 1
            } else {
                ALL_VOTES
            },
            None => 1,
        };
        votes.set(row, Some(more));
        proof {
            assert forall|t: int| 0 <= t < before@.len() implies vote_view(#[trigger] votes@[t])
                == counted(
                before@[t] + if longer.contains(t as usize) {
                    1nat
                } else {
                    0
                },
            ) by {
                assert(vote_view(earlier[t]) == counted(
                    before@[t] + if shorter.contains(t as usize) {
                        1nat
                    } else {
                        0
                    },
                ));
                if t == row {
                    assert(longer[k as int] == t as usize);
                } else {
                    if shorter.contains(t as usize) {
                        let j = choose|j: int| 0 <= j < shorter.len() && shorter[j] == t as usize;
                        assert(longer[j] == t as usize);
                    }
                    if longer.contains(t as usize) {
                        let j = choose|j: int| 0 <= j < longer.len() && longer[j] == t as usize;
                        assert(j < k);
                        assert(shorter[j] == t as usize);
                    }
                }
            }
        }
        k += 1;
    }
    assert(list@.take(k as int) =~= list@);
}

fn vote_by_features(
    votes: &mut Vec<Option<u16>>,
    source: &ContextIndex,
    target: &ContextIndex,
    s: usize,
    config: &MatcherConfig,
    p: Ghost<Pairing>,
)
    requires
        is_pairing(p@, *source, *target),
        *config == p@.config,
        s < p@.source.len(),
        old(votes)@.len() == p@.target.len(),
        p@.target.len() <= usize::MAX,
        forall|t: int| 0 <= t < p@.target.len() ==> #[trigger] old(votes)@[t] is None,
    ensures
        final(votes)@.len() == p@.target.len(),
        forall|t: int|
            0 <= t < p@.target.len() ==> vote_view(#[trigger] final(votes)@[t]) == counted(
                rare_votes(p@, s as int, t, p@.source[s as int].features.len() as int),
            ),
{
    let contexts = source.contexts();
    assert(contexts@[s as int]@ == p@.source[s as int]);
    let own = &contexts[s];
    let mut k: usize = 0;
    while k < own.features.len()
        invariant
            k <= own.features@.len(),
            is_pairing(p@, *source, *target),
            *config == p@.config,
            s < p@.source.len(),
            own@ == p@.source[s as int],
            votes@.len() == p@.target.len(),
            p@.target.len() <= usize::MAX,
            forall|t: int|
                0 <= t < p@.target.len() ==> vote_view(#[trigger] votes@[t]) == counted(
                    rare_votes(p@, s as int, t, k as int),
                ),
        decreases own.features@.len() - k,
    {
        let feature = own.features[k];
        let ghost property = index::has_feature(feature);
        let ghost before = Seq::new(
            p@.target.len(),
            |t: int| rare_votes(p@, s as int, t, k as int),
        );
        assert(p@.source[s as int].features[k as int] == feature);
        match target.feature_rows(feature) {
            Some(list) => {
                proof {
                    lemma_listing(list@, p@.target, property);
                }
                if list.len() <= config.rare_feature_max_frequency {
                    vote_once(votes, list, Ghost(before));
                    proof {
                        assert forall|t: int| 0 <= t < p@.target.len() implies vote_view(
                            #[trigger] votes@[t],
                        ) == counted(rare_votes(p@, s as int, t, k + 1)) by {
                            assert(before[t] == rare_votes(p@, s as int, t, k as int));
                            if p@.target[t].features.contains(feature) {
                                assert(property(p@.target[t]));
                                let j = choose|j: int| 0 <= j < list@.len() && list@[j] == t;
                                assert(list@[j] == t as usize);
                            }
                            if list@.contains(t as usize) {
                                let j = choose|j: int|
                                    0 <= j < list@.len() && list@[j] == t as usize;
                                assert(property(p@.target[list@[j] as int]));
                            }
                        }
                    }
                }
            },
            None => {
                proof {
                    index::lemma_rows_where(p@.target, property, p@.target.len() as int);
                    assert forall|t: int| 0 <= t < p@.target.len() implies vote_view(
                        #[trigger] votes@[t],
                    ) == counted(rare_votes(p@, s as int, t, k + 1)) by {
                        if p@.target[t].features.contains(feature) {
                            assert(property(p@.target[t]));
                            assert(index::rows_with(p@.target, property).contains(t));
                        }
                    }
                }
            },
        }
        k += 1;
    }
}

fn vote_zero(votes: &mut Vec<Option<u16>>, list: &Vec<usize>)
    requires
        forall|k: int| 0 <= k < list@.len() ==> #[trigger] list@[k] < old(votes)@.len(),
    ensures
        final(votes)@.len() == old(votes)@.len(),
        forall|t: int|
            0 <= t < old(votes)@.len() ==> #[trigger] final(votes)@[t] == if old(votes)@[t] is None
                && list@.contains(t as usize) {
                Some(0u16)
            } else {
                old(votes)@[t]
            },
{
    let ghost start = votes@;
    let total: usize = votes.len();
    let mut k: usize = 0;
    while k < list.len()
        invariant
            k <= list@.len(),
            votes@.len() == start.len(),
            total == start.len(),
            forall|j: int| 0 <= j < list@.len() ==> #[trigger] list@[j] < start.len(),
            forall|t: int|
                0 <= t < start.len() ==> #[trigger] votes@[t] == if start[t] is None
                    && list@.take(k as int).contains(t as usize) {
                    Some(0u16)
                } else {
                    start[t]
                },
        decreases list@.len() - k,
    {
        let row = list[k];
        let ghost earlier = votes@;
        let ghost shorter = list@.take(k as int);
        let ghost longer = list@.take(k + 1);
        if votes[row].is_none() {
            votes.set(row, Some(0));
        }
        proof {
            assert forall|t: int| 0 <= t < start.len() implies #[trigger] votes@[t] == if start[t] is None
                && longer.contains(t as usize) {
                Some(0u16)
            } else {
                start[t]
            } by {
                assert(earlier[t] == if start[t] is None && shorter.contains(t as usize) {
                    Some(0u16)
                } else {
                    start[t]
                });
                if t == row {
                    assert(longer[k as int] == t as usize);
                } else {
                    if shorter.contains(t as usize) {
                        let j = choose|j: int| 0 <= j < shorter.len() && shorter[j] == t as usize;
                        assert(longer[j] == t as usize);
                    }
                    if longer.contains(t as usize) {
                        let j = choose|j: int| 0 <= j < longer.len() && longer[j] == t as usize;
                        assert(j < k);
                        assert(shorter[j] == t as usize);
                    }
                }
            }
        }
        k += 1;
    }
    assert(list@.take(k as int) =~= list@);
}

fn vote_by_bands(
    votes: &mut Vec<Option<u16>>,
    source: &ContextIndex,
    target: &ContextIndex,
    s: usize,
    config: &MatcherConfig,
    p: Ghost<Pairing>,
)
    requires
        is_pairing(p@, *source, *target),
        *config == p@.config,
        s < p@.source.len(),
        old(votes)@.len() == p@.target.len(),
        p@.target.len() <= usize::MAX,
        forall|t: int|
            0 <= t < p@.target.len() ==> vote_view(#[trigger] old(votes)@[t]) == counted(
                rare_votes(p@, s as int, t, p@.source[s as int].features.len() as int),
            ),
    ensures
        final(votes)@.len() == p@.target.len(),
        forall|t: int|
            0 <= t < p@.target.len() ==> vote_view(#[trigger] final(votes)@[t]) == feature_votes(
                p@,
                s as int,
                t,
                BANDS,
            ),
{
    let contexts = source.contexts();
    assert(contexts@[s as int]@ == p@.source[s as int]);
    let own = &contexts[s];
    let cap = cap_of(config.max_candidates, 8, 64);
    let mut band: u64 = 0;
    while band < BANDS
        invariant
            band <= BANDS,
            is_pairing(p@, *source, *target),
            s < p@.source.len(),
            own@ == p@.source[s as int],
            cap == posting_cap(p@.config),
            votes@.len() == p@.target.len(),
            p@.target.len() <= usize::MAX,
            forall|t: int|
                0 <= t < p@.target.len() ==> vote_view(#[trigger] votes@[t]) == feature_votes(
                    p@,
                    s as int,
                    t,
                    band,
                ),
        decreases BANDS - band,
    {
        let ghost before = votes@;
        let ghost property = index::has_band(
            own@.class,
            band,
            index::band_value(own@, band),
        );
        let listing = target.band_rows(own, band);
        let mut used = false;
        if let Some(list) = listing {
            proof {
                lemma_listing(list@, p@.target, property);
            }
            if list.len() <= cap {
                vote_zero(votes, list);
                used = true;
            }
        } else {
            proof {
                index::lemma_rows_where(p@.target, property, p@.target.len() as int);
            }
        }
        proof {
            assert forall|t: int| 0 <= t < p@.target.len() implies vote_view(#[trigger] votes@[t])
                == feature_votes(p@, s as int, t, (band + 1) as u64) by {
                assert(vote_view(before[t]) == feature_votes(p@, s as int, t, band));
                lemma_band_step(p@, s as int, t, band);
                let shares = shares_band(p@, s as int, t, band);
                if shares {
                    assert(property(p@.target[t]));
                    if listing is Some {
                        let list = listing->0;
                        let j = choose|j: int| 0 <= j < list@.len() && list@[j] == t;
                        assert(list@[j] == t as usize);
                        assert(used);
                        assert(list@.contains(t as usize));
                    } else {
                        assert(index::rows_with(p@.target, property).contains(t));
                    }
                } else if used {
                    let list = listing->0;
                    if list@.contains(t as usize) {
                        let j = choose|j: int| 0 <= j < list@.len() && list@[j] == t as usize;
                        assert(property(p@.target[list@[j] as int]));
                    }
                }
            }
        }
        band += 1;
    }
}

proof fn lemma_band_step(p: Pairing, s: int, t: int, band: u64)
    requires
        band < BANDS,
    ensures
        shares_some_band(p, s, t, (band + 1) as u64) == (shares_some_band(p, s, t, band)
            || shares_band(p, s, t, band)),
{
    if shares_some_band(p, s, t, (band + 1) as u64) {
        let b = choose|b: u64| b < band + 1 && #[trigger] shares_band(p, s, t, b);
        assert(b < band || b == band);
    }
    if shares_some_band(p, s, t, band) {
        let b = choose|b: u64| b < band && #[trigger] shares_band(p, s, t, b);
        assert(b < band + 1);
    }
}

/// The one target of exactly the shape of a source, where both are the only
/// ones of that shape.
pub(crate) fn anchor_row(source: &ContextIndex, target: &ContextIndex, s: usize, p: Ghost<Pairing>) -> (r:
    Option<usize>)
    requires
        is_pairing(p@, *source, *target),
        s < p@.source.len(),
    ensures
        r is Some == is_anchor(p@, s as int),
        r matches Some(row) ==> row < p@.target.len() && forall|t: int|
            0 <= t < p@.target.len() ==> ((#[trigger] p@.target[t]).class
                == p@.source[s as int].class && p@.target[t].digest
                == p@.source[s as int].digest) == (t == row),
{
    let contexts = source.contexts();
    assert(contexts@[s as int]@ == p@.source[s as int]);
    let own = &contexts[s];
    let ghost shape = index::has_shape(own@.class, own@.digest);
    let own_rows = source.exact_rows(own);
    let rows = target.exact_rows(own);
    match (own_rows, rows) {
        (Some(own_rows), Some(rows)) => {
            proof {
                lemma_listing(own_rows@, p@.source, shape);
                lemma_listing(rows@, p@.target, shape);
            }
            if own_rows.len() == 1 && rows.len() == 1 {
                let row = rows[0];
                proof {
                    assert(shape(p@.target[rows@[0] as int]));
                    assert forall|t: int| 0 <= t < p@.target.len() implies ((
                    #[trigger] p@.target[t]).class == own@.class && p@.target[t].digest
                        == own@.digest) == (t == row) by {
                        if shape(p@.target[t]) {
                            let k = choose|k: int| 0 <= k < rows@.len() && rows@[k] == t;
                            assert(k == 0);
                        }
                    }
                }
                Some(row)
            } else {
                None
            }
        },
        _ => None,
    }
}

fn cast_structural_votes(
    source: &ContextIndex,
    target: &ContextIndex,
    s: usize,
    config: &MatcherConfig,
    p: Ghost<Pairing>,
) -> (votes: Vec<Option<u16>>)
    requires
        is_pairing(p@, *source, *target),
        *config == p@.config,
        s < p@.source.len(),
    ensures
        votes@.len() == p@.target.len(),
        forall|t: int|
            0 <= t < p@.target.len() ==> vote_view(#[trigger] votes@[t]) == structural_votes(
                p@,
                s as int,
                t,
            ),
{
    let targets = target.contexts();
    let count: usize = targets.len();
    assert(p@.target.len() == count);
    let mut votes = no_votes(count);
    match anchor_row(source, target, s, p) {
        Some(row) => {
            votes.set(row, Some(ALL_VOTES));
            proof {
                assert forall|t: int| 0 <= t < p@.target.len() implies vote_view(
                    #[trigger] votes@[t],
                ) == structural_votes(p@, s as int, t) by {
                    let model = p@.target[t];
                }
            }
        },
        None => {
            vote_by_features(&mut votes, source, target, s, config, p);
            vote_by_bands(&mut votes, source, target, s, config, p);
        },
    }
    votes
}

fn some_vote(votes: &Vec<Option<u16>>) -> (r: bool)
    ensures
        r == exists|t: int| 0 <= t < votes@.len() && (#[trigger] votes@[t]) is Some,
{
    let mut t: usize = 0;
    while t < votes.len()
        invariant
            t <= votes@.len(),
            forall|k: int| 0 <= k < t ==> (#[trigger] votes@[k]) is None,
        decreases votes@.len() - t,
    {
        if votes[t].is_some() {
            return true;
        }
        t += 1;
    }
    false
}

fn apart(a: u32, b: u32) -> (d: u32)
    ensures
        d == score::distance(a as int, b as int),
{
    if a <= b {
        b - a
    } else {
        a - b
    }
}

fn nearby_rows(
    targets: &Vec<ContextFingerprint>,
    rows: &Vec<usize>,
    size: u32,
    limit: usize,
) -> (list: Vec<usize>)
    requires
        forall|k: int| 0 <= k < rows@.len() ==> #[trigger] rows@[k] < targets@.len(),
    ensures
        syntax::index_views(list@) == nearby(
            context::context_views(targets@),
            syntax::index_views(rows@),
            size as int,
            limit as int,
        ),
        forall|k: int| 0 <= k < list@.len() ==> #[trigger] list@[k] < targets@.len(),
{
    let ghost models = context::context_views(targets@);
    let ghost all = syntax::index_views(rows@);
    let length: usize = rows.len();
    assert(all.len() == length);
    let mut list: Vec<usize> = Vec::new();
    if length <= limit {
        let mut k: usize = 0;
        while k < length
            invariant
                k <= length,
                length == rows@.len(),
                list@ == rows@.take(k as int),
            decreases length - k,
        {
            list.push(rows[k]);
            k += 1;
            assert(list@ =~= rows@.take(k as int));
        }
        assert(list@ =~= rows@);
        return list;
    }
    let mut keys: Vec<u64> = Vec::new();
    let mut k: usize = 0;
    while k < length
        invariant
            k <= length,
            length == rows@.len(),
            all == syntax::index_views(rows@),
            models == context::context_views(targets@),
            forall|j: int| 0 <= j < rows@.len() ==> #[trigger] rows@[j] < targets@.len(),
            keys@.len() == k,
            forall|j: int| 0 <= j < k ==> #[trigger] keys@[j] == models[all[j]].size as u64,
        decreases length - k,
    {
        assert(models[all[k as int]] == targets@[rows@[k as int] as int]@);
        keys.push(targets[rows[k]].size as u64);
        k += 1;
    }
    assert(keys@ =~= sizes_of(models, all));
    let order = stable_order(&keys);
    proof {
        order::lemma_ranks(keys@, order@);
    }
    let ghost sorted = by_size(models, all);
    let mut arranged: Vec<usize> = Vec::new();
    let mut j: usize = 0;
    while j < length
        invariant
            j <= length,
            length == rows@.len(),
            order@.len() == length,
            sorted.len() == length,
            all == syntax::index_views(rows@),
            forall|i: int| 0 <= i < rows@.len() ==> #[trigger] rows@[i] < targets@.len(),
            forall|i: int| 0 <= i < length ==> #[trigger] order@[i] < length,
            forall|i: int| 0 <= i < length ==> #[trigger] sorted[i] == all[order@[i] as int],
            arranged@.len() == j,
            forall|i: int|
                0 <= i < j ==> #[trigger] arranged@[i] == sorted[i] && arranged@[i]
                    < targets@.len(),
        decreases length - j,
    {
        assert(sorted[j as int] == all[order@[j as int] as int]);
        arranged.push(rows[order[j]]);
        j += 1;
    }
    let mut split: usize = 0;
    while split < length && targets[arranged[split]].size <= size
        invariant
            split <= length,
            length == sorted.len(),
            arranged@.len() == length,
            models == context::context_views(targets@),
            forall|i: int|
                0 <= i < length ==> #[trigger] arranged@[i] == sorted[i] && arranged@[i]
                    < targets@.len(),
            first_larger(models, sorted, size as int, 0) == first_larger(
                models,
                sorted,
                size as int,
                split as int,
            ),
        decreases length - split,
    {
        assert(models[sorted[split as int]] == targets@[arranged@[split as int] as int]@);
        split += 1;
    }
    proof {
        if split < length {
            assert(models[sorted[split as int]] == targets@[arranged@[split as int] as int]@);
        }
    }
    let mut left: usize = split;
    let mut right: usize = split;
    let ghost full = closest(models, sorted, size as int, split - 1, split as int, limit as int);
    assert(syntax::index_views(list@) + full =~= full);
    while list.len() < limit && (left > 0 || right < length)
        invariant
            left <= right <= length,
            list@.len() <= limit,
            length == sorted.len(),
            arranged@.len() == length,
            models == context::context_views(targets@),
            forall|i: int|
                0 <= i < length ==> #[trigger] arranged@[i] == sorted[i] && arranged@[i]
                    < targets@.len(),
            forall|i: int| 0 <= i < list@.len() ==> #[trigger] list@[i] < targets@.len(),
            full == syntax::index_views(list@) + closest(
                models,
                sorted,
                size as int,
                left - 1,
                right as int,
                limit - list@.len(),
            ),
        decreases left + length - right,
    {
        let ghost before = list@;
        if left > 0 {
            assert(models[sorted[left - 1]] == targets@[arranged@[left - 1] as int]@);
        }
        if right < length {
            assert(models[sorted[right as int]] == targets@[arranged@[right as int] as int]@);
        }
        let take_left = if left > 0 && right < length {
            apart(size, targets[arranged[left - 1]].size) <= apart(
                size,
                targets[arranged[right]].size,
            )
        } else {
            left > 0
        };
        let ghost rest = closest(
            models,
            sorted,
            size as int,
            left - 1,
            right as int,
            limit - list@.len(),
        );
        if take_left {
            list.push(arranged[left - 1]);
            left -= 1;
        } else {
            list.push(arranged[right]);
            right += 1;
        }
        proof {
            let taken = list@[before.len() as int] as int;
            assert(syntax::index_views(list@) =~= syntax::index_views(before).push(taken));
            let next = closest(
                models,
                sorted,
                size as int,
                left - 1,
                right as int,
                limit - list@.len(),
            );
            assert(rest == seq![taken] + next);
            assert(syntax::index_views(before) + rest =~= syntax::index_views(list@) + next);
        }
    }
    assert(syntax::index_views(list@) + Seq::<int>::empty() =~= syntax::index_views(list@));
    list
}

fn vote_by_size(
    votes: &mut Vec<Option<u16>>,
    source: &ContextIndex,
    target: &ContextIndex,
    s: usize,
    bucket: u64,
    config: &MatcherConfig,
    p: Ghost<Pairing>,
)
    requires
        is_pairing(p@, *source, *target),
        *config == p@.config,
        s < p@.source.len(),
        bucket < 0x100,
        old(votes)@.len() == p@.target.len(),
        p@.target.len() <= usize::MAX,
    ensures
        final(votes)@.len() == p@.target.len(),
        forall|t: int|
            0 <= t < p@.target.len() ==> #[trigger] final(votes)@[t] == if old(votes)@[t] is None
                && nearby_in_bucket(p@, s as int, bucket as int).contains(t) {
                Some(0u16)
            } else {
                old(votes)@[t]
            },
{
    let contexts = source.contexts();
    assert(contexts@[s as int]@ == p@.source[s as int]);
    let own = &contexts[s];
    let targets = target.contexts();
    let limit = cap_of(config.max_candidates, 2, 0);
    let ghost property = index::has_bucket(own@.class, own@.scope_kind, bucket as int);
    proof {
        assert forall|k: int| 0 <= k < target.models().len() implies 0 <= (
        #[trigger] target.models()[k]).size <= u32::MAX by {
            assert(score::is_sound(p@.target[k]));
        }
    }
    let ghost expected = nearby_in_bucket(p@, s as int, bucket as int);
    match target.bucket_rows(own, bucket) {
        Some(rows) => {
            proof {
                lemma_listing(rows@, p@.target, property);
                assert(context::context_views(targets@).len() == targets@.len());
            }
            let list = nearby_rows(targets, rows, own.size, limit);
            vote_zero(votes, &list);
            proof {
                assert(syntax::index_views(list@) == expected);
                assert forall|t: int| 0 <= t < p@.target.len() implies list@.contains(t as usize)
                    == #[trigger] expected.contains(t) by {
                    if list@.contains(t as usize) {
                        let k = choose|k: int| 0 <= k < list@.len() && list@[k] == t as usize;
                        assert(expected[k] == t);
                    }
                    if expected.contains(t) {
                        let k = choose|k: int| 0 <= k < expected.len() && expected[k] == t;
                        assert(list@[k] == t as usize);
                    }
                }
            }
        },
        None => {
            proof {
                let rows = index::rows_with(p@.target, property);
                assert(rows.len() == 0);
                assert(expected == rows);
            }
        },
    }
}

fn vote_by_origin(
    votes: &mut Vec<Option<u16>>,
    source: &ContextIndex,
    target: &ContextIndex,
    s: usize,
    config: &MatcherConfig,
    p: Ghost<Pairing>,
)
    requires
        is_pairing(p@, *source, *target),
        *config == p@.config,
        s < p@.source.len(),
        old(votes)@.len() == p@.target.len(),
        p@.target.len() <= usize::MAX,
    ensures
        final(votes)@.len() == p@.target.len(),
        forall|t: int|
            0 <= t < p@.target.len() ==> #[trigger] final(votes)@[t] == if shares_origin(
                p@,
                s as int,
                t,
            ) {
                Some(ALL_VOTES)
            } else {
                old(votes)@[t]
            },
{
    let contexts = source.contexts();
    assert(contexts@[s as int]@ == p@.source[s as int]);
    let own = &contexts[s];
    let origin: [u8; 32] = match own.origin {
        Some(origin) => origin,
        None => {
            return;
        },
    };
    let cap = cap_of(config.max_candidates, 8, 64);
    let ghost property = index::has_origin(origin@);
    match target.origin_rows(&origin) {
        Some(rows) => {
            proof {
                lemma_listing(rows@, p@.target, property);
            }
            if rows.len() > cap {
                return;
            }
            let ghost start = votes@;
            let mut k: usize = 0;
            while k < rows.len()
                invariant
                    k <= rows@.len(),
                    votes@.len() == start.len(),
                    start.len() == p@.target.len(),
                    p@.target.len() <= usize::MAX,
                    forall|j: int| 0 <= j < rows@.len() ==> #[trigger] rows@[j] < start.len(),
                    forall|t: int|
                        0 <= t < start.len() ==> #[trigger] votes@[t] == if rows@.take(
                            k as int,
                        ).contains(t as usize) {
                            Some(ALL_VOTES)
                        } else {
                            start[t]
                        },
                decreases rows@.len() - k,
            {
                let row = rows[k];
                let ghost earlier = votes@;
                let ghost shorter = rows@.take(k as int);
                let ghost longer = rows@.take(k + 1);
                votes.set(row, Some(ALL_VOTES));
                proof {
                    assert forall|t: int| 0 <= t < start.len() implies #[trigger] votes@[t]
                        == if longer.contains(t as usize) {
                        Some(ALL_VOTES)
                    } else {
                        start[t]
                    } by {
                        assert(earlier[t] == if shorter.contains(t as usize) {
                            Some(ALL_VOTES)
                        } else {
                            start[t]
                        });
                        if t == row {
                            assert(longer[k as int] == t as usize);
                        } else {
                            if shorter.contains(t as usize) {
                                let j = choose|j: int|
                                    0 <= j < shorter.len() && shorter[j] == t as usize;
                                assert(longer[j] == t as usize);
                            }
                            if longer.contains(t as usize) {
                                let j = choose|j: int|
                                    0 <= j < longer.len() && longer[j] == t as usize;
                                assert(j < k);
                                assert(shorter[j] == t as usize);
                            }
                        }
                    }
                }
                k += 1;
            }
            proof {
                assert(rows@.take(k as int) =~= rows@);
                assert forall|t: int| 0 <= t < p@.target.len() implies #[trigger] votes@[t]
                    == if shares_origin(p@, s as int, t) {
                    Some(ALL_VOTES)
                } else {
                    start[t]
                } by {
                    if property(p@.target[t]) {
                        let j = choose|j: int| 0 <= j < rows@.len() && rows@[j] == t;
                        assert(rows@[j] == t as usize);
                        assert(rows@.contains(t as usize));
                    }
                    if rows@.contains(t as usize) {
                        let j = choose|j: int| 0 <= j < rows@.len() && rows@[j] == t as usize;
                        assert(property(p@.target[rows@[j] as int]));
                    }
                }
            }
        },
        None => {
            proof {
                index::lemma_rows_where(p@.target, property, p@.target.len() as int);
                assert forall|t: int| 0 <= t < p@.target.len() implies !shares_origin(
                    p@,
                    s as int,
                    t,
                ) by {
                    if property(p@.target[t]) {
                        assert(index::rows_with(p@.target, property).contains(t));
                    }
                }
            }
        },
    }
}

/// The votes for every target.
fn cast_votes(
    source: &ContextIndex,
    target: &ContextIndex,
    s: usize,
    config: &MatcherConfig,
    p: Ghost<Pairing>,
) -> (votes: Vec<Option<u16>>)
    requires
        is_pairing(p@, *source, *target),
        *config == p@.config,
        s < p@.source.len(),
    ensures
        votes@.len() == p@.target.len(),
        forall|t: int|
            0 <= t < p@.target.len() ==> vote_view(#[trigger] votes@[t]) == votes_for(
                p@,
                s as int,
                t,
            ),
{
    let mut votes = cast_structural_votes(source, target, s, config, p);
    let length: usize = votes.len();
    let ghost structural = votes@;
    let any = some_vote(&votes);
    proof {
        assert(any == has_structural(p@, s as int)) by {
            if any {
                let t = choose|t: int| 0 <= t < structural.len() && (#[trigger] structural[t]) is Some;
                assert(vote_view(structural[t]) == structural_votes(p@, s as int, t));
            }
            if has_structural(p@, s as int) {
                let t = choose|t: int|
                    0 <= t < p@.target.len() && (#[trigger] structural_votes(
                        p@,
                        s as int,
                        t,
                    )) is Some;
                assert(vote_view(structural[t]) == structural_votes(p@, s as int, t));
            }
        }
    }
    if !any {
        let contexts = source.contexts();
        proof {
            assert(contexts@[s as int]@ == p@.source[s as int]);
            assert(score::is_sound(p@.source[s as int]));
        }
        let bucket = index::bucket_of(contexts[s].size);
        let lower: u64 = if bucket > 0 {
            bucket - 1
        } else {
            bucket
        };
        vote_by_size(&mut votes, source, target, s, lower, config, p);
        vote_by_size(&mut votes, source, target, s, bucket, config, p);
        vote_by_size(&mut votes, source, target, s, bucket + 1, config, p);
    }
    proof {
        assert forall|t: int| 0 <= t < p@.target.len() implies vote_view(#[trigger] votes@[t])
            == (if any {
            structural_votes(p@, s as int, t)
        } else if is_nearby(p@, s as int, t) {
            Some(0int)
        } else {
            None
        }) by {
            assert(vote_view(structural[t]) == structural_votes(p@, s as int, t));
        }
    }
    let ghost between = votes@;
    vote_by_origin(&mut votes, source, target, s, config, p);
    proof {
        assert forall|t: int| 0 <= t < p@.target.len() implies vote_view(#[trigger] votes@[t])
            == votes_for(p@, s as int, t) by {
            assert(vote_view(between[t]) == (if any {
                structural_votes(p@, s as int, t)
            } else if is_nearby(p@, s as int, t) {
                Some(0int)
            } else {
                None
            }));
        }
    }
    votes
}

fn compatible(source: &ContextFingerprint, target: &ContextFingerprint, ratio: u32) -> (r: bool)
    ensures
        r == (source@.class == target@.class && source@.scope_kind == target@.scope_kind
            && score::larger(source@.size, target@.size) <= score::larger(
            score::smaller(source@.size, target@.size),
            1,
        ) * ratio),
{
    if source.class != target.class || source.scope_kind != target.scope_kind {
        return false;
    }
    let mut small: u64 = if source.size <= target.size {
        source.size as u64
    } else {
        target.size as u64
    };
    let large: u64 = if source.size <= target.size {
        target.size as u64
    } else {
        source.size as u64
    };
    if small < 1 {
        small = 1;
    }
    assert(small * ratio <= 0xffff_ffff * 0xffff_ffff) by (nonlinear_arith)
        requires
            small <= 0xffff_ffff,
            ratio <= 0xffff_ffff,
    ;
    large <= small * ratio as u64
}

/// The candidates of a source that are compared, from the best score down,
/// and whether there were more.
pub(crate) fn score_candidates(
    source: &ContextIndex,
    target: &ContextIndex,
    s: usize,
    config: &MatcherConfig,
    p: Ghost<Pairing>,
) -> (r: (Vec<CandidateScore>, bool))
    requires
        is_pairing(p@, *source, *target),
        *config == p@.config,
        s < p@.source.len(),
    ensures
        are_scores(r.0@, p@, s as int),
        r.1 == is_truncated(p@, s as int),
{
    let votes = cast_votes(source, target, s, config, p);
    let contexts = source.contexts();
    let targets = target.contexts();
    proof {
        assert(contexts@[s as int]@ == p@.source[s as int]);
        assert(context::context_views(targets@).len() == targets@.len());
    }
    let own = &contexts[s];
    let count: usize = targets.len();
    let mut rows: Vec<usize> = Vec::new();
    let mut keys: Vec<Pair<u64, Pair<u64, u64>>> = Vec::new();
    let mut t: usize = 0;
    assert(syntax::index_views(rows@) =~= candidates_upto(p@, s as int, 0));
    while t < count
        invariant
            t <= count,
            count == p@.target.len(),
            count == targets@.len(),
            context::context_views(targets@) == p@.target,
            own@ == p@.source[s as int],
            *config == p@.config,
            votes@.len() == count,
            forall|k: int|
                0 <= k < count ==> vote_view(#[trigger] votes@[k]) == votes_for(
                    p@,
                    s as int,
                    k,
                ),
            syntax::index_views(rows@) == candidates_upto(p@, s as int, t as int),
            rows@.len() == keys@.len(),
            forall|k: int|
                0 <= k < rows@.len() ==> #[trigger] rows@[k] < count && keys@[k] == candidate_key(
                    p@,
                    s as int,
                    rows@[k] as int,
                ),
        decreases count - t,
    {
        assert(vote_view(votes@[t as int]) == votes_for(p@, s as int, t as int));
        assert(p@.target[t as int] == targets@[t as int]@);
        if let Some(cast) = votes[t] {
            if compatible(own, &targets[t], config.max_size_ratio) {
                let ghost before = rows@;
                rows.push(t);
                keys.push(
                    Pair(
                        (ALL_VOTES - cast) as u64,
                        Pair(
                            apart(own.size, targets[t].size) as u64,
                            own.shape_hash ^ targets[t].shape_hash,
                        ),
                    ),
                );
                assert(syntax::index_views(rows@) =~= syntax::index_views(before).push(t as int));
            }
        }
        t += 1;
    }
    let ghost all = all_candidates(p@, s as int);
    assert(all.len() == rows@.len());
    assert(keys@ =~= candidate_keys(p@, s as int, all)) by {
        assert forall|k: int| 0 <= k < keys@.len() implies #[trigger] keys@[k] == candidate_keys(
            p@,
            s as int,
            all,
        )[k] by {
            assert(all[k] == rows@[k] as int);
        }
    }
    let total: usize = keys.len();
    let order = stable_order(&keys);
    proof {
        order::lemma_ranks(keys@, order@);
    }
    let truncated = rows.len() > config.max_candidates;
    let kept: usize = if truncated {
        config.max_candidates
    } else {
        rows.len()
    };
    let ghost chosen = compared(p@, s as int);
    let mut scores: Vec<CandidateScore> = Vec::new();
    let mut score_keys: Vec<Pair<u64, u64>> = Vec::new();
    let mut j: usize = 0;
    while j < kept
        invariant
            j <= kept,
            kept == chosen.len(),
            kept <= rows@.len(),
            count == targets@.len(),
            is_pairing(p@, *source, *target),
            s < p@.source.len(),
            context::context_views(targets@) == p@.target,
            own@ == p@.source[s as int],
            order@.len() == rows@.len(),
            all == syntax::index_views(rows@),
            forall|k: int| 0 <= k < rows@.len() ==> #[trigger] rows@[k] < count,
            forall|k: int| 0 <= k < rows@.len() ==> #[trigger] order@[k] < rows@.len(),
            forall|k: int| 0 <= k < kept ==> #[trigger] chosen[k] == all[order@[k] as int],
            scores@.len() == j,
            score_keys@.len() == j,
            forall|k: int|
                0 <= k < j ==> #[trigger] scores@[k].target == chosen[k] && is_score(
                    scores@[k],
                    p@,
                    s as int,
                ),
            forall|k: int|
                0 <= k < j ==> #[trigger] score_keys@[k] == scored_key(p@, s as int, chosen[k]),
        decreases kept - j,
    {
        let row = rows[order[j]];
        proof {
            assert(chosen[j as int] == all[order@[j as int] as int]);
            assert(all[order@[j as int] as int] == row as int);
            assert(p@.target[row as int] == targets@[row as int]@);
            assert(score::is_sound(p@.target[row as int]));
            assert(score::is_sound(p@.source[s as int]));
        }
        let found = score_pair(own, &targets[row], row);
        score_keys.push(Pair((SCORE_SCALE - found.score) as u64, row as u64));
        scores.push(found);
        j += 1;
    }
    assert(score_keys@ =~= scored_keys(p@, s as int, chosen));
    let by_score = stable_order(&score_keys);
    proof {
        order::lemma_ranks(score_keys@, by_score@);
    }
    let ghost expected = scored(p@, s as int);
    let mut sorted: Vec<CandidateScore> = Vec::new();
    let mut i: usize = 0;
    while i < kept
        invariant
            i <= kept,
            kept == chosen.len(),
            scores@.len() == kept,
            by_score@.len() == kept,
            expected.len() == kept,
            forall|k: int|
                0 <= k < kept ==> #[trigger] scores@[k].target == chosen[k] && is_score(
                    scores@[k],
                    p@,
                    s as int,
                ),
            forall|k: int| 0 <= k < kept ==> #[trigger] by_score@[k] < kept,
            forall|k: int| 0 <= k < kept ==> #[trigger] expected[k] == chosen[by_score@[k] as int],
            sorted@.len() == i,
            forall|k: int|
                0 <= k < i ==> #[trigger] sorted@[k].target == expected[k] && is_score(
                    sorted@[k],
                    p@,
                    s as int,
                ),
        decreases kept - i,
    {
        let found = &scores[by_score[i]];
        assert(expected[i as int] == chosen[by_score@[i as int] as int]);
        sorted.push(
            CandidateScore { target: found.target, score: found.score, evidence: found.evidence },
        );
        i += 1;
    }
    (sorted, truncated)
}

/// Whether a score is that of a source and a target.
pub open spec fn is_score(found: CandidateScore, p: Pairing, s: int) -> bool {
    &&& found.target < p.target.len()
    &&& found.score == score::score_of(p.source[s], p.target[found.target as int])
    &&& found.score <= SCORE_SCALE
    &&& score::is_evidence_of(found.evidence, p.source[s], p.target[found.target as int])
    &&& score::is_in_range(found.evidence)
}

/// Whether scores are those of the compared candidates of a source.
pub open spec fn are_scores(scores: Seq<CandidateScore>, p: Pairing, s: int) -> bool {
    &&& scores.len() == scored(p, s).len()
    &&& forall|k: int|
        0 <= k < scores.len() ==> #[trigger] scores[k].target == scored(p, s)[k] && is_score(
            scores[k],
            p,
            s,
        )
}

proof fn lemma_candidates_ascend(p: Pairing, s: int, count: int)
    requires
        0 <= count,
    ensures
        forall|i: int, j: int|
            0 <= i < j < candidates_upto(p, s, count).len() ==> candidates_upto(p, s, count)[i]
                < candidates_upto(p, s, count)[j],
        forall|i: int|
            0 <= i < candidates_upto(p, s, count).len() ==> 0 <= #[trigger] candidates_upto(
                p,
                s,
                count,
            )[i] < count,
        candidates_upto(p, s, count).len() <= count,
    decreases count,
{
    if count > 0 {
        lemma_candidates_ascend(p, s, count - 1);
    }
}

/// The compared candidates of a source are distinct targets, and at most as
/// many as the configuration allows.
pub proof fn law_candidates_are_bounded(p: Pairing, s: int)
    ensures
        scored(p, s).no_duplicates(),
        scored(p, s).len() <= p.config.max_candidates,
        scored(p, s).len() <= p.target.len(),
        forall|t: int|
            #[trigger] scored(p, s).contains(t) ==> 0 <= t < p.target.len() && is_candidate(
                p,
                s,
                t,
            ),
{
    let all = all_candidates(p, s);
    lemma_candidates_ascend(p, s, p.target.len() as int);
    lemma_candidates_qualify(p, s, p.target.len() as int);
    assert(all.no_duplicates());
    let ranked = ranked_candidates(p, s);
    order::lemma_arranged(all, candidate_keys(p, s, all));
    let chosen = compared(p, s);
    assert(chosen.no_duplicates());
    order::lemma_arranged(chosen, scored_keys(p, s, chosen));
    assert forall|t: int| #[trigger] scored(p, s).contains(t) implies 0 <= t < p.target.len()
        && is_candidate(p, s, t) by {
        assert(chosen.contains(t));
        let j = choose|j: int| 0 <= j < chosen.len() && chosen[j] == t;
        assert(ranked[j] == t);
        assert(ranked.contains(t));
        assert(all.contains(t));
        let k = choose|k: int| 0 <= k < all.len() && all[k] == t;
        assert(is_candidate(p, s, all[k]));
    }
}

proof fn lemma_candidates_qualify(p: Pairing, s: int, count: int)
    ensures
        forall|k: int|
            0 <= k < candidates_upto(p, s, count).len() ==> is_candidate(
                p,
                s,
                #[trigger] candidates_upto(p, s, count)[k],
            ),
    decreases count,
{
    if count > 0 {
        lemma_candidates_qualify(p, s, count - 1);
        let shorter = candidates_upto(p, s, count - 1);
        let longer = candidates_upto(p, s, count);
        assert forall|k: int| 0 <= k < longer.len() implies is_candidate(
            p,
            s,
            #[trigger] longer[k],
        ) by {
            if k < shorter.len() {
                assert(is_candidate(p, s, shorter[k]));
            }
        }
    }
}

} // verus!
