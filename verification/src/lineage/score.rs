//! How well two symbols match.

use vstd::prelude::*;

use super::context::{ContextFingerprint, ContextModel};
use super::{MatchEvidence, SCORE_SCALE};
use crate::sets::intersection_count;
use crate::text::same_bytes;

use super::context;
use crate::sets;

verus! {

/// The number of bits set among the first `count`.
pub open spec fn ones(value: u64, count: u64) -> nat
    decreases count,
{
    if count == 0 {
        0
    } else {
        ones(value, (count - 1) as u64) + if value & (1u64 << ((count - 1) as u64)) != 0 {
            1nat
        } else {
            0
        }
    }
}

/// The share of bits in which two hashes agree.
pub open spec fn hash_similarity(left: u64, right: u64) -> int {
    SCORE_SCALE - ones(left ^ right, 64) * SCORE_SCALE / 64
}

/// The smaller of two numbers.
pub open spec fn smaller(a: int, b: int) -> int {
    if a <= b {
        a
    } else {
        b
    }
}

/// The larger of two numbers.
pub open spec fn larger(a: int, b: int) -> int {
    if a <= b {
        b
    } else {
        a
    }
}

/// What the first `count` numbers of two lists have in common.
pub open spec fn overlap(left: Seq<int>, right: Seq<int>, count: int) -> int
    decreases count,
{
    if count <= 0 {
        0
    } else {
        overlap(left, right, count - 1) + smaller(left[count - 1], right[count - 1])
    }
}

/// What the first `count` numbers of two lists cover together.
pub open spec fn cover(left: Seq<int>, right: Seq<int>, count: int) -> int
    decreases count,
{
    if count <= 0 {
        0
    } else {
        cover(left, right, count - 1) + larger(left[count - 1], right[count - 1])
    }
}

/// The share of uses that two symbols have in common.
pub open spec fn roles_similarity(left: Seq<int>, right: Seq<int>) -> int {
    if cover(left, right, 6) == 0 {
        SCORE_SCALE as int
    } else {
        overlap(left, right, 6) * SCORE_SCALE / cover(left, right, 6)
    }
}

/// How close two sizes are.
pub open spec fn size_similarity(left: int, right: int) -> int {
    larger(smaller(left, right), 1) * SCORE_SCALE / larger(larger(left, right), 1)
}

/// How far apart two numbers are.
pub open spec fn distance(a: int, b: int) -> int {
    if a <= b {
        b - a
    } else {
        a - b
    }
}

/// How close two scope depths are.
pub open spec fn depth_similarity(left: int, right: int) -> int {
    SCORE_SCALE - smaller(distance(left, right), 8) * 1250
}

/// Whether two symbols come from the same origin, where both are known.
pub open spec fn origins_match(left: Option<Seq<u8>>, right: Option<Seq<u8>>) -> Option<bool> {
    match (left, right) {
        (Some(left), Some(right)) => Some(left == right),
        _ => None,
    }
}

/// What speaks for a match of two symbols.
pub open spec fn is_evidence_of(
    evidence: MatchEvidence,
    source: ContextModel,
    target: ContextModel,
) -> bool {
    &&& evidence.exact_shape == (source.digest == target.digest)
    &&& evidence.shape_bps == hash_similarity(source.shape_hash, target.shape_hash)
    &&& evidence.context_bps == hash_similarity(source.context_hash, target.context_hash)
    &&& evidence.roles_bps == roles_similarity(source.roles, target.roles)
    &&& evidence.size_bps == size_similarity(source.size, target.size)
    &&& evidence.scope_bps == depth_similarity(source.scope_depth, target.scope_depth)
    &&& evidence.shared_rare_features == sets::shared(
        source.features,
        target.features,
        source.features.len() as int,
    ) as u32
    &&& evidence.source_map_origin_match == origins_match(source.origin, target.origin)
}

/// Whether every part of the evidence is at most the scale.
pub open spec fn is_in_range(evidence: MatchEvidence) -> bool {
    &&& evidence.shape_bps <= SCORE_SCALE
    &&& evidence.context_bps <= SCORE_SCALE
    &&& evidence.roles_bps <= SCORE_SCALE
    &&& evidence.size_bps <= SCORE_SCALE
    &&& evidence.scope_bps <= SCORE_SCALE
}

/// How well two symbols match.
pub open spec fn score_of(source: ContextModel, target: ContextModel) -> int {
    (hash_similarity(source.shape_hash, target.shape_hash) * 45 + hash_similarity(
        source.context_hash,
        target.context_hash,
    ) * 20 + roles_similarity(source.roles, target.roles) * 15 + size_similarity(
        source.size,
        target.size,
    ) * 10 + depth_similarity(source.scope_depth, target.scope_depth) * 10) / 100
}

/// Whether the numbers of a context are in range.
pub open spec fn is_sound(c: ContextModel) -> bool {
    &&& c.roles.len() == 6
    &&& forall|k: int| 0 <= k < 6 ==> 0 <= #[trigger] c.roles[k] <= u32::MAX
    &&& 0 <= c.size <= u32::MAX
    &&& 0 <= c.scope_depth <= u32::MAX
    &&& sets::is_ascending(c.features)
}

proof fn lemma_ones_bound(value: u64, count: u64)
    ensures
        ones(value, count) <= count,
    decreases count,
{
    if count > 0 {
        lemma_ones_bound(value, (count - 1) as u64);
    }
}

fn hamming_similarity(left: u64, right: u64) -> (similarity: u32)
    ensures
        similarity == hash_similarity(left, right),
        similarity <= SCORE_SCALE,
{
    let value: u64 = left ^ right;
    let mut count: u32 = 0;
    let mut bit: u64 = 0;
    while bit < 64
        invariant
            bit <= 64,
            count == ones(value, bit),
            count <= bit,
        decreases 64 - bit,
    {
        if value & (1u64 << bit) != 0 {
            count += 1;
        }
        bit += 1;
    }
    SCORE_SCALE - count * SCORE_SCALE / 64
}

proof fn lemma_overlap_bounds(left: Seq<int>, right: Seq<int>, count: int)
    requires
        0 <= count <= 6,
        left.len() == 6,
        right.len() == 6,
        forall|k: int| 0 <= k < 6 ==> 0 <= #[trigger] left[k] <= u32::MAX,
        forall|k: int| 0 <= k < 6 ==> 0 <= #[trigger] right[k] <= u32::MAX,
    ensures
        0 <= overlap(left, right, count) <= cover(left, right, count),
        cover(left, right, count) <= count * u32::MAX,
    decreases count,
{
    if count > 0 {
        lemma_overlap_bounds(left, right, count - 1);
        assert(0 <= left[count - 1] <= u32::MAX);
        assert(0 <= right[count - 1] <= u32::MAX);
    }
}

/// A share of a whole is at most the scale.
proof fn lemma_share(part: int, whole: int)
    requires
        0 <= part <= whole,
        0 < whole,
    ensures
        0 <= part * SCORE_SCALE / whole <= SCORE_SCALE,
{
    assert(0 <= part * 10000 / whole <= 10000) by (nonlinear_arith)
        requires
            0 <= part <= whole,
            0 < whole,
    ;
}

fn histogram_similarity(left: &Vec<u32>, right: &Vec<u32>) -> (similarity: u32)
    requires
        left@.len() == 6,
        right@.len() == 6,
    ensures
        similarity == roles_similarity(
            context::number_views(left@),
            context::number_views(right@),
        ),
        similarity <= SCORE_SCALE,
{
    let ghost l = context::number_views(left@);
    let ghost r = context::number_views(right@);
    let mut common: u64 = 0;
    let mut total: u64 = 0;
    let mut k: usize = 0;
    while k < 6
        invariant
            k <= 6,
            left@.len() == 6,
            right@.len() == 6,
            l == context::number_views(left@),
            r == context::number_views(right@),
            common == overlap(l, r, k as int),
            total == cover(l, r, k as int),
            common <= k * u32::MAX,
            total <= k * u32::MAX,
        decreases 6 - k,
    {
        let a = left[k];
        let b = right[k];
        if a <= b {
            common += a as u64;
            total += b as u64;
        } else {
            common += b as u64;
            total += a as u64;
        }
        k += 1;
    }
    proof {
        lemma_overlap_bounds(l, r, 6);
    }
    if total == 0 {
        SCORE_SCALE
    } else {
        proof {
            lemma_share(common as int, total as int);
        }
        (common * SCORE_SCALE as u64 / total) as u32
    }
}

fn ratio_similarity(left: u32, right: u32) -> (similarity: u32)
    ensures
        similarity == size_similarity(left as int, right as int),
        similarity <= SCORE_SCALE,
{
    let mut small: u64 = if left <= right {
        left as u64
    } else {
        right as u64
    };
    let mut large: u64 = if left <= right {
        right as u64
    } else {
        left as u64
    };
    if small < 1 {
        small = 1;
    }
    if large < 1 {
        large = 1;
    }
    proof {
        lemma_share(small as int, large as int);
    }
    (small * SCORE_SCALE as u64 / large) as u32
}

/// How well a pair of symbols matches, and why.
pub struct CandidateScore {
    pub target: usize,
    pub score: u32,
    pub evidence: MatchEvidence,
}

/// Scores a pair of symbols.
pub(crate) fn score_pair(source: &ContextFingerprint, target: &ContextFingerprint, row: usize) -> (r:
    CandidateScore)
    requires
        is_sound(source@),
        is_sound(target@),
    ensures
        r.target == row,
        r.score == score_of(source@, target@),
        r.score <= SCORE_SCALE,
        is_evidence_of(r.evidence, source@, target@),
        is_in_range(r.evidence),
{
    proof {
        assert(context::number_views(source.roles@).len() == source.roles@.len());
        assert(context::number_views(target.roles@).len() == target.roles@.len());
    }
    let shape_bps = hamming_similarity(source.shape_hash, target.shape_hash);
    let context_bps = hamming_similarity(source.context_hash, target.context_hash);
    let roles_bps = histogram_similarity(&source.roles, &target.roles);
    let size_bps = ratio_similarity(source.size, target.size);
    let apart: u32 = if source.scope_depth <= target.scope_depth {
        target.scope_depth - source.scope_depth
    } else {
        source.scope_depth - target.scope_depth
    };
    let scope_bps: u32 = if apart <= 8 {
        SCORE_SCALE - apart * 1250
    } else {
        SCORE_SCALE - 8 * 1250
    };
    let common = intersection_count(&source.features, &target.features);
    let exact_shape = same_bytes(source.digest.as_slice(), target.digest.as_slice());
    let source_map_origin_match: Option<bool> = match (&source.origin, &target.origin) {
        (Some(left), Some(right)) => Some(same_bytes(left.as_slice(), right.as_slice())),
        _ => None,
    };
    let score: u64 = (shape_bps as u64 * 45 + context_bps as u64 * 20 + roles_bps as u64 * 15
        + size_bps as u64 * 10 + scope_bps as u64 * 10) / 100;
    CandidateScore {
        target: row,
        score: score as u32,
        evidence: MatchEvidence {
            exact_shape,
            shape_bps,
            context_bps,
            roles_bps,
            size_bps,
            scope_bps,
            shared_rare_features: common as u32,
            source_map_origin_match,
        },
    }
}

} // verus!
