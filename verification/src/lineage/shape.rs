//! Identifier-erased fingerprints of syntax subtrees.

use vstd::prelude::*;
use vstd::string::*;
use vstd::utf8::*;

use super::LineageError;
use crate::analysis::{Analysis, AnalysisNode};
use crate::bytes::{push_all, push_framed, read_le};
use crate::digest::sha256;
use crate::{bytes, digest, syntax};

use crate::analysis::validate;

verus! {

/// The bits of a similarity hash.
pub const HASH_BITS: u64 = 64;

/// The children of a node among the first `count` nodes.
pub open spec fn node_children(nodes: Seq<AnalysisNode>, i: int, count: int) -> Seq<int>
    decreases count,
{
    if count <= 0 {
        Seq::empty()
    } else if nodes[count - 1].parent == Some(i as u32) {
        node_children(nodes, i, count - 1).push(count - 1)
    } else {
        node_children(nodes, i, count - 1)
    }
}

/// The children of a node.
pub open spec fn children_of(a: Analysis, i: int) -> Seq<int> {
    node_children(a.nodes@, i, a.nodes@.len() as int)
}

/// The kind of a node.
pub open spec fn kind_of(a: Analysis, i: int) -> Seq<char> {
    a.strings@[a.nodes@[i].kind as int]@
}

/// The digest of a subtree: the kind and flags of its root, and the digests of
/// what hangs below.
pub open spec fn shape_digest(a: Analysis, i: int) -> Seq<u8>
    decreases a.nodes@.len() - i, children_of(a, i).len() + 1,
    when 0 <= i < a.nodes@.len()
{
    digest::sha256_of(
        bytes::framed(encode_utf8(kind_of(a, i))) + seq![a.nodes@[i].flags] + child_digests(
            a,
            i,
            children_of(a, i).len() as int,
        ),
    )
}

/// The digests of the first `count` children of a node.
pub open spec fn child_digests(a: Analysis, i: int, count: int) -> Seq<u8>
    decreases a.nodes@.len() - i, count,
    when 0 <= i < a.nodes@.len() && count <= children_of(a, i).len()
{
    if count <= 0 {
        Seq::empty()
    } else {
        let child = children_of(a, i)[count - 1];
        child_digests(a, i, count - 1) + (if i < child < a.nodes@.len() {
            shape_digest(a, child)
        } else {
            Seq::empty()
        })
    }
}

/// The number of nodes of a subtree.
pub open spec fn subtree_size(a: Analysis, i: int) -> nat
    decreases a.nodes@.len() - i, children_of(a, i).len() + 1,
    when 0 <= i < a.nodes@.len()
{
    1 + child_sizes(a, i, children_of(a, i).len() as int)
}

/// The number of nodes below the first `count` children of a node, and those
/// children.
pub open spec fn child_sizes(a: Analysis, i: int, count: int) -> nat
    decreases a.nodes@.len() - i, count,
    when 0 <= i < a.nodes@.len() && count <= children_of(a, i).len()
{
    if count <= 0 {
        0
    } else {
        let child = children_of(a, i)[count - 1];
        child_sizes(a, i, count - 1) + (if i < child < a.nodes@.len() {
            subtree_size(a, child)
        } else {
            0
        })
    }
}

/// A 64-bit hash of a feature's parts.
pub open spec fn feature_of(parts: Seq<Seq<u8>>) -> u64 {
    bytes::le_value(digest::sha256_of(bytes::framed_all(parts)).take(8)) as u64
}

/// What a feature votes for a bit.
pub open spec fn vote_of(feature: u64, bit: u64) -> int {
    if feature & (1u64 << bit) == 0 {
        -1
    } else {
        1
    }
}

/// The votes of a feature.
pub open spec fn votes_of(feature: u64) -> Seq<int> {
    Seq::new(64, |bit: int| vote_of(feature, bit as u64))
}

/// A vote count kept in the range of 32 bits.
pub open spec fn clamped(value: int) -> int {
    if value > i32::MAX {
        i32::MAX as int
    } else if value < i32::MIN {
        i32::MIN as int
    } else {
        value
    }
}

/// Two vote counts taken together.
pub open spec fn tallied(a: Seq<int>, b: Seq<int>) -> Seq<int> {
    Seq::new(64, |bit: int| clamped(a[bit] + b[bit]))
}

/// The hash that votes agree on, up to bit `count`.
pub open spec fn majority(votes: Seq<int>, count: u64) -> u64
    decreases count,
{
    if count == 0 {
        0
    } else {
        let earlier = majority(votes, (count - 1) as u64);
        if votes[count - 1] >= 0 {
            earlier | (1u64 << ((count - 1) as u64))
        } else {
            earlier
        }
    }
}

/// The votes of a subtree.
pub open spec fn subtree_votes(a: Analysis, i: int) -> Seq<int>
    decreases a.nodes@.len() - i, children_of(a, i).len() + 1,
    when 0 <= i < a.nodes@.len()
{
    child_votes(a, i, children_of(a, i).len() as int)
}

/// The votes of a node and its first `count` children.
pub open spec fn child_votes(a: Analysis, i: int, count: int) -> Seq<int>
    decreases a.nodes@.len() - i, count,
    when 0 <= i < a.nodes@.len() && count <= children_of(a, i).len()
{
    if count <= 0 {
        votes_of(node_feature(a, i))
    } else {
        let child = children_of(a, i)[count - 1];
        if i < child < a.nodes@.len() {
            tallied(child_votes(a, i, count - 1), subtree_votes(a, child))
        } else {
            child_votes(a, i, count - 1)
        }
    }
}

/// The feature of a node by itself.
pub open spec fn node_feature(a: Analysis, i: int) -> u64 {
    feature_of(seq![encode_utf8("node"@), encode_utf8(kind_of(a, i)), seq![a.nodes@[i].flags]])
}

/// The similarity hash of a subtree.
pub open spec fn shape_hash(a: Analysis, i: int) -> u64 {
    majority(subtree_votes(a, i), 64)
}

/// Whether a subtree has more nodes than a row number counts.
pub open spec fn some_subtree_is_too_large(a: Analysis) -> bool {
    exists|i: int| 0 <= i < a.nodes@.len() && #[trigger] subtree_size(a, i) > u32::MAX
}

/// A 64-bit hash of a feature's parts.
pub fn feature_hash(parts: FeatureParts) -> (feature: u64)
    ensures
        feature == feature_of(parts.parts()),
{
    proof {
        use_type_invariant(&parts);
    }
    let digest = sha256(parts.buffer.as_slice());
    let value = read_le(digest.as_slice(), 0, 8);
    proof {
        assert(digest@.subrange(0, 8) =~= digest@.take(8));
    }
    value
}

/// Collects the parts of a feature.
pub struct FeatureParts {
    buffer: Vec<u8>,
    parts: Ghost<Seq<Seq<u8>>>,
}

impl FeatureParts {
    #[verifier::type_invariant]
    spec fn is_wf(self) -> bool {
        self.buffer@ == bytes::framed_all(self.parts@)
    }

    /// The parts so far.
    pub closed spec fn parts(&self) -> Seq<Seq<u8>> {
        self.parts@
    }

    pub fn new(name: &str) -> (parts: FeatureParts)
        ensures
            parts.parts() == seq![encode_utf8(name@)],
    {
        let buffer: Vec<u8> = Vec::new();
        let parts = FeatureParts { buffer, parts: Ghost(Seq::empty()) }.push(name.as_bytes());
        assert(parts.parts() =~= seq![encode_utf8(name@)]);
        parts
    }

    pub fn push(self, part: &[u8]) -> (parts: FeatureParts)
        ensures
            parts.parts() == self.parts().push(part@),
    {
        proof {
            use_type_invariant(&self);
            assert(self.parts@.push(part@).drop_last() =~= self.parts@);
        }
        let mut buffer = self.buffer;
        push_framed(&mut buffer, part);
        FeatureParts { buffer, parts: Ghost(self.parts@.push(part@)) }
    }

    pub fn push_byte(self, value: u8) -> (parts: FeatureParts)
        ensures
            parts.parts() == self.parts().push(seq![value]),
    {
        let mut part: Vec<u8> = Vec::new();
        part.push(value);
        assert(part@ =~= seq![value]);
        self.push(part.as_slice())
    }

    pub fn push_pair(self, first: u8, second: u8) -> (parts: FeatureParts)
        ensures
            parts.parts() == self.parts().push(seq![first, second]),
    {
        let mut part: Vec<u8> = Vec::new();
        part.push(first);
        part.push(second);
        assert(part@ =~= seq![first, second]);
        self.push(part.as_slice())
    }
}

/// Votes seen as integers.
pub open spec fn vote_views(votes: Seq<i32>) -> Seq<int> {
    votes.map_values(|vote: i32| vote as int)
}

/// The votes of a feature.
pub fn votes_for(feature: u64) -> (votes: Vec<i32>)
    ensures
        vote_views(votes@) == votes_of(feature),
{
    let mut votes: Vec<i32> = Vec::new();
    let mut bit: u64 = 0;
    while bit < HASH_BITS
        invariant
            bit <= HASH_BITS,
            votes@.len() == bit,
            forall|k: int| 0 <= k < bit ==> #[trigger] votes@[k] == vote_of(feature, k as u64),
        decreases HASH_BITS - bit,
    {
        if feature & (1u64 << bit) == 0 {
            votes.push(-1);
        } else {
            votes.push(1);
        }
        bit += 1;
    }
    assert(vote_views(votes@) =~= votes_of(feature));
    votes
}

/// Two vote counts taken together.
pub(crate) fn tally(a: &Vec<i32>, b: &Vec<i32>) -> (votes: Vec<i32>)
    requires
        a@.len() == 64,
        b@.len() == 64,
    ensures
        vote_views(votes@) == tallied(vote_views(a@), vote_views(b@)),
{
    let mut votes: Vec<i32> = Vec::new();
    let mut bit: usize = 0;
    while bit < 64
        invariant
            bit <= 64,
            a@.len() == 64,
            b@.len() == 64,
            votes@.len() == bit,
            forall|k: int| 0 <= k < bit ==> #[trigger] votes@[k] == clamped(a@[k] + b@[k]),
        decreases 64 - bit,
    {
        let sum: i64 = a[bit] as i64 + b[bit] as i64;
        if sum > i32::MAX as i64 {
            votes.push(i32::MAX);
        } else if sum < i32::MIN as i64 {
            votes.push(i32::MIN);
        } else {
            votes.push(sum as i32);
        }
        bit += 1;
    }
    assert(vote_views(votes@) =~= tallied(vote_views(a@), vote_views(b@)));
    votes
}

/// The hash that votes agree on.
pub(crate) fn votes_to_simhash(votes: &Vec<i32>) -> (hash: u64)
    requires
        votes@.len() == 64,
    ensures
        hash == majority(vote_views(votes@), 64),
{
    let mut hash: u64 = 0;
    let mut bit: u64 = 0;
    while bit < HASH_BITS
        invariant
            bit <= HASH_BITS,
            votes@.len() == 64,
            hash == majority(vote_views(votes@), bit),
        decreases HASH_BITS - bit,
    {
        if votes[bit as usize] >= 0 {
            hash = hash | (1u64 << bit);
        }
        bit += 1;
    }
    hash
}

/// The fingerprints of the subtree below every node.
pub struct Shapes {
    pub digests: Vec<[u8; 32]>,
    pub simhashes: Vec<u64>,
    pub sizes: Vec<u32>,
}

/// Whether fingerprints from node `from` on are those of an analysis.
pub open spec fn shapes_from(shapes: Shapes, a: Analysis, from: int) -> bool {
    &&& shapes.digests@.len() == a.nodes@.len()
    &&& shapes.simhashes@.len() == a.nodes@.len()
    &&& shapes.sizes@.len() == a.nodes@.len()
    &&& forall|i: int|
        from <= i < a.nodes@.len() ==> (#[trigger] shapes.digests@[i])@ == shape_digest(a, i)
    &&& forall|i: int|
        from <= i < a.nodes@.len() ==> #[trigger] shapes.simhashes@[i] == shape_hash(a, i)
    &&& forall|i: int|
        from <= i < a.nodes@.len() ==> #[trigger] shapes.sizes@[i] == subtree_size(a, i)
}

/// Whether lists hold the children of every node.
pub open spec fn lists_children(lists: Seq<Vec<usize>>, nodes: Seq<AnalysisNode>, count: int) -> bool {
    forall|p: int|
        0 <= p < lists.len() ==> syntax::index_views((#[trigger] lists[p])@) == node_children(
            nodes,
            p,
            count,
        )
}

/// The children of every node.
pub(crate) fn list_children(a: &Analysis) -> (lists: Vec<Vec<usize>>)
    requires
        validate::rows_fit(*a),
    ensures
        lists@.len() == a.nodes@.len(),
        lists_children(lists@, a.nodes@, a.nodes@.len() as int),
{
    let length: usize = a.nodes.len();
    let mut lists: Vec<Vec<usize>> = Vec::new();
    while lists.len() < length
        invariant
            lists@.len() <= length,
            lists_children(lists@, a.nodes@, 0),
        decreases length - lists@.len(),
    {
        let list: Vec<usize> = Vec::new();
        assert(syntax::index_views(list@) =~= Seq::empty());
        lists.push(list);
    }
    let mut i: usize = 0;
    while i < length
        invariant
            i <= length,
            length == a.nodes@.len(),
            validate::rows_fit(*a),
            lists@.len() == length,
            lists_children(lists@, a.nodes@, i as int),
        decreases length - i,
    {
        let ghost before = lists@;
        if let Some(parent) = a.nodes[i].parent {
            assert(validate::row_fits(a.nodes@[i as int].parent, i as int));
            lists[parent as usize].push(i);
        }
        proof {
            assert forall|p: int| 0 <= p < lists@.len() implies syntax::index_views(
                (#[trigger] lists@[p])@,
            ) == node_children(a.nodes@, p, i + 1) by {
                assert(syntax::index_views(before[p]@) == node_children(a.nodes@, p, i as int));
                if a.nodes@[i as int].parent == Some(p as u32) {
                    assert(syntax::index_views(lists@[p]@) =~= syntax::index_views(before[p]@).push(
                        i as int,
                    ));
                }
            }
        }
        i += 1;
    }
    lists
}

/// Children of a node come behind it.
pub proof fn lemma_children_are_later(a: Analysis, i: int, count: int, k: int)
    requires
        validate::rows_fit(a),
        0 <= i < a.nodes@.len(),
        count <= a.nodes@.len(),
        0 <= k < node_children(a.nodes@, i, count).len(),
    ensures
        i < node_children(a.nodes@, i, count)[k] < count,
    decreases count,
{
    if count > 0 {
        let shorter = node_children(a.nodes@, i, count - 1);
        if k < shorter.len() {
            lemma_children_are_later(a, i, count - 1, k);
        } else {
            assert(validate::row_fits(a.nodes@[count - 1].parent, count - 1));
        }
    }
}

/// What a node adds up to.
struct ShapeRow {
    digest: [u8; 32],
    votes: Vec<i32>,
    size: u32,
}

fn shape_of_row(
    a: &Analysis,
    i: usize,
    children: &Vec<usize>,
    shapes: &Shapes,
    votes: &Vec<Vec<i32>>,
) -> (r: Option<ShapeRow>)
    requires
        validate::rows_fit(*a),
        i < a.nodes@.len(),
        syntax::index_views(children@) == children_of(*a, i as int),
        shapes_from(*shapes, *a, i + 1),
        votes@.len() == a.nodes@.len(),
        forall|k: int|
            i < k < a.nodes@.len() ==> vote_views((#[trigger] votes@[k])@) == subtree_votes(*a, k),
    ensures
        match r {
            Some(row) => {
                &&& row.digest@ == shape_digest(*a, i as int)
                &&& vote_views(row.votes@) == subtree_votes(*a, i as int)
                &&& row.size == subtree_size(*a, i as int)
            },
            None => subtree_size(*a, i as int) > u32::MAX,
        },
{
    let node = &a.nodes[i];
    let kind = a.strings[node.kind as usize].as_str();
    let ghost list = children_of(*a, i as int);
    let mut buffer: Vec<u8> = Vec::new();
    push_framed(&mut buffer, kind.as_bytes());
    buffer.push(node.flags);
    let ghost header = bytes::framed(encode_utf8(kind@)) + seq![node.flags];
    let feature = feature_hash(
        FeatureParts::new("node").push(kind.as_bytes()).push_byte(node.flags),
    );
    proof {
        assert(seq![encode_utf8("node"@)].push(encode_utf8(kind@)).push(seq![node.flags]) =~= seq![
            encode_utf8("node"@),
            encode_utf8(kind@),
            seq![node.flags],
        ]);
        assert(buffer@ =~= header + child_digests(*a, i as int, 0));
    }
    let mut tallies = votes_for(feature);
    assert(vote_views(tallies@).len() == tallies@.len());
    let mut size: u32 = 1;
    let mut k: usize = 0;
    while k < children.len()
        invariant
            k <= children@.len(),
            i < a.nodes@.len(),
            validate::rows_fit(*a),
            list == children_of(*a, i as int),
            list == syntax::index_views(children@),
            list.len() == children@.len(),
            shapes_from(*shapes, *a, i + 1),
            votes@.len() == a.nodes@.len(),
            forall|j: int|
                i < j < a.nodes@.len() ==> vote_views((#[trigger] votes@[j])@) == subtree_votes(
                    *a,
                    j,
                ),
            buffer@ == header + child_digests(*a, i as int, k as int),
            vote_views(tallies@) == child_votes(*a, i as int, k as int),
            tallies@.len() == 64,
            size == 1 + child_sizes(*a, i as int, k as int),
        decreases children@.len() - k,
    {
        let child = children[k];
        proof {
            assert(list[k as int] == child as int);
            lemma_children_are_later(*a, i as int, a.nodes@.len() as int, k as int);
            assert(shapes.digests@[child as int]@ == shape_digest(*a, child as int));
            assert(vote_views(votes@[child as int]@) == subtree_votes(*a, child as int));
            assert(shapes.sizes@[child as int] == subtree_size(*a, child as int));
            lemma_votes_length(*a, child as int);
            assert(vote_views(votes@[child as int]@).len() == votes@[child as int]@.len());
        }
        let ghost before = buffer@;
        push_all(&mut buffer, shapes.digests[child].as_slice());
        proof {
            assert(buffer@ =~= header + child_digests(*a, i as int, k + 1));
        }
        tallies = tally(&tallies, &votes[child]);
        proof {
            assert(vote_views(tallies@).len() == tallies@.len());
        }
        match size.checked_add(shapes.sizes[child]) {
            Some(total) => {
                size = total;
            },
            None => {
                proof {
                    lemma_sizes_grow(*a, i as int, k + 1, list.len() as int);
                }
                return None;
            },
        }
        k += 1;
    }
    let digest = sha256(buffer.as_slice());
    Some(ShapeRow { digest, votes: tallies, size })
}

proof fn lemma_votes_length(a: Analysis, i: int)
    requires
        0 <= i < a.nodes@.len(),
    ensures
        subtree_votes(a, i).len() == 64,
{
    lemma_child_votes_length(a, i, children_of(a, i).len() as int);
}

proof fn lemma_child_votes_length(a: Analysis, i: int, count: int)
    requires
        0 <= i < a.nodes@.len(),
        0 <= count <= children_of(a, i).len(),
    ensures
        child_votes(a, i, count).len() == 64,
    decreases count,
{
    if count > 0 {
        lemma_child_votes_length(a, i, count - 1);
    }
}

proof fn lemma_sizes_grow(a: Analysis, i: int, k: int, count: int)
    requires
        0 <= i < a.nodes@.len(),
        0 <= k <= count <= children_of(a, i).len(),
    ensures
        child_sizes(a, i, k) <= child_sizes(a, i, count),
    decreases count,
{
    if k < count {
        lemma_sizes_grow(a, i, k, count - 1);
    }
}

/// The fingerprints of the subtree below every node.
pub(crate) fn subtree_fingerprints(a: &Analysis) -> (r: Result<Shapes, LineageError>)
    requires
        validate::rows_fit(*a),
    ensures
        match r {
            Ok(shapes) => shapes_from(shapes, *a, 0) && !some_subtree_is_too_large(*a),
            Err(error) => error == LineageError::SubtreeTooLarge && some_subtree_is_too_large(*a),
        },
{
    let length: usize = a.nodes.len();
    let children = list_children(a);
    let mut digests: Vec<[u8; 32]> = Vec::new();
    let mut simhashes: Vec<u64> = Vec::new();
    let mut sizes: Vec<u32> = Vec::new();
    let mut votes: Vec<Vec<i32>> = Vec::new();
    while digests.len() < length
        invariant
            digests@.len() <= length,
            simhashes@.len() == digests@.len(),
            sizes@.len() == digests@.len(),
            votes@.len() == digests@.len(),
        decreases length - digests@.len(),
    {
        digests.push([0; 32]);
        simhashes.push(0);
        sizes.push(0);
        votes.push(Vec::new());
    }
    let mut shapes = Shapes { digests, simhashes, sizes };
    let mut i: usize = length;
    while i > 0
        invariant
            i <= length,
            length == a.nodes@.len(),
            validate::rows_fit(*a),
            children@.len() == length,
            lists_children(children@, a.nodes@, a.nodes@.len() as int),
            shapes_from(shapes, *a, i as int),
            votes@.len() == length,
            forall|k: int|
                i <= k < length ==> vote_views((#[trigger] votes@[k])@) == subtree_votes(*a, k),
        decreases i,
    {
        let row: usize = i - 1;
        assert(syntax::index_views(children@[row as int]@) == children_of(*a, row as int));
        let found = match shape_of_row(a, row, &children[row], &shapes, &votes) {
            Some(found) => found,
            None => {
                return Err(LineageError::SubtreeTooLarge);
            },
        };
        proof {
            lemma_votes_length(*a, row as int);
            assert(vote_views(found.votes@).len() == found.votes@.len());
        }
        let hash = votes_to_simhash(&found.votes);
        shapes.digests.set(row, found.digest);
        shapes.simhashes.set(row, hash);
        shapes.sizes.set(row, found.size);
        votes.set(row, found.votes);
        i = row;
    }
    proof {
        assert forall|k: int| 0 <= k < a.nodes@.len() implies #[trigger] subtree_size(*a, k)
            <= u32::MAX by {
            assert(shapes.sizes@[k] == subtree_size(*a, k));
        }
    }
    Ok(shapes)
}

} // verus!
