//! How declarations are compared, and what becomes of the pairs.

use vstd::prelude::*;

use super::candidates::CandidateMatch;
use super::declarations::{DeclarationKind, DeclarationModel};
use super::fingerprint::{FingerprintModel, RarityModel, StringContext};
use super::matching::{ResultModel, Sides};
use super::similarity::Evidence;

use super::{candidates, fingerprint, hashes, matching, similarity};
use crate::{order, sets};

verus! {

/// Whether two kinds are a function and a variable.
pub open spec fn are_function_and_variable(a: DeclarationKind, b: DeclarationKind) -> bool {
    ||| a == DeclarationKind::Function && b == DeclarationKind::Variable
    ||| a == DeclarationKind::Variable && b == DeclarationKind::Function
}

/// The similarity of two declarations is the share of structural hashes that
/// both have among those that either has, less a tenth where one is a function
/// and the other a variable, and less three tenths where their kinds differ
/// otherwise. Where one has less than three tenths of the hashes of the other,
/// it is two tenths. Imports and exports, and what has no structure, go by
/// their signatures.
pub proof fn law_similarity_is_the_share_of_common_structure(
    a: DeclarationModel,
    b: DeclarationModel,
)
    requires
        sets::is_ascending(a.structural_hashes),
        sets::is_ascending(b.structural_hashes),
        a.structural_hashes.len() <= usize::MAX,
        b.structural_hashes.len() <= usize::MAX,
    ensures
        ({
            let share = similarity::similarity_of(a, b).share_spec();
            let left = a.structural_hashes.to_set();
            let right = b.structural_hashes.to_set();
            let n = a.structural_hashes.len();
            let m = b.structural_hashes.len();
            let of_modules = a.kind == DeclarationKind::Import || a.kind
                == DeclarationKind::Export || b.kind == DeclarationKind::Import || b.kind
                == DeclarationKind::Export;
            let is_uneven = n * 10 < m * 3 || m * 10 < n * 3;
            let kept = if a.kind == b.kind {
                10int
            } else if are_function_and_variable(a.kind, b.kind) {
                9
            } else {
                7
            };
            &&& of_modules ==> share.factor == 10 && share.all == 10 && share.common == if a.signature
                == b.signature {
                10int
            } else {
                3
            }
            &&& !of_modules && n == 0 && m == 0 ==> share.factor == kept && share.all == 10
                && share.common == if a.signature == b.signature {
                10int
            } else {
                5
            }
            &&& !of_modules && is_uneven ==> share.common == 2 && share.all == 10 && share.factor
                == 10
            &&& !of_modules && !is_uneven && n + m > 0 ==> {
                &&& share.common == left.intersect(right).len()
                &&& share.all == n + m - left.intersect(right).len()
                &&& share.factor == kept
            }
        }),
{
    let n = a.structural_hashes.len() as int;
    similarity::lemma_shared_is_intersection(a.structural_hashes, b.structural_hashes, n);
    assert(a.structural_hashes.take(n) =~= a.structural_hashes);
    similarity::law_similarity_is_a_share(a, b);
    similarity::lemma_shared_fits(a.structural_hashes, b.structural_hashes);
}

/// Whether a number is how many of the first lanes of two signatures agree.
pub open spec fn agreeing_lanes(a: Seq<u64>, b: Seq<u64>) -> Set<int> {
    Set::new(|lane: int| 0 <= lane < 128 && a[lane] == b[lane])
}

proof fn lemma_agreeing(a: Seq<u64>, b: Seq<u64>, count: int)
    requires
        0 <= count,
    ensures
        ({
            let lanes = Set::new(|lane: int| 0 <= lane < count && a[lane] == b[lane]);
            lanes.finite() && lanes.len() == candidates::agreeing_upto(a, b, count)
        }),
    decreases count,
{
    broadcast use vstd::set::group_set_axioms;

    let lanes = Set::new(|lane: int| 0 <= lane < count && a[lane] == b[lane]);
    if count == 0 {
        assert(lanes =~= Set::empty());
    } else {
        lemma_agreeing(a, b, count - 1);
        let fewer = Set::new(|lane: int| 0 <= lane < count - 1 && a[lane] == b[lane]);
        if a[count - 1] == b[count - 1] {
            assert(lanes =~= fewer.insert(count - 1));
        } else {
            assert(lanes =~= fewer);
        }
    }
}

/// Whether two declarations are worth comparing: their kinds are equal or a
/// function and a variable, and they have the same name, or else about the
/// same size and signatures of which three lanes in ten agree.
pub open spec fn is_worth_comparing(a: DeclarationModel, b: DeclarationModel) -> bool {
    &&& a.kind == b.kind || are_function_and_variable(a.kind, b.kind)
    &&& a.name == b.name || {
        &&& b.size >= 1
        &&& b.size >= a.size / 2
        &&& b.size <= a.size + a.size / 2
        &&& 10 * agreeing_lanes(a.minhash_signature, b.minhash_signature).len() >= 384
    }
}

proof fn lemma_is_near(a: DeclarationModel, b: DeclarationModel)
    requires
        a.size >= 0,
        a.name != b.name,
    ensures
        candidates::is_near(a, b) == is_worth_comparing(a, b),
{
    lemma_agreeing(a.minhash_signature, b.minhash_signature, 128);
    assert(agreeing_lanes(a.minhash_signature, b.minhash_signature) =~= Set::new(
        |lane: int| 0 <= lane < 128 && a.minhash_signature[lane] == b.minhash_signature[lane],
    ));
}

proof fn lemma_rows_named(list: Seq<DeclarationModel>, name: Seq<char>, count: int)
    requires
        0 <= count <= list.len(),
    ensures
        ({
            let rows = candidates::rows_named(list, name, count);
            &&& forall|k: int|
                0 <= k < rows.len() ==> 0 <= #[trigger] rows[k] < count && list[rows[k]].name
                    == name
            &&& forall|i: int|
                0 <= i < count && (#[trigger] list[i]).name == name ==> rows.contains(i)
        }),
    decreases count,
{
    if count > 0 {
        lemma_rows_named(list, name, count - 1);
        let shorter = candidates::rows_named(list, name, count - 1);
        let longer = candidates::rows_named(list, name, count);
        assert forall|i: int| 0 <= i < count && (#[trigger] list[i]).name == name implies
            longer.contains(i) by {
            if i == count - 1 {
                assert(longer[longer.len() - 1] == i);
            } else {
                let k = choose|k: int| 0 <= k < shorter.len() && shorter[k] == i;
                assert(longer[k] == i);
            }
        }
    }
}

proof fn lemma_named(
    d: DeclarationModel,
    i1: int,
    list: Seq<DeclarationModel>,
    rows: Seq<int>,
    count: int,
    c: CandidateMatch,
)
    requires
        0 <= count <= rows.len(),
    ensures
        candidates::named_upto(d, i1, list, rows, count).contains(c) <==> exists|k: int|
            0 <= k < count && c == candidates::candidate(i1, #[trigger] rows[k], true)
                && candidates::are_compatible(d.kind, list[rows[k]].kind),
    decreases count,
{
    if count > 0 {
        lemma_named(d, i1, list, rows, count - 1, c);
        lemma_pushed(
            candidates::named_upto(d, i1, list, rows, count - 1),
            candidates::candidate(i1, rows[count - 1], true),
            c,
        );
    }
}

proof fn lemma_pushed(list: Seq<CandidateMatch>, last: CandidateMatch, c: CandidateMatch)
    ensures
        list.push(last).contains(c) <==> list.contains(c) || c == last,
{
    let longer = list.push(last);
    assert(longer[list.len() as int] == last);
    if list.contains(c) {
        let k = choose|k: int| 0 <= k < list.len() && list[k] == c;
        assert(longer[k] == c);
    }
    if longer.contains(c) && c != last {
        let k = choose|k: int| 0 <= k < longer.len() && longer[k] == c;
        assert(list[k] == c);
    }
}

proof fn lemma_near(
    d: DeclarationModel,
    i1: int,
    list: Seq<DeclarationModel>,
    count: int,
    c: CandidateMatch,
)
    requires
        0 <= count <= list.len(),
    ensures
        candidates::near_upto(d, i1, list, count).contains(c) <==> exists|k: int|
            0 <= k < count && c == candidates::candidate(
                i1,
                #[trigger] order::row_at(candidates::size_keys(list), k),
                false,
            ) && candidates::is_near(d, list[order::row_at(candidates::size_keys(list), k)]),
    decreases count,
{
    if count > 0 {
        lemma_near(d, i1, list, count - 1, c);
        let i2 = order::row_at(candidates::size_keys(list), count - 1);
        lemma_pushed(
            candidates::near_upto(d, i1, list, count - 1),
            candidates::candidate(i1, i2, false),
            c,
        );
    }
}

proof fn lemma_of_one(
    d: DeclarationModel,
    i1: int,
    list: Seq<DeclarationModel>,
    c: CandidateMatch,
)
    requires
        d.size >= 0,
        0 <= i1 <= u32::MAX,
        list.len() <= 0x1_0000_0000,
    ensures
        candidates::candidates_of(d, i1, list).contains(c) <==> c.i1 == i1 && c.i2 < list.len()
            && is_worth_comparing(d, list[c.i2 as int]) && (c.name_match <==> d.name
            == list[c.i2 as int].name),
{
    let n = list.len() as int;
    let keys = candidates::size_keys(list);
    let rows = candidates::rows_named(list, d.name, n);
    let first = candidates::named_upto(d, i1, list, rows, rows.len() as int);
    let second = candidates::near_upto(d, i1, list, n);
    lemma_rows_named(list, d.name, n);
    lemma_named(d, i1, list, rows, rows.len() as int, c);
    lemma_near(d, i1, list, n, c);
    order::lemma_rank_is_bijective(keys);
    assert(keys.len() == n);
    assert((first + second).contains(c) <==> first.contains(c) || second.contains(c)) by {
        let both = first + second;
        if first.contains(c) {
            let k = choose|k: int| 0 <= k < first.len() && first[k] == c;
            assert(both[k] == c);
        }
        if second.contains(c) {
            let k = choose|k: int| 0 <= k < second.len() && second[k] == c;
            assert(both[k + first.len()] == c);
        }
        if both.contains(c) {
            let k = choose|k: int| 0 <= k < both.len() && both[k] == c;
            if k < first.len() {
                assert(first[k] == c);
            } else {
                assert(second[k - first.len()] == c);
            }
        }
    }
    let wanted = c.i1 == i1 && c.i2 < n && is_worth_comparing(d, list[c.i2 as int]) && (
    c.name_match <==> d.name == list[c.i2 as int].name);
    if wanted {
        let i2 = c.i2 as int;
        if c.name_match {
            assert(list[i2].name == d.name);
            let k = choose|k: int| 0 <= k < rows.len() && rows[k] == i2;
            assert(c == candidates::candidate(i1, rows[k], true));
        } else {
            lemma_is_near(d, list[i2]);
            let k = order::rank(keys, i2);
            assert(0 <= k < n && order::row_at(keys, k) == i2);
            assert(c == candidates::candidate(i1, order::row_at(keys, k), false));
        }
    }
    if first.contains(c) {
        let k = choose|k: int|
            0 <= k < rows.len() && c == candidates::candidate(i1, #[trigger] rows[k], true)
                && candidates::are_compatible(d.kind, list[rows[k]].kind);
        assert(c.i2 == rows[k]);
    }
    if second.contains(c) {
        let k = choose|k: int|
            0 <= k < n && c == candidates::candidate(
                i1,
                #[trigger] order::row_at(keys, k),
                false,
            ) && candidates::is_near(d, list[order::row_at(keys, k)]);
        let i2 = order::row_at(keys, k);
        assert(c.i2 == i2);
        lemma_is_near(d, list[i2]);
    }
}

proof fn lemma_candidates(
    list1: Seq<DeclarationModel>,
    list2: Seq<DeclarationModel>,
    count: int,
    c: CandidateMatch,
)
    requires
        0 <= count <= list1.len(),
        list1.len() <= 0x1_0000_0000,
        list2.len() <= 0x1_0000_0000,
        forall|k: int| 0 <= k < list1.len() ==> (#[trigger] list1[k]).size >= 0,
    ensures
        candidates::candidates_upto(list1, list2, count).contains(c) <==> c.i1 < count && c.i2
            < list2.len() && is_worth_comparing(list1[c.i1 as int], list2[c.i2 as int]) && (
        c.name_match <==> list1[c.i1 as int].name == list2[c.i2 as int].name),
    decreases count,
{
    if count > 0 {
        let before = candidates::candidates_upto(list1, list2, count - 1);
        let more = candidates::candidates_of(list1[count - 1], count - 1, list2);
        let both = before + more;
        lemma_candidates(list1, list2, count - 1, c);
        lemma_of_one(list1[count - 1], count - 1, list2, c);
        if before.contains(c) {
            let k = choose|k: int| 0 <= k < before.len() && before[k] == c;
            assert(both[k] == c);
        }
        if more.contains(c) {
            let k = choose|k: int| 0 <= k < more.len() && more[k] == c;
            assert(both[k + before.len()] == c);
        }
        if both.contains(c) {
            let k = choose|k: int| 0 <= k < both.len() && both[k] == c;
            if k < before.len() {
                assert(before[k] == c);
            } else {
                assert(more[k - before.len()] == c);
            }
        }
    }
}

/// The candidates for a match are exactly the pairs of declarations that are
/// worth comparing, each marked by whether their names are equal.
pub proof fn law_candidates_are_what_is_worth_comparing(
    list1: Seq<DeclarationModel>,
    list2: Seq<DeclarationModel>,
    c: CandidateMatch,
)
    requires
        list1.len() <= 0x1_0000_0000,
        list2.len() <= 0x1_0000_0000,
        forall|k: int| 0 <= k < list1.len() ==> (#[trigger] list1[k]).size >= 0,
    ensures
        candidates::candidates_upto(list1, list2, list1.len() as int).contains(c) <==> c.i1
            < list1.len() && c.i2 < list2.len() && is_worth_comparing(
            list1[c.i1 as int],
            list2[c.i2 as int],
        ) && (c.name_match <==> list1[c.i1 as int].name == list2[c.i2 as int].name),
{
    lemma_candidates(list1, list2, list1.len() as int, c);
}

proof fn lemma_smallest(list: Seq<u64>, seed: int, count: int)
    requires
        0 <= count <= list.len(),
    ensures
        ({
            let least = hashes::smallest_upto(list, seed, count);
            &&& forall|k: int| 0 <= k < count ==> least <= hashes::seeded(#[trigger] list[k], seed)
            &&& least == u64::MAX || exists|k: int|
                0 <= k < count && least == hashes::seeded(#[trigger] list[k], seed)
        }),
    decreases count,
{
    if count > 0 {
        lemma_smallest(list, seed, count - 1);
        let least = hashes::smallest_upto(list, seed, count);
        if least != u64::MAX {
            if least == hashes::smallest_upto(list, seed, count - 1) {
                let k = choose|k: int|
                    0 <= k < count - 1 && least == hashes::seeded(#[trigger] list[k], seed);
                assert(least == hashes::seeded(list[k], seed));
            } else {
                assert(least == hashes::seeded(list[count - 1], seed));
            }
        }
    }
}

/// Each lane of a signature is the least hash of the set under the seed of the
/// lane. So sets that hold the same numbers have the same signature.
pub proof fn law_signatures_are_the_least_hashes(list: Seq<u64>, other: Seq<u64>, lane: int)
    requires
        0 <= lane < 128,
    ensures
        hashes::minhash_of(list).len() == 128,
        forall|k: int|
            0 <= k < list.len() ==> hashes::minhash_of(list)[lane] <= hashes::seeded(
                #[trigger] list[k],
                lane,
            ),
        hashes::minhash_of(list)[lane] == u64::MAX || exists|k: int|
            0 <= k < list.len() && hashes::minhash_of(list)[lane] == hashes::seeded(
                #[trigger] list[k],
                lane,
            ),
        (forall|x: u64| #[trigger] list.contains(x) <==> other.contains(x))
            ==> hashes::minhash_of(list)[lane] == hashes::minhash_of(other)[lane],
{
    let n = list.len() as int;
    let m = other.len() as int;
    lemma_smallest(list, lane, n);
    lemma_smallest(other, lane, m);
    let a = hashes::smallest_upto(list, lane, n);
    let b = hashes::smallest_upto(other, lane, m);
    if forall|x: u64| #[trigger] list.contains(x) <==> other.contains(x) {
        if a != u64::MAX {
            let k = choose|k: int| 0 <= k < n && a == hashes::seeded(#[trigger] list[k], lane);
            assert(list.contains(list[k]));
            let l = choose|l: int| 0 <= l < m && other[l] == list[k];
            assert(b <= hashes::seeded(other[l], lane));
        }
        if b != u64::MAX {
            let k = choose|k: int| 0 <= k < m && b == hashes::seeded(#[trigger] other[k], lane);
            assert(other.contains(other[k]));
            assert(list.contains(other[k]));
            let l = choose|l: int| 0 <= l < n && list[l] == other[k];
            assert(a <= hashes::seeded(list[l], lane));
        }
    }
}

/// More evidence never asks for more similarity, nor does more size where
/// there is no evidence. Small declarations without evidence need the most,
/// and even much evidence does not do without.
pub proof fn law_more_evidence_asks_for_less(evidence: int, more: int, size: int, larger: int)
    requires
        0 <= evidence <= more,
        0 <= size <= larger,
    ensures
        similarity::required_similarity_of(evidence, size) <= 70,
        similarity::required_similarity_of(more, size) >= 35,
        similarity::required_similarity_of(0, larger) <= similarity::required_similarity_of(
            0,
            size,
        ),
        0 < evidence ==> similarity::required_similarity_of(more, size)
            <= similarity::required_similarity_of(evidence, size),
        0 < evidence < more && evidence < 3 ==> similarity::required_similarity_of(more, size)
            < similarity::required_similarity_of(evidence, size),
        0 < evidence && size < 10 ==> similarity::required_similarity_of(evidence, size)
            < similarity::required_similarity_of(0, size),
        size < 10 <= larger ==> similarity::required_similarity_of(0, larger)
            < similarity::required_similarity_of(0, size),
        size < 50 <= larger ==> similarity::required_similarity_of(0, larger)
            < similarity::required_similarity_of(0, size),
{
}

/// What occurs more often tells less, and what does not occur tells nothing.
pub proof fn law_what_is_common_tells_less(count: usize, more: usize)
    requires
        0 < count <= more,
    ensures
        fingerprint::string_rarity(0) == 0,
        fingerprint::constant_rarity(0) == 0,
        fingerprint::api_rarity(0) == 0,
        0 < fingerprint::string_rarity(more) <= fingerprint::string_rarity(count) <= 10,
        0 < fingerprint::constant_rarity(more) <= fingerprint::constant_rarity(count)
            <= fingerprint::string_rarity(count),
        0 < fingerprint::api_rarity(more) <= fingerprint::api_rarity(count) <= 8,
        count == 1 <==> fingerprint::string_rarity(count) == 10,
        count == 1 <==> fingerprint::constant_rarity(count) == 10,
        count <= 3 <==> fingerprint::api_rarity(count) == 8,
        count > 5 <==> fingerprint::string_rarity(count) == 1,
        count > 5 <==> fingerprint::constant_rarity(count) == 1,
        count > 10 <==> fingerprint::api_rarity(count) == 2,
{
}

/// The values of the first `count` strings of a function that another one has
/// as well.
pub open spec fn shared_values(
    a: FingerprintModel,
    b: FingerprintModel,
    count: int,
) -> Set<Seq<char>> {
    Set::new(
        |value: Seq<char>|
            (exists|k: int| 0 <= k < count && (#[trigger] a.strings[k]).value == value) && (exists|
                k: int,
            |
                0 <= k < b.strings.len() && (#[trigger] b.strings[k]).value == value),
    )
}

/// Whether evidence is that of a string.
pub open spec fn is_text_of(
    e: Evidence,
    a: FingerprintModel,
    scorer: RarityModel,
    k: int,
) -> bool {
    e == (Evidence::Text {
        context: a.strings[k].context,
        rarity: fingerprint::string_rarity(
            fingerprint::count_of(scorer.strings, a.strings[k].value),
        ),
    })
}

/// Whether evidence is that of one of the first `count` strings that both
/// functions have.
pub open spec fn is_shared_text(
    e: Evidence,
    a: FingerprintModel,
    b: FingerprintModel,
    scorer: RarityModel,
    count: int,
) -> bool {
    exists|k: int|
        0 <= k < count && shared_values(a, b, count).contains(a.strings[k].value)
            && #[trigger] is_text_of(e, a, scorer, k)
}

/// Two functions have one piece of evidence for each string value that both
/// have, however often it occurs, by the context in which the first has it and
/// by how rare it is.
pub proof fn law_shared_strings_count_once(
    a: FingerprintModel,
    b: FingerprintModel,
    scorer: RarityModel,
    count: int,
)
    requires
        0 <= count <= a.strings.len(),
    ensures
        shared_values(a, b, count).finite(),
        similarity::text_evidence(a, b, scorer, count).len() == shared_values(a, b, count).len(),
        forall|j: int|
            0 <= j < similarity::text_evidence(a, b, scorer, count).len() ==> is_shared_text(
                #[trigger] similarity::text_evidence(a, b, scorer, count)[j],
                a,
                b,
                scorer,
                count,
            ),
    decreases count,
{
    broadcast use vstd::set::group_set_axioms;

    let values = shared_values(a, b, count);
    if count == 0 {
        assert(values =~= Set::empty());
    } else {
        law_shared_strings_count_once(a, b, scorer, count - 1);
        let fewer = shared_values(a, b, count - 1);
        let s = a.strings[count - 1];
        let shorter = similarity::text_evidence(a, b, scorer, count - 1);
        let longer = similarity::text_evidence(a, b, scorer, count);
        let is_shared = similarity::has_string(b.strings, s.value, b.strings.len() as int);
        let is_new = !similarity::has_string(a.strings, s.value, count - 1);
        assert(fewer.contains(s.value) == (is_shared && !is_new));
        if is_shared && is_new {
            assert(values =~= fewer.insert(s.value));
        } else {
            assert(values =~= fewer);
        }
        assert forall|j: int| 0 <= j < longer.len() implies is_shared_text(
            #[trigger] longer[j],
            a,
            b,
            scorer,
            count,
        ) by {
            if j < shorter.len() {
                assert(longer[j] == shorter[j]);
                let k = choose|k: int|
                    0 <= k < count - 1 && fewer.contains(a.strings[k].value)
                        && #[trigger] is_text_of(shorter[j], a, scorer, k);
                assert(values.contains(a.strings[k].value));
                assert(is_text_of(longer[j], a, scorer, k));
            } else {
                assert(is_text_of(longer[j], a, scorer, count - 1));
                assert(values.contains(a.strings[count - 1].value));
            }
        }
    }
}

/// Error messages tell the most, then file paths, then commands and endpoints,
/// then configuration keys, and other strings the least. A constant tells less
/// than a key and a call less than a constant, but an equal first argument
/// adds half of what the call tells.
pub proof fn law_evidence_is_ranked(context: StringContext, rarity: u32, same_argument: bool)
    ensures
        ({
            let text = Evidence::Text { context, rarity }.weighed_spec();
            let constant = Evidence::Constant { rarity }.weighed_spec();
            let call = Evidence::Call { rarity, same_argument }.weighed_spec();
            let of = |c: StringContext| Evidence::Text { context: c, rarity }.weighed_spec().weight;
            &&& text.rarity == rarity && constant.rarity == rarity && call.rarity == rarity
            &&& text.bonus == 0 && constant.bonus == 0
            &&& same_argument ==> 2 * call.bonus == call.weight
            &&& !same_argument ==> call.bonus == 0
            &&& 0 < call.weight < of(StringContext::Regular) < constant.weight < of(
                StringContext::ConfigKey,
            ) < of(StringContext::CommandName)
            &&& of(StringContext::CommandName) == of(StringContext::ApiEndpoint)
            &&& of(StringContext::ApiEndpoint) < of(StringContext::FilePath) < of(
                StringContext::ErrorMessage,
            )
            &&& of(StringContext::ErrorMessage) == 2 * call.weight
        }),
{
}

/// Whether pair `k` renames one name to another.
pub open spec fn renames(
    s: Sides,
    pairs: Seq<ResultModel>,
    k: int,
    later: Seq<char>,
    earlier: Seq<char>,
) -> bool {
    &&& s.list1[pairs[k].i1].name == earlier
    &&& s.list2[pairs[k].i2].name == later
    &&& earlier != later
}

proof fn lemma_rename_place(list: Seq<(Seq<char>, Seq<char>)>, name: Seq<char>, k: int)
    requires
        0 <= k <= list.len(),
        forall|j: int| 0 <= j < k ==> (#[trigger] list[j]).0 != name,
    ensures
        ({
            let p = matching::rename_place(list, name, k);
            &&& 0 <= p <= list.len()
            &&& p < list.len() ==> list[p].0 == name
            &&& forall|j: int| 0 <= j < p ==> (#[trigger] list[j]).0 != name
        }),
    decreases list.len() - k,
{
    if k < list.len() && list[k].0 != name {
        lemma_rename_place(list, name, k + 1);
    }
}

/// Whether no later pair among the first `count` renames to a name.
pub open spec fn is_last(
    s: Sides,
    pairs: Seq<ResultModel>,
    later: Seq<char>,
    k: int,
    count: int,
) -> bool {
    forall|m: int, earlier: Seq<char>|
        k < m < count ==> !#[trigger] renames(s, pairs, m, later, earlier)
}

/// Whether an entry is the last rename to its name among the first `count`
/// pairs.
pub open spec fn is_last_rename(
    s: Sides,
    pairs: Seq<ResultModel>,
    entry: (Seq<char>, Seq<char>),
    count: int,
) -> bool {
    exists|k: int|
        0 <= k < count && #[trigger] renames(s, pairs, k, entry.0, entry.1) && is_last(
            s,
            pairs,
            entry.0,
            k,
            count,
        )
}

/// Whether a list has an entry for a new name.
pub open spec fn has_entry(list: Seq<(Seq<char>, Seq<char>)>, later: Seq<char>) -> bool {
    exists|i: int| 0 <= i < list.len() && (#[trigger] list[i]).0 == later
}

/// Whether no new name has two entries.
pub open spec fn has_no_repeats(list: Seq<(Seq<char>, Seq<char>)>) -> bool {
    forall|i: int, j: int|
        #![trigger list[i], list[j]]
        0 <= i < j < list.len() ==> list[i].0 != list[j].0
}

proof fn lemma_last_stays(
    s: Sides,
    pairs: Seq<ResultModel>,
    entry: (Seq<char>, Seq<char>),
    count: int,
)
    requires
        0 < count <= pairs.len(),
        is_last_rename(s, pairs, entry, count - 1),
        s.list2[pairs[count - 1].i2].name != entry.0 || s.list1[pairs[count - 1].i1].name
            == s.list2[pairs[count - 1].i2].name,
    ensures
        is_last_rename(s, pairs, entry, count),
{
    let k = choose|k: int|
        0 <= k < count - 1 && #[trigger] renames(s, pairs, k, entry.0, entry.1) && is_last(
            s,
            pairs,
            entry.0,
            k,
            count - 1,
        );
    assert forall|m: int, earlier: Seq<char>| k < m < count implies !#[trigger] renames(
        s,
        pairs,
        m,
        entry.0,
        earlier,
    ) by {
        if m < count - 1 {
            assert(is_last(s, pairs, entry.0, k, count - 1));
        }
    }
    assert(is_last(s, pairs, entry.0, k, count));
}

proof fn lemma_with_rename(
    list: Seq<(Seq<char>, Seq<char>)>,
    later: Seq<char>,
    earlier: Seq<char>,
)
    requires
        has_no_repeats(list),
    ensures
        ({
            let new = matching::with_rename(list, later, earlier);
            &&& has_no_repeats(new)
            &&& has_entry(new, later)
            &&& forall|name: Seq<char>| #[trigger]
                has_entry(list, name) ==> has_entry(new, name)
            &&& forall|i: int|
                0 <= i < new.len() ==> #[trigger] new[i] == (later, earlier) || (new[i].0 != later
                    && list.contains(new[i]))
        }),
{
    lemma_rename_place(list, later, 0);
    let p = matching::rename_place(list, later, 0);
    let new = matching::with_rename(list, later, earlier);
    assert(new[p] == (later, earlier));
    assert forall|name: Seq<char>| #[trigger] has_entry(list, name) implies has_entry(
        new,
        name,
    ) by {
        let i = choose|i: int| 0 <= i < list.len() && (#[trigger] list[i]).0 == name;
        assert(new[i].0 == list[i].0);
    }
    assert forall|i: int| 0 <= i < new.len() implies #[trigger] new[i] == (later, earlier) || (
    new[i].0 != later && list.contains(new[i])) by {
        if i != p {
            assert(new[i] == list[i]);
            if p < list.len() {
                if i < p {
                    assert(list[i].0 != list[p].0);
                } else {
                    assert(list[p].0 != list[i].0);
                }
            }
        }
    }
    assert forall|i: int, j: int|
        #![trigger new[i], new[j]]
        0 <= i < j < new.len() implies new[i].0 != new[j].0 by {
        if i != p && j != p {
            assert(new[i] == list[i] && new[j] == list[j]);
        }
    }
}

/// The renames of matched pairs name each new name once, and tell for it the
/// old name of the last pair that renames to it. Pairs that keep their name
/// rename nothing.
pub proof fn law_renames_are_those_of_the_pairs(s: Sides, pairs: Seq<ResultModel>, count: int)
    requires
        0 <= count <= pairs.len(),
    ensures
        ({
            let list = matching::renames_upto(s, pairs, count);
            &&& has_no_repeats(list)
            &&& forall|i: int|
                0 <= i < list.len() ==> is_last_rename(s, pairs, #[trigger] list[i], count)
            &&& forall|k: int, later: Seq<char>, earlier: Seq<char>|
                0 <= k < count && #[trigger] renames(s, pairs, k, later, earlier) ==> has_entry(
                    list,
                    later,
                )
        }),
    decreases count,
{
    if count > 0 {
        law_renames_are_those_of_the_pairs(s, pairs, count - 1);
        let before = matching::renames_upto(s, pairs, count - 1);
        let list = matching::renames_upto(s, pairs, count);
        let last = count - 1;
        let earlier = s.list1[pairs[last].i1].name;
        let later = s.list2[pairs[last].i2].name;
        lemma_with_rename(before, later, earlier);
        assert forall|i: int| 0 <= i < list.len() implies is_last_rename(
            s,
            pairs,
            #[trigger] list[i],
            count,
        ) by {
            if earlier != later && list[i] == (later, earlier) {
                let entry = list[i];
                assert(renames(s, pairs, last, entry.0, entry.1));
                assert(is_last(s, pairs, entry.0, last, count));
            } else {
                assert(before.contains(list[i]));
                let m = choose|m: int| 0 <= m < before.len() && before[m] == list[i];
                assert(is_last_rename(s, pairs, before[m], count - 1));
                lemma_last_stays(s, pairs, list[i], count);
            }
        }
        assert forall|k: int, l: Seq<char>, e: Seq<char>|
            0 <= k < count && #[trigger] renames(s, pairs, k, l, e) implies has_entry(
            list,
            l,
        ) by {
            if k < last {
                assert(has_entry(before, l));
            }
        }
    }
}

} // verus!
