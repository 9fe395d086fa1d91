//! Pairs of declarations that may match.

use vstd::prelude::*;
use vstd::string::*;

use super::declarations::{Declaration, DeclarationKind};
use crate::order::stable_order;
use crate::postings::TextPostings;
use crate::text::same_text;

use super::declarations::DeclarationModel;
use super::{declarations, hashes};
use crate::{order, syntax};

verus! {

/// A pair of declarations that may match.
#[derive(Debug, Clone, Copy, PartialEq, Eq, Structural)]
pub struct CandidateMatch {
    pub i1: u32,
    pub i2: u32,
    /// Whether the names are equal.
    pub name_match: bool,
}

/// Whether declarations of two kinds may match.
pub open spec fn are_compatible(kind1: DeclarationKind, kind2: DeclarationKind) -> bool {
    kind1 == kind2 || (kind1 is Function && kind2 is Variable) || (kind1 is Variable
        && kind2 is Function)
}

/// The smallest size that may match a size.
pub open spec fn smallest_size(size: int) -> int {
    if size / 2 >= 1 {
        size / 2
    } else {
        1
    }
}

/// The largest size that may match a size.
pub open spec fn largest_size(size: int) -> int {
    size + size / 2
}

/// How many of the first `count` lanes of two signatures agree.
pub open spec fn agreeing_upto(a: Seq<u64>, b: Seq<u64>, count: int) -> nat
    decreases count,
{
    if count <= 0 {
        0
    } else {
        agreeing_upto(a, b, count - 1) + if a[count - 1] == b[count - 1] {
            1nat
        } else {
            0
        }
    }
}

/// Whether three lanes of ten agree.
pub open spec fn look_similar(a: Seq<u64>, b: Seq<u64>) -> bool {
    agreeing_upto(a, b, hashes::MINHASH_LANES as int) * 10 >= 3 * hashes::MINHASH_LANES
}

/// Whether a declaration of another name may match: its size is near, its kind
/// fits, and its signature looks similar.
pub open spec fn is_near(d: DeclarationModel, other: DeclarationModel) -> bool {
    &&& smallest_size(d.size) <= other.size <= largest_size(d.size)
    &&& d.name != other.name
    &&& are_compatible(d.kind, other.kind)
    &&& look_similar(d.minhash_signature, other.minhash_signature)
}

/// The sizes of declarations.
pub open spec fn size_keys(list: Seq<DeclarationModel>) -> Seq<u64> {
    list.map_values(|d: DeclarationModel| d.size as u64)
}

/// A candidate.
pub open spec fn candidate(i1: int, i2: int, name_match: bool) -> CandidateMatch {
    CandidateMatch { i1: i1 as u32, i2: i2 as u32, name_match }
}

/// The rows of the first `count` declarations with a name.
pub open spec fn rows_named(list: Seq<DeclarationModel>, name: Seq<char>, count: int) -> Seq<int>
    decreases count,
{
    if count <= 0 {
        Seq::empty()
    } else if list[count - 1].name == name {
        rows_named(list, name, count - 1).push(count - 1)
    } else {
        rows_named(list, name, count - 1)
    }
}

/// The candidates among the first `count` rows with the same name.
pub open spec fn named_upto(
    d: DeclarationModel,
    i1: int,
    list: Seq<DeclarationModel>,
    rows: Seq<int>,
    count: int,
) -> Seq<CandidateMatch>
    decreases count,
{
    if count <= 0 {
        Seq::empty()
    } else {
        let ahead = named_upto(d, i1, list, rows, count - 1);
        if are_compatible(d.kind, list[rows[count - 1]].kind) {
            ahead.push(candidate(i1, rows[count - 1], true))
        } else {
            ahead
        }
    }
}

/// The candidates of another name among the `count` smallest declarations, in
/// the order of their size.
pub open spec fn near_upto(
    d: DeclarationModel,
    i1: int,
    list: Seq<DeclarationModel>,
    count: int,
) -> Seq<CandidateMatch>
    decreases count,
{
    if count <= 0 {
        Seq::empty()
    } else {
        let ahead = near_upto(d, i1, list, count - 1);
        let i2 = order::row_at(size_keys(list), count - 1);
        if is_near(d, list[i2]) {
            ahead.push(candidate(i1, i2, false))
        } else {
            ahead
        }
    }
}

/// The candidates of a declaration: first those of its name, then those that
/// are near.
pub open spec fn candidates_of(d: DeclarationModel, i1: int, list: Seq<DeclarationModel>) -> Seq<
    CandidateMatch,
> {
    let rows = rows_named(list, d.name, list.len() as int);
    named_upto(d, i1, list, rows, rows.len() as int) + near_upto(d, i1, list, list.len() as int)
}

/// The candidates of the first `count` declarations.
pub open spec fn candidates_upto(
    list1: Seq<DeclarationModel>,
    list2: Seq<DeclarationModel>,
    count: int,
) -> Seq<CandidateMatch>
    decreases count,
{
    if count <= 0 {
        Seq::empty()
    } else {
        candidates_upto(list1, list2, count - 1) + candidates_of(
            list1[count - 1],
            count - 1,
            list2,
        )
    }
}

/// Whether declarations of two kinds may match.
pub fn kinds_are_compatible(kind1: DeclarationKind, kind2: DeclarationKind) -> (r: bool)
    ensures
        r == are_compatible(kind1, kind2),
{
    kind1 == kind2 || (kind1 == DeclarationKind::Function && kind2 == DeclarationKind::Variable)
        || (kind1 == DeclarationKind::Variable && kind2 == DeclarationKind::Function)
}

fn signatures_look_similar(a: &Declaration, b: &Declaration) -> (r: bool)
    ensures
        r == look_similar(a@.minhash_signature, b@.minhash_signature),
{
    let mut count: usize = 0;
    let mut i: usize = 0;
    while i < hashes::MINHASH_LANES
        invariant
            i <= hashes::MINHASH_LANES,
            count <= i,
            count == agreeing_upto(a.minhash_signature@, b.minhash_signature@, i as int),
        decreases hashes::MINHASH_LANES - i,
    {
        if a.minhash_signature[i] == b.minhash_signature[i] {
            count += 1;
        }
        i += 1;
    }
    count * 10 >= 3 * hashes::MINHASH_LANES
}

/// Declarations by name.
fn index_names(list: &Vec<Declaration>) -> (postings: TextPostings)
    ensures
        postings.is_wf(),
        forall|name: Seq<char>| #[trigger]
            postings.rows(name) == rows_named(
                declarations::declaration_views(list@),
                name,
                list@.len() as int,
            ),
{
    let ghost models = declarations::declaration_views(list@);
    let mut postings = TextPostings::new();
    let mut i: usize = 0;
    while i < list.len()
        invariant
            models == declarations::declaration_views(list@),
            i <= list@.len(),
            postings.is_wf(),
            forall|name: Seq<char>| #[trigger]
                postings.rows(name) == rows_named(models, name, i as int),
        decreases list@.len() - i,
    {
        assert(models[i as int] == list@[i as int]@);
        postings.push(list[i].name.clone(), i);
        i += 1;
    }
    postings
}

proof fn lemma_rows_named(list: Seq<DeclarationModel>, name: Seq<char>, count: int)
    requires
        count <= list.len(),
    ensures
        forall|k: int|
            0 <= k < rows_named(list, name, count).len() ==> 0 <= #[trigger] rows_named(
                list,
                name,
                count,
            )[k] < list.len(),
    decreases count,
{
    if count > 0 {
        lemma_rows_named(list, name, count - 1);
        let ahead = rows_named(list, name, count - 1);
        let all = rows_named(list, name, count);
        assert forall|k: int| 0 <= k < all.len() implies 0 <= #[trigger] all[k] < list.len() by {
            if k < ahead.len() {
                assert(all[k] == ahead[k]);
            }
        }
    }
}

/// Nothing is near among declarations whose sizes are all outside the window.
proof fn lemma_none_near(
    d: DeclarationModel,
    i1: int,
    list: Seq<DeclarationModel>,
    from: int,
    count: int,
)
    requires
        0 <= from <= count,
        forall|j: int|
            from <= j < count ==> {
                let size = list[#[trigger] order::row_at(size_keys(list), j)].size;
                size < smallest_size(d.size) || size > largest_size(d.size)
            },
    ensures
        near_upto(d, i1, list, count) == near_upto(d, i1, list, from),
    decreases count,
{
    if from < count {
        let size = list[order::row_at(size_keys(list), count - 1)].size;
        lemma_none_near(d, i1, list, from, count - 1);
    }
}

/// Whether an order lists declarations by size.
spec fn is_by_size(list: Seq<DeclarationModel>, places: Seq<usize>) -> bool {
    &&& places.len() == list.len()
    &&& forall|j: int|
        0 <= j < places.len() ==> #[trigger] places[j] < list.len() && places[j] == order::row_at(
            size_keys(list),
            j,
        )
    &&& forall|i: int, j: int|
        0 <= i < j < places.len() ==> list[#[trigger] places[i] as int].size <= list[
        #[trigger] places[j] as int].size
}

fn order_by_size(list: &Vec<Declaration>) -> (places: Vec<usize>)
    ensures
        is_by_size(declarations::declaration_views(list@), places@),
{
    let ghost models = declarations::declaration_views(list@);
    let mut keys: Vec<u64> = Vec::new();
    let mut i: usize = 0;
    while i < list.len()
        invariant
            i <= list@.len(),
            keys@.len() == i,
            forall|k: int| 0 <= k < i ==> #[trigger] keys@[k] == list@[k].size,
        decreases list@.len() - i,
    {
        keys.push(list[i].size as u64);
        i += 1;
    }
    let places = stable_order(&keys);
    let length: usize = list.len();
    proof {
        assert(keys@ =~= size_keys(models));
        order::lemma_ranks(keys@, places@);
        assert forall|i: int, j: int| 0 <= i < j < places@.len() implies models[
        #[trigger] places@[i] as int].size <= models[#[trigger] places@[j] as int].size by {
            assert(order::comes_before(keys@, places@[i] as int, places@[j] as int));
        }
    }
    places
}

/// The first place whose declaration is not smaller than a size.
fn window_start(list: &Vec<Declaration>, places: &Vec<usize>, size: usize) -> (start: usize)
    requires
        is_by_size(declarations::declaration_views(list@), places@),
    ensures
        start <= places@.len(),
        forall|j: int|
            0 <= j < start ==> declarations::declaration_views(
                list@,
            )[#[trigger] places@[j] as int].size < size,
        forall|j: int|
            start <= j < places@.len() ==> declarations::declaration_views(
                list@,
            )[#[trigger] places@[j] as int].size >= size,
{
    let ghost models = declarations::declaration_views(list@);
    let mut low: usize = 0;
    let mut high: usize = places.len();
    while low < high
        invariant
            models == declarations::declaration_views(list@),
            is_by_size(models, places@),
            low <= high <= places@.len(),
            forall|j: int| 0 <= j < low ==> models[#[trigger] places@[j] as int].size < size,
            forall|j: int|
                high <= j < places@.len() ==> models[#[trigger] places@[j] as int].size >= size,
        decreases high - low,
    {
        let middle = low + (high - low) / 2;
        let row = places[middle];
        assert(models[row as int] == list@[row as int]@);
        if list[row].size < size {
            low = middle + 1;
        } else {
            high = middle;
        }
    }
    low
}

fn push_near(
    d: &Declaration,
    i1: usize,
    list: &Vec<Declaration>,
    places: &Vec<usize>,
    output: &mut Vec<CandidateMatch>,
)
    requires
        is_by_size(declarations::declaration_views(list@), places@),
        i1 <= u32::MAX,
        list@.len() <= 0x1_0000_0000,
    ensures
        final(output)@ == old(output)@ + near_upto(
            d@,
            i1 as int,
            declarations::declaration_views(list@),
            list@.len() as int,
        ),
{
    let ghost models = declarations::declaration_views(list@);
    let ghost before = output@;
    let half: usize = d.size / 2;
    let smallest: usize = if half >= 1 {
        half
    } else {
        1
    };
    let largest: u128 = d.size as u128 + half as u128;
    let mut j = window_start(list, places, smallest);
    proof {
        assert forall|k: int| 0 <= k < j implies {
            let size = models[#[trigger] order::row_at(size_keys(models), k)].size;
            size < smallest_size(d@.size) || size > largest_size(d@.size)
        } by {
            assert(models[places@[k] as int].size < smallest);
        }
        lemma_none_near(d@, i1 as int, models, 0, j as int);
        assert(output@ =~= before + near_upto(d@, i1 as int, models, j as int));
    }
    while j < places.len()
        invariant
            models == declarations::declaration_views(list@),
            is_by_size(models, places@),
            i1 <= u32::MAX,
            list@.len() <= 0x1_0000_0000,
            before == old(output)@,
            smallest == smallest_size(d@.size),
            largest == largest_size(d@.size),
            j <= places@.len(),
            forall|k: int|
                j <= k < places@.len() ==> models[#[trigger] places@[k] as int].size >= smallest,
            output@ == before + near_upto(d@, i1 as int, models, j as int),
        decreases places@.len() - j,
    {
        let i2 = places[j];
        let other = &list[i2];
        assert(models[i2 as int] == other@);
        if other.size as u128 > largest {
            proof {
                assert forall|k: int| j <= k < models.len() implies {
                    let size = models[#[trigger] order::row_at(size_keys(models), k)].size;
                    size < smallest_size(d@.size) || size > largest_size(d@.size)
                } by {
                    if k > j {
                        assert(models[places@[j as int] as int].size
                            <= models[places@[k] as int].size);
                    }
                    assert(places@[k] == order::row_at(size_keys(models), k));
                }
                lemma_none_near(d@, i1 as int, models, j as int, models.len() as int);
            }
            assert(models.len() == list@.len());
            return;
        }
        let ghost earlier = output@;
        if !same_text(d.name.as_str(), other.name.as_str()) && kinds_are_compatible(
            d.kind,
            other.kind,
        ) && signatures_look_similar(d, other) {
            output.push(CandidateMatch { i1: i1 as u32, i2: i2 as u32, name_match: false });
            assert(is_near(d@, models[order::row_at(size_keys(models), j as int)]));
            assert(output@ =~= before + near_upto(d@, i1 as int, models, j + 1));
        } else {
            assert(!is_near(d@, models[order::row_at(size_keys(models), j as int)]));
        }
        j += 1;
    }
    assert(models.len() == list@.len());
}

/// The pairs of declarations that may match. Declarations of the same name
/// are candidates whatever their size.
pub fn build_and_filter_candidates(
    declarations1: &Vec<Declaration>,
    declarations2: &Vec<Declaration>,
) -> (candidates: Vec<CandidateMatch>)
    requires
        declarations1@.len() <= 0x1_0000_0000,
        declarations2@.len() <= 0x1_0000_0000,
    ensures
        candidates@ == candidates_upto(
            declarations::declaration_views(declarations1@),
            declarations::declaration_views(declarations2@),
            declarations1@.len() as int,
        ),
        forall|k: int|
            0 <= k < candidates@.len() ==> (#[trigger] candidates@[k]).i1 < declarations1@.len()
                && candidates@[k].i2 < declarations2@.len(),
{
    let ghost models1 = declarations::declaration_views(declarations1@);
    let ghost models2 = declarations::declaration_views(declarations2@);
    let postings = index_names(declarations2);
    let places = order_by_size(declarations2);
    let mut candidates: Vec<CandidateMatch> = Vec::new();
    let mut i1: usize = 0;
    while i1 < declarations1.len()
        invariant
            declarations1@.len() <= 0x1_0000_0000,
            declarations2@.len() <= 0x1_0000_0000,
            models1 == declarations::declaration_views(declarations1@),
            models2 == declarations::declaration_views(declarations2@),
            postings.is_wf(),
            forall|name: Seq<char>| #[trigger]
                postings.rows(name) == rows_named(models2, name, declarations2@.len() as int),
            is_by_size(models2, places@),
            i1 <= declarations1@.len(),
            candidates@ == candidates_upto(models1, models2, i1 as int),
        decreases declarations1@.len() - i1,
    {
        let d = &declarations1[i1];
        assert(models1[i1 as int] == d@);
        assert(models2.len() == declarations2@.len());
        let ghost before = candidates@;
        let ghost rows = rows_named(models2, d@.name, models2.len() as int);
        proof {
            lemma_rows_named(models2, d@.name, models2.len() as int);
        }
        match postings.get(d.name.as_str()) {
            Some(named) => {
                assert(syntax::index_views(named@) == rows);
                assert(rows.len() == named@.len());
                let mut k: usize = 0;
                assert(candidates@ =~= before + named_upto(d@, i1 as int, models2, rows, 0));
                while k < named.len()
                    invariant
                        i1 <= u32::MAX,
                        declarations2@.len() <= 0x1_0000_0000,
                        models2 == declarations::declaration_views(declarations2@),
                        models2.len() == declarations2@.len(),
                        syntax::index_views(named@) == rows,
                        rows.len() == named@.len(),
                        forall|j: int| 0 <= j < rows.len() ==> 0 <= #[trigger] rows[j] < models2.len(),
                        k <= named@.len(),
                        candidates@ == before + named_upto(
                            d@,
                            i1 as int,
                            models2,
                            rows,
                            k as int,
                        ),
                    decreases named@.len() - k,
                {
                    let i2 = named[k];
                    assert(rows[k as int] == i2);
                    assert(models2[i2 as int] == declarations2@[i2 as int]@);
                    if kinds_are_compatible(d.kind, declarations2[i2].kind) {
                        candidates.push(
                            CandidateMatch { i1: i1 as u32, i2: i2 as u32, name_match: true },
                        );
                    }
                    assert(candidates@ =~= before + named_upto(
                        d@,
                        i1 as int,
                        models2,
                        rows,
                        k + 1,
                    ));
                    k += 1;
                }
            },
            None => {
                assert(rows.len() == 0);
                assert(candidates@ =~= before + named_upto(d@, i1 as int, models2, rows, 0));
            },
        }
        push_near(d, i1, declarations2, &places, &mut candidates);
        assert(candidates@ =~= candidates_upto(models1, models2, i1 + 1));
        i1 += 1;
    }
    proof {
        lemma_candidates_exist(models1, models2, declarations1@.len() as int);
    }
    candidates
}

proof fn lemma_named_exist(
    d: DeclarationModel,
    i1: int,
    list: Seq<DeclarationModel>,
    rows: Seq<int>,
    count: int,
)
    requires
        count <= rows.len(),
        forall|k: int| 0 <= k < rows.len() ==> 0 <= #[trigger] rows[k] < list.len(),
        list.len() <= 0x1_0000_0000,
        0 <= i1 <= u32::MAX,
    ensures
        forall|k: int|
            0 <= k < named_upto(d, i1, list, rows, count).len() ==> {
                let c = #[trigger] named_upto(d, i1, list, rows, count)[k];
                c.i1 == i1 && c.i2 < list.len()
            },
    decreases count,
{
    if count > 0 {
        lemma_named_exist(d, i1, list, rows, count - 1);
        let ahead = named_upto(d, i1, list, rows, count - 1);
        let all = named_upto(d, i1, list, rows, count);
        assert forall|k: int| 0 <= k < all.len() implies {
            let c = #[trigger] all[k];
            c.i1 == i1 && c.i2 < list.len()
        } by {
            if k < ahead.len() {
                assert(all[k] == ahead[k]);
            }
        }
    }
}

proof fn lemma_near_exist(d: DeclarationModel, i1: int, list: Seq<DeclarationModel>, count: int)
    requires
        count <= list.len(),
        list.len() <= 0x1_0000_0000,
        0 <= i1 <= u32::MAX,
    ensures
        forall|k: int|
            0 <= k < near_upto(d, i1, list, count).len() ==> {
                let c = #[trigger] near_upto(d, i1, list, count)[k];
                c.i1 == i1 && c.i2 < list.len()
            },
    decreases count,
{
    if count > 0 {
        lemma_near_exist(d, i1, list, count - 1);
        order::lemma_rank_is_bijective(size_keys(list));
        assert(0 <= order::row_at(size_keys(list), count - 1) < list.len());
        let ahead = near_upto(d, i1, list, count - 1);
        let all = near_upto(d, i1, list, count);
        assert forall|k: int| 0 <= k < all.len() implies {
            let c = #[trigger] all[k];
            c.i1 == i1 && c.i2 < list.len()
        } by {
            if k < ahead.len() {
                assert(all[k] == ahead[k]);
            }
        }
    }
}

proof fn lemma_candidates_exist(
    list1: Seq<DeclarationModel>,
    list2: Seq<DeclarationModel>,
    count: int,
)
    requires
        count <= list1.len() <= 0x1_0000_0000,
        list2.len() <= 0x1_0000_0000,
    ensures
        forall|k: int|
            0 <= k < candidates_upto(list1, list2, count).len() ==> {
                let c = #[trigger] candidates_upto(list1, list2, count)[k];
                c.i1 < list1.len() && c.i2 < list2.len()
            },
    decreases count,
{
    if count > 0 {
        lemma_candidates_exist(list1, list2, count - 1);
        let d = list1[count - 1];
        let rows = rows_named(list2, d.name, list2.len() as int);
        lemma_rows_named(list2, d.name, list2.len() as int);
        lemma_named_exist(d, count - 1, list2, rows, rows.len() as int);
        lemma_near_exist(d, count - 1, list2, list2.len() as int);
        let ahead = candidates_upto(list1, list2, count - 1);
        let named = named_upto(d, count - 1, list2, rows, rows.len() as int);
        let near = near_upto(d, count - 1, list2, list2.len() as int);
        let all = candidates_upto(list1, list2, count);
        assert(all == ahead + (named + near));
        assert forall|k: int| 0 <= k < all.len() implies {
            let c = #[trigger] all[k];
            c.i1 < list1.len() && c.i2 < list2.len()
        } by {
            if k < ahead.len() {
                assert(all[k] == ahead[k]);
            } else if k < ahead.len() + named.len() {
                assert(all[k] == named[k - ahead.len()]);
            } else {
                assert(all[k] == near[k - ahead.len() - named.len()]);
            }
        }
    }
}

} // verus!
