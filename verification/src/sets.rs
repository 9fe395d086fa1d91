//! Sets of numbers as ascending lists.

use vstd::prelude::*;

use crate::order::{stable_order, SpecKey};

use crate::order;

verus! {

/// An ascending list with a number added, unless it is there already.
pub open spec fn with_number(list: Seq<u64>, number: u64) -> Seq<u64>
    decreases list.len(),
{
    if list.len() == 0 {
        seq![number]
    } else if list[0] == number {
        list
    } else if number < list[0] {
        seq![number] + list
    } else {
        seq![list[0]] + with_number(list.drop_first(), number)
    }
}

/// Numbers in ascending order, each once.
pub open spec fn sorted_set(list: Seq<u64>) -> Seq<u64>
    decreases list.len(),
{
    if list.len() == 0 {
        Seq::empty()
    } else {
        with_number(sorted_set(list.drop_last()), list.last())
    }
}

/// Whether numbers ascend.
pub open spec fn is_ascending(list: Seq<u64>) -> bool {
    forall|i: int, j: int| 0 <= i < j < list.len() ==> list[i] < list[j]
}

proof fn lemma_with_number(list: Seq<u64>, number: u64, p: int)
    requires
        0 <= p <= list.len(),
        forall|k: int| 0 <= k < p ==> #[trigger] list[k] < number,
        p < list.len() ==> number <= list[p],
    ensures
        p < list.len() && list[p] == number ==> with_number(list, number) == list,
        !(p < list.len() && list[p] == number) ==> with_number(list, number) == list.insert(
            p,
            number,
        ),
    decreases list.len(),
{
    if list.len() == 0 {
        assert(list.insert(p, number) =~= seq![number]);
    } else if p == 0 {
        if list[0] != number {
            assert(list.insert(p, number) =~= seq![number] + list);
        }
    } else {
        let rest = list.drop_first();
        assert forall|k: int| 0 <= k < p - 1 implies #[trigger] rest[k] < number by {
            assert(rest[k] == list[k + 1]);
        }
        lemma_with_number(rest, number, p - 1);
        assert(list[0] < number);
        if p < list.len() && list[p] == number {
            assert(rest[p - 1] == number);
            assert(seq![list[0]] + rest =~= list);
        } else {
            assert(seq![list[0]] + rest.insert(p - 1, number) =~= list.insert(p, number));
        }
    }
}

/// Adding a number keeps a list ascending, and adds that number alone.
pub proof fn lemma_with_number_ascends(list: Seq<u64>, number: u64)
    requires
        is_ascending(list),
    ensures
        is_ascending(with_number(list, number)),
        forall|x: u64| #[trigger]
            with_number(list, number).contains(x) == (list.contains(x) || x == number),
    decreases list.len(),
{
    let p = place_of(list, number, 0);
    lemma_place(list, number, 0);
    lemma_with_number(list, number, p);
    if p < list.len() && list[p] == number {
        assert(list.contains(number));
    } else {
        let longer = list.insert(p, number);
        assert(is_ascending(longer)) by {
            assert forall|i: int, j: int| 0 <= i < j < longer.len() implies longer[i]
                < longer[j] by {
                if p < list.len() {
                    assert(number < list[p]);
                }
            }
        }
        assert forall|x: u64| #[trigger] longer.contains(x) == (list.contains(x) || x
            == number) by {
            if list.contains(x) {
                let k = choose|k: int| 0 <= k < list.len() && list[k] == x;
                assert(longer[if k < p {
                    k
                } else {
                    k + 1
                }] == x);
            }
            if x == number {
                assert(longer[p] == x);
            }
            if longer.contains(x) {
                let k = choose|k: int| 0 <= k < longer.len() && longer[k] == x;
                if k < p {
                    assert(list[k] == x);
                } else if k > p {
                    assert(list[k - 1] == x);
                }
            }
        }
    }
}

/// The first place from `from` on whose number is not below a number.
spec fn place_of(list: Seq<u64>, number: u64, from: int) -> int
    decreases list.len() - from,
{
    if from < 0 || from >= list.len() || list[from] >= number {
        from
    } else {
        place_of(list, number, from + 1)
    }
}

proof fn lemma_place(list: Seq<u64>, number: u64, from: int)
    requires
        0 <= from <= list.len(),
    ensures
        from <= place_of(list, number, from) <= list.len(),
        forall|k: int| from <= k < place_of(list, number, from) ==> #[trigger] list[k] < number,
        place_of(list, number, from) < list.len() ==> number <= list[place_of(list, number, from)],
    decreases list.len() - from,
{
    if from < list.len() && list[from] < number {
        lemma_place(list, number, from + 1);
    }
}

/// A sorted set ascends and holds what its list holds.
pub proof fn lemma_sorted_set(list: Seq<u64>)
    ensures
        is_ascending(sorted_set(list)),
        forall|x: u64| #[trigger] sorted_set(list).contains(x) == list.contains(x),
    decreases list.len(),
{
    if list.len() > 0 {
        let shorter = list.drop_last();
        lemma_sorted_set(shorter);
        lemma_with_number_ascends(sorted_set(shorter), list.last());
        assert forall|x: u64| #[trigger] sorted_set(list).contains(x) == list.contains(x) by {
            assert(sorted_set(list).contains(x) == (sorted_set(shorter).contains(x) || x
                == list.last()));
            assert(sorted_set(shorter).contains(x) == shorter.contains(x));
            if list.contains(x) {
                let k = choose|k: int| 0 <= k < list.len() && list[k] == x;
                if k < list.len() - 1 {
                    assert(shorter[k] == x);
                }
            }
            if shorter.contains(x) {
                let k = choose|k: int| 0 <= k < shorter.len() && shorter[k] == x;
                assert(list[k] == x);
            }
        }
    }
}

/// Ascending lists that hold the same numbers are the same.
pub proof fn lemma_same_set(a: Seq<u64>, b: Seq<u64>)
    requires
        is_ascending(a),
        is_ascending(b),
        forall|x: u64| #[trigger] a.contains(x) == b.contains(x),
    ensures
        a == b,
    decreases a.len(),
{
    if a.len() == 0 {
        if b.len() > 0 {
            assert(b.contains(b[0]));
            assert(a.contains(b[0]));
        }
        assert(a =~= b);
    } else {
        assert(a.contains(a.last()));
        assert(b.contains(a.last()));
        assert(b.contains(b.last()));
        assert(a.contains(b.last()));
        assert(a.last() == b.last());
        let (c, d) = (a.drop_last(), b.drop_last());
        assert forall|x: u64| #[trigger] c.contains(x) == d.contains(x) by {
            assert(a.contains(x) == b.contains(x));
            if c.contains(x) {
                let k = choose|k: int| 0 <= k < c.len() && c[k] == x;
                assert(a[k] == x);
                let j = choose|j: int| 0 <= j < b.len() && b[j] == x;
                assert(d[j] == x);
            }
            if d.contains(x) {
                let k = choose|k: int| 0 <= k < d.len() && d[k] == x;
                assert(b[k] == x);
                let j = choose|j: int| 0 <= j < a.len() && a[j] == x;
                assert(c[j] == x);
            }
        }
        lemma_same_set(c, d);
        assert(a =~= c.push(a.last()));
        assert(b =~= d.push(b.last()));
    }
}

/// Numbers in ascending order, each once.
pub fn sort_set(list: &Vec<u64>) -> (sorted: Vec<u64>)
    ensures
        sorted@ == sorted_set(list@),
{
    let places = stable_order(list);
    let mut sorted: Vec<u64> = Vec::new();
    let mut i: usize = 0;
    while i < places.len()
        invariant
            i <= places@.len(),
            order::is_stable_order(list@, 0, list@.len() as int, places@),
            is_ascending(sorted@),
            forall|k: int| 0 <= k < i ==> sorted@.contains(list@[#[trigger] places@[k] as int]),
            forall|k: int| 0 <= k < sorted@.len() ==> list@.contains(#[trigger] sorted@[k]),
            i == 0 ==> sorted@.len() == 0,
            i > 0 ==> sorted@.len() > 0 && sorted@.last() == list@[places@[i - 1] as int],
        decreases places@.len() - i,
    {
        let number = list[places[i]];
        assert(list@.contains(number));
        let ghost before = sorted@;
        if i > 0 {
            assert(order::comes_before(list@, places@[i - 1] as int, places@[i as int] as int));
        }
        if sorted.len() == 0 || sorted[sorted.len() - 1] != number {
            sorted.push(number);
            assert(sorted@.last() == number);
            assert(is_ascending(sorted@)) by {
                if before.len() > 0 {
                    assert(list@[places@[i - 1] as int].le_spec(&number));
                    assert(before.last() < number);
                    assert(forall|k: int| 0 <= k < before.len() ==> before[k] <= before.last());
                }
            }
            assert forall|k: int| 0 <= k < i implies sorted@.contains(
                list@[#[trigger] places@[k] as int],
            ) by {
                let j = choose|j: int|
                    0 <= j < before.len() && before[j] == list@[places@[k] as int];
                assert(sorted@[j] == list@[places@[k] as int]);
            }
        }
        i += 1;
    }
    proof {
        lemma_sorted_set(list@);
        order::lemma_stable_order_is_complete(list@, 0, list@.len() as int, places@);
        assert forall|x: u64| #[trigger] sorted@.contains(x) == sorted_set(list@).contains(x) by {
            if list@.contains(x) {
                let row = choose|row: int| 0 <= row < list@.len() && list@[row] == x;
                assert(places@.contains(row as usize));
                let k = choose|k: int| 0 <= k < places@.len() && places@[k] == row as usize;
                assert(sorted@.contains(list@[places@[k] as int]));
            }
        }
        lemma_same_set(sorted@, sorted_set(list@));
    }
    sorted
}

/// How many of the first `count` numbers of a list another list holds.
pub open spec fn shared(left: Seq<u64>, right: Seq<u64>, count: int) -> nat
    decreases count,
{
    if count <= 0 {
        0
    } else {
        shared(left, right, count - 1) + if right.contains(left[count - 1]) {
            1nat
        } else {
            0
        }
    }
}

/// Nothing of a list is shared with numbers that are all larger.
proof fn lemma_not_shared(left: Seq<u64>, right: Seq<u64>, i: int, j: int)
    requires
        is_ascending(left),
        is_ascending(right),
        0 <= i < left.len(),
        0 <= j <= right.len(),
        j < right.len() ==> left[i] < right[j],
        j > 0 ==> right[j - 1] < left[i],
    ensures
        !right.contains(left[i]),
{
    if right.contains(left[i]) {
        let k = choose|k: int| 0 <= k < right.len() && right[k] == left[i];
        if k < j {
            assert(k < j - 1 ==> right[k] < right[j - 1]);
        } else {
            assert(k > j ==> right[j] < right[k]);
        }
    }
}

/// How many numbers two lists share.
pub(crate) fn intersection_count(left: &Vec<u64>, right: &Vec<u64>) -> (count: usize)
    requires
        is_ascending(left@),
        is_ascending(right@),
    ensures
        count == shared(left@, right@, left@.len() as int),
{
    let mut i: usize = 0;
    let mut j: usize = 0;
    let mut count: usize = 0;
    while i < left.len()
        invariant
            i <= left@.len(),
            j <= right@.len(),
            is_ascending(left@),
            is_ascending(right@),
            count <= i,
            count == shared(left@, right@, i as int),
            i < left@.len() && j > 0 ==> right@[j - 1] < left@[i as int],
        decreases left@.len() - i,
    {
        while j < right.len() && right[j] < left[i]
            invariant
                i < left@.len(),
                j <= right@.len(),
                j > 0 ==> right@[j - 1] < left@[i as int],
            decreases right@.len() - j,
        {
            j += 1;
        }
        if j < right.len() && right[j] == left[i] {
            assert(right@.contains(left@[i as int]));
            count += 1;
        } else {
            proof {
                lemma_not_shared(left@, right@, i as int, j as int);
            }
        }
        i += 1;
        proof {
            if i < left@.len() {
                assert(left@[i - 1] < left@[i as int]);
            }
        }
    }
    count
}

} // verus!
