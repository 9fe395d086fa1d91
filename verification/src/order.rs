//! Stable ordering of rows by a key.

use vstd::prelude::*;
use vstd::string::*;
use vstd::utf8::*;

use crate::bytes::push_all;
use crate::text;

verus! {

/// A key with a total order.
pub trait SpecKey: Sized {
    spec fn le_spec(&self, other: &Self) -> bool;

    proof fn le_reflexive(a: &Self)
        ensures
            a.le_spec(a),
    ;

    proof fn le_transitive(a: &Self, b: &Self, c: &Self)
        requires
            a.le_spec(b),
            b.le_spec(c),
        ensures
            a.le_spec(c),
    ;

    proof fn le_total(a: &Self, b: &Self)
        ensures
            a.le_spec(b) || b.le_spec(a),
    ;
}

/// A key whose order can be computed.
pub trait OrderKey: SpecKey {
    fn le(&self, other: &Self) -> (r: bool)
        ensures
            r == self.le_spec(other),
    ;
}

impl SpecKey for u64 {
    open spec fn le_spec(&self, other: &Self) -> bool {
        *self <= *other
    }

    proof fn le_reflexive(a: &Self) {
    }

    proof fn le_transitive(a: &Self, b: &Self, c: &Self) {
    }

    proof fn le_total(a: &Self, b: &Self) {
    }
}

impl OrderKey for u64 {
    fn le(&self, other: &Self) -> (r: bool) {
        *self <= *other
    }
}

/// Row `i` comes before row `j`: its key is smaller, or the keys are
/// equivalent and `i < j`.
pub open spec fn comes_before<K: SpecKey>(keys: Seq<K>, i: int, j: int) -> bool {
    keys[i].le_spec(&keys[j]) && (keys[j].le_spec(&keys[i]) ==> i < j)
}

/// `order` lists the rows `lo..hi` of `keys`, each once, in stable key order.
pub open spec fn is_stable_order<K: SpecKey>(
    keys: Seq<K>,
    lo: int,
    hi: int,
    order: Seq<usize>,
) -> bool {
    &&& order.len() == hi - lo
    &&& forall|i: int| 0 <= i < order.len() ==> lo <= #[trigger] order[i] < hi
    &&& forall|i: int, j: int|
        0 <= i < j < order.len() ==> #[trigger] comes_before(
            keys,
            order[i] as int,
            order[j] as int,
        )
}

/// A stable order lists every row of its range.
pub proof fn lemma_stable_order_is_complete<K: SpecKey>(
    keys: Seq<K>,
    lo: int,
    hi: int,
    order: Seq<usize>,
)
    requires
        0 <= lo <= hi <= usize::MAX,
        is_stable_order(keys, lo, hi, order),
    ensures
        order.no_duplicates(),
        forall|row: int| lo <= row < hi ==> #[trigger] order.contains(row as usize),
{
    assert forall|i: int, j: int| 0 <= i < j < order.len() implies order[i] != order[j] by {
        assert(comes_before(keys, order[i] as int, order[j] as int));
        K::le_reflexive(&keys[order[i] as int]);
    }
    let ints = order.map_values(|x: usize| x as int);
    assert(ints.no_duplicates());
    ints.unique_seq_to_set();
    vstd::set_lib::lemma_int_range(lo, hi);
    let range = vstd::set_lib::set_int_range(lo, hi);
    assert(ints.to_set().subset_of(range)) by {
        assert forall|x: int| ints.to_set().contains(x) implies range.contains(x) by {
            let k = choose|k: int| 0 <= k < ints.len() && ints[k] == x;
            assert(lo <= order[k] < hi);
        }
    }
    vstd::seq_lib::seq_to_set_is_finite(ints);
    vstd::set_lib::lemma_subset_equality(ints.to_set(), range);
    assert forall|row: int| lo <= row < hi implies #[trigger] order.contains(row as usize) by {
        assert(ints.to_set().contains(row));
        let k = choose|k: int| 0 <= k < ints.len() && ints[k] == row;
        assert(order[k] == row as usize);
    }
}

/// The stable order of all rows by their keys.
pub fn stable_order<K: OrderKey>(keys: &Vec<K>) -> (order: Vec<usize>)
    ensures
        is_stable_order(keys@, 0, keys@.len() as int, order@),
{
    order_range(keys, 0, keys.len())
}

fn order_range<K: OrderKey>(keys: &Vec<K>, lo: usize, hi: usize) -> (order: Vec<usize>)
    requires
        lo <= hi <= keys@.len(),
    ensures
        is_stable_order(keys@, lo as int, hi as int, order@),
    decreases hi - lo,
{
    if hi - lo == 0 {
        return Vec::new();
    }
    if hi - lo == 1 {
        let mut one: Vec<usize> = Vec::new();
        one.push(lo);
        return one;
    }
    let mid: usize = lo + (hi - lo) / 2;
    let left = order_range(keys, lo, mid);
    let right = order_range(keys, mid, hi);
    merge(keys, lo, mid, hi, &left, &right)
}

fn merge<K: OrderKey>(
    keys: &Vec<K>,
    lo: usize,
    mid: usize,
    hi: usize,
    left: &Vec<usize>,
    right: &Vec<usize>,
) -> (order: Vec<usize>)
    requires
        lo <= mid <= hi <= keys@.len(),
        is_stable_order(keys@, lo as int, mid as int, left@),
        is_stable_order(keys@, mid as int, hi as int, right@),
    ensures
        is_stable_order(keys@, lo as int, hi as int, order@),
{
    let mut order: Vec<usize> = Vec::new();
    let mut i: usize = 0;
    let mut j: usize = 0;
    while i < left.len() || j < right.len()
        invariant
            lo <= mid <= hi <= keys@.len(),
            is_stable_order(keys@, lo as int, mid as int, left@),
            is_stable_order(keys@, mid as int, hi as int, right@),
            i <= left@.len(),
            j <= right@.len(),
            order@.len() == i + j,
            forall|k: int| 0 <= k < order@.len() ==> lo <= #[trigger] order@[k] < hi,
            forall|k: int, m: int|
                0 <= k < m < order@.len() ==> #[trigger] comes_before(
                    keys@,
                    order@[k] as int,
                    order@[m] as int,
                ),
            forall|k: int, m: int|
                #![trigger order@[k], left@[m]]
                0 <= k < order@.len() && i <= m < left@.len() ==> comes_before(
                    keys@,
                    order@[k] as int,
                    left@[m] as int,
                ),
            forall|k: int, m: int|
                #![trigger order@[k], right@[m]]
                0 <= k < order@.len() && j <= m < right@.len() ==> comes_before(
                    keys@,
                    order@[k] as int,
                    right@[m] as int,
                ),
        decreases left@.len() - i + right@.len() - j,
    {
        let take_left = if i >= left.len() {
            false
        } else if j >= right.len() {
            true
        } else {
            keys[left[i]].le(&keys[right[j]])
        };
        if take_left {
            proof {
                lemma_merge_left(keys@, left@, right@, i as int, j as int, mid as int);
            }
            order.push(left[i]);
            i += 1;
        } else {
            proof {
                lemma_merge_right(keys@, left@, right@, i as int, j as int, mid as int);
            }
            order.push(right[j]);
            j += 1;
        }
    }
    order
}

proof fn lemma_merge_left<K: SpecKey>(
    keys: Seq<K>,
    left: Seq<usize>,
    right: Seq<usize>,
    i: int,
    j: int,
    mid: int,
)
    requires
        0 <= i < left.len(),
        0 <= j <= right.len(),
        forall|k: int| 0 <= k < left.len() ==> #[trigger] left[k] < mid,
        forall|k: int| 0 <= k < right.len() ==> mid <= #[trigger] right[k],
        forall|a: int, b: int|
            0 <= a < b < right.len() ==> #[trigger] comes_before(
                keys,
                right[a] as int,
                right[b] as int,
            ),
        j < right.len() ==> keys[left[i] as int].le_spec(&keys[right[j] as int]),
    ensures
        forall|m: int|
            j <= m < right.len() ==> comes_before(keys, left[i] as int, #[trigger] right[m] as int),
{
    assert forall|m: int| j <= m < right.len() implies comes_before(
        keys,
        left[i] as int,
        #[trigger] right[m] as int,
    ) by {
        if m > j {
            assert(comes_before(keys, right[j] as int, right[m] as int));
            K::le_transitive(&keys[left[i] as int], &keys[right[j] as int], &keys[right[m] as int]);
        }
        assert(left[i] < mid);
    }
}

proof fn lemma_merge_right<K: SpecKey>(
    keys: Seq<K>,
    left: Seq<usize>,
    right: Seq<usize>,
    i: int,
    j: int,
    mid: int,
)
    requires
        0 <= i <= left.len(),
        0 <= j < right.len(),
        forall|a: int, b: int|
            0 <= a < b < left.len() ==> #[trigger] comes_before(keys, left[a] as int, left[b] as int),
        i < left.len() ==> !keys[left[i] as int].le_spec(&keys[right[j] as int]),
    ensures
        forall|m: int|
            i <= m < left.len() ==> comes_before(keys, right[j] as int, #[trigger] left[m] as int),
{
    assert forall|m: int| i <= m < left.len() implies comes_before(
        keys,
        right[j] as int,
        #[trigger] left[m] as int,
    ) by {
        let r = keys[right[j] as int];
        let first = keys[left[i] as int];
        let other = keys[left[m] as int];
        K::le_total(&first, &r);
        K::le_reflexive(&first);
        if m > i {
            assert(comes_before(keys, left[i] as int, left[m] as int));
        }
        K::le_transitive(&r, &first, &other);
        if other.le_spec(&r) {
            K::le_transitive(&first, &other, &r);
        }
    }
}

/// Whether two keys have the same place in the order.
pub open spec fn equivalent<K: SpecKey>(a: K, b: K) -> bool {
    a.le_spec(&b) && b.le_spec(&a)
}

/// Whether a row's key occurs in an earlier row.
pub open spec fn occurs_earlier<K: SpecKey>(keys: Seq<K>, row: int) -> bool {
    exists|k: int| 0 <= k < row && #[trigger] equivalent(keys[k], keys[row])
}

/// Marks the rows whose key occurs in an earlier row.
pub fn earlier_equal<K: OrderKey>(keys: &Vec<K>) -> (flags: Vec<bool>)
    ensures
        flags@.len() == keys@.len(),
        forall|row: int| 0 <= row < keys@.len() ==> #[trigger] flags@[row] == occurs_earlier(keys@, row),
{
    let order = stable_order(keys);
    let mut flags: Vec<bool> = Vec::new();
    let mut i: usize = 0;
    while i < keys.len()
        invariant
            i <= keys@.len(),
            flags@.len() == i,
        decreases keys@.len() - i,
    {
        flags.push(false);
        i += 1;
    }
    proof {
        lemma_stable_order_is_complete(keys@, 0, keys@.len() as int, order@);
    }
    let mut at: usize = 0;
    while at < order.len()
        invariant
            at <= order@.len(),
            flags@.len() == keys@.len(),
            is_stable_order(keys@, 0, keys@.len() as int, order@),
            order@.no_duplicates(),
            forall|row: int|
                0 <= row < keys@.len() ==> #[trigger] order@.contains(row as usize),
            forall|k: int|
                0 <= k < at ==> flags@[#[trigger] order@[k] as int] == occurs_earlier(
                    keys@,
                    order@[k] as int,
                ),
        decreases order@.len() - at,
    {
        let row: usize = order[at];
        let found = at > 0 && keys[order[at - 1]].le(&keys[row]) && keys[row].le(
            &keys[order[at - 1]],
        );
        proof {
            lemma_earlier_is_adjacent(keys@, order@, at as int);
        }
        flags.set(row, found);
        at += 1;
    }
    assert forall|row: int| 0 <= row < keys@.len() implies #[trigger] flags@[row] == occurs_earlier(
        keys@,
        row,
    ) by {
        assert(order@.contains(row as usize));
        let k = choose|k: int| 0 <= k < order@.len() && order@[k] == row as usize;
        assert(flags@[order@[k] as int] == occurs_earlier(keys@, order@[k] as int));
    }
    flags
}

proof fn lemma_earlier_is_adjacent<K: SpecKey>(keys: Seq<K>, order: Seq<usize>, at: int)
    requires
        is_stable_order(keys, 0, keys.len() as int, order),
        forall|row: int| 0 <= row < keys.len() ==> #[trigger] order.contains(row as usize),
        0 <= at < order.len(),
        keys.len() <= usize::MAX,
    ensures
        occurs_earlier(keys, order[at] as int) == (at > 0 && equivalent(
            keys[order[at - 1] as int],
            keys[order[at] as int],
        )),
{
    let row = order[at] as int;
    if at > 0 {
        assert(comes_before(keys, order[at - 1] as int, row));
    }
    if occurs_earlier(keys, row) {
        let j = choose|j: int| 0 <= j < row && #[trigger] equivalent(keys[j], keys[row]);
        assert(order.contains(j as usize));
        let p = choose|p: int| 0 <= p < order.len() && order[p] == j as usize;
        if p > at {
            assert(comes_before(keys, order[at] as int, order[p] as int));
        }
        assert(p < at);
        let before = keys[order[at - 1] as int];
        if p < at - 1 {
            assert(comes_before(keys, order[p] as int, order[at - 1] as int));
            K::le_transitive(&keys[row], &keys[j], &before);
        }
    }
}

/// The lexicographic order of byte strings.
pub open spec fn bytes_le(a: Seq<u8>, b: Seq<u8>) -> bool
    decreases a.len(),
{
    if a.len() == 0 {
        true
    } else if b.len() == 0 {
        false
    } else if a[0] != b[0] {
        a[0] < b[0]
    } else {
        bytes_le(a.drop_first(), b.drop_first())
    }
}

proof fn lemma_bytes_le_reflexive(a: Seq<u8>)
    ensures
        bytes_le(a, a),
    decreases a.len(),
{
    if a.len() > 0 {
        lemma_bytes_le_reflexive(a.drop_first());
    }
}

pub proof fn lemma_bytes_le_transitive(a: Seq<u8>, b: Seq<u8>, c: Seq<u8>)
    requires
        bytes_le(a, b),
        bytes_le(b, c),
    ensures
        bytes_le(a, c),
    decreases a.len(),
{
    if a.len() > 0 && b.len() > 0 && c.len() > 0 && a[0] == b[0] && b[0] == c[0] {
        lemma_bytes_le_transitive(a.drop_first(), b.drop_first(), c.drop_first());
    }
}

pub proof fn lemma_bytes_le_total(a: Seq<u8>, b: Seq<u8>)
    ensures
        bytes_le(a, b) || bytes_le(b, a),
    decreases a.len(),
{
    if a.len() > 0 && b.len() > 0 && a[0] == b[0] {
        lemma_bytes_le_total(a.drop_first(), b.drop_first());
    }
}

/// Byte strings that precede each other are the same.
pub proof fn lemma_bytes_le_antisymmetric(a: Seq<u8>, b: Seq<u8>)
    ensures
        (bytes_le(a, b) && bytes_le(b, a)) == (a == b),
    decreases a.len(),
{
    lemma_bytes_le_reflexive(a);
    if bytes_le(a, b) && bytes_le(b, a) {
        if a.len() > 0 && b.len() > 0 {
            lemma_bytes_le_antisymmetric(a.drop_first(), b.drop_first());
            assert(a =~= seq![a[0]] + a.drop_first());
            assert(b =~= seq![b[0]] + b.drop_first());
        } else {
            assert(a =~= b);
        }
    }
}

/// Compares byte strings lexicographically.
pub fn bytes_at_most(a: &[u8], b: &[u8]) -> (r: bool)
    ensures
        r == bytes_le(a@, b@),
{
    let mut i: usize = 0;
    assert(a@.skip(0) =~= a@);
    assert(b@.skip(0) =~= b@);
    while i < a.len() && i < b.len()
        invariant
            i <= a@.len(),
            i <= b@.len(),
            bytes_le(a@, b@) == bytes_le(a@.skip(i as int), b@.skip(i as int)),
        decreases a@.len() - i,
    {
        assert(a@.skip(i as int).drop_first() =~= a@.skip(i + 1));
        assert(b@.skip(i as int).drop_first() =~= b@.skip(i + 1));
        if a[i] != b[i] {
            return a[i] < b[i];
        }
        i += 1;
    }
    i >= a.len()
}

/// Bytes ordered lexicographically.
pub struct ByteKey(pub Vec<u8>);

impl SpecKey for ByteKey {
    open spec fn le_spec(&self, other: &Self) -> bool {
        bytes_le(self.0@, other.0@)
    }

    proof fn le_reflexive(a: &Self) {
        lemma_bytes_le_reflexive(a.0@);
    }

    proof fn le_transitive(a: &Self, b: &Self, c: &Self) {
        lemma_bytes_le_transitive(a.0@, b.0@, c.0@);
    }

    proof fn le_total(a: &Self, b: &Self) {
        lemma_bytes_le_total(a.0@, b.0@);
    }
}

impl OrderKey for ByteKey {
    fn le(&self, other: &Self) -> (r: bool) {
        bytes_at_most(self.0.as_slice(), other.0.as_slice())
    }
}

/// Keys ordered by their first part, and by the second where that ties.
#[derive(Debug)]
pub struct Pair<A, B>(pub A, pub B);

impl<A: SpecKey, B: SpecKey> SpecKey for Pair<A, B> {
    open spec fn le_spec(&self, other: &Self) -> bool {
        self.0.le_spec(&other.0) && (other.0.le_spec(&self.0) ==> self.1.le_spec(&other.1))
    }

    proof fn le_reflexive(a: &Self) {
        A::le_reflexive(&a.0);
        B::le_reflexive(&a.1);
    }

    proof fn le_transitive(a: &Self, b: &Self, c: &Self) {
        A::le_transitive(&a.0, &b.0, &c.0);
        if c.0.le_spec(&a.0) {
            A::le_transitive(&c.0, &a.0, &b.0);
            A::le_transitive(&b.0, &c.0, &a.0);
            B::le_transitive(&a.1, &b.1, &c.1);
        }
    }

    proof fn le_total(a: &Self, b: &Self) {
        A::le_total(&a.0, &b.0);
        B::le_total(&a.1, &b.1);
    }
}

impl<A: OrderKey, B: OrderKey> OrderKey for Pair<A, B> {
    fn le(&self, other: &Self) -> (r: bool) {
        if !self.0.le(&other.0) {
            false
        } else if other.0.le(&self.0) {
            self.1.le(&other.1)
        } else {
            true
        }
    }
}

/// The rows that come before row `i`.
pub open spec fn rows_before<K: SpecKey>(keys: Seq<K>, i: int) -> Set<int> {
    Set::new(|k: int| 0 <= k < keys.len() && comes_before(keys, k, i))
}

/// The place of row `i` in the stable order.
pub open spec fn rank<K: SpecKey>(keys: Seq<K>, i: int) -> int {
    rows_before(keys, i).len() as int
}

/// The row at place `j` of the stable order.
pub open spec fn row_at<K: SpecKey>(keys: Seq<K>, j: int) -> int {
    choose|i: int| 0 <= i < keys.len() && #[trigger] rank(keys, i) == j
}

/// Rows arranged in the stable order of their keys.
pub open spec fn arranged<T, K: SpecKey>(list: Seq<T>, keys: Seq<K>) -> Seq<T> {
    Seq::new(keys.len(), |j: int| list[row_at(keys, j)])
}

/// Two rows cannot each come before the other.
proof fn lemma_before_is_asymmetric<K: SpecKey>(keys: Seq<K>, i: int, j: int)
    requires
        comes_before(keys, i, j),
    ensures
        !comes_before(keys, j, i),
{
}

/// What a stable order lists at place `j` is the row of that rank.
pub proof fn lemma_ranks<K: SpecKey>(keys: Seq<K>, order: Seq<usize>)
    requires
        keys.len() <= usize::MAX,
        is_stable_order(keys, 0, keys.len() as int, order),
    ensures
        forall|j: int|
            0 <= j < order.len() ==> rank(keys, #[trigger] order[j] as int) == j && row_at(keys, j)
                == order[j],
        forall|i: int|
            0 <= i < keys.len() ==> 0 <= #[trigger] rank(keys, i) < keys.len() && order[rank(
                keys,
                i,
            )] == i,
        order.no_duplicates(),
{
    let n = keys.len() as int;
    lemma_stable_order_is_complete(keys, 0, n, order);
    assert forall|j: int| 0 <= j < order.len() implies rank(keys, #[trigger] order[j] as int)
        == j by {
        let row = order[j] as int;
        let before = order.take(j).map_values(|x: usize| x as int);
        assert(before.no_duplicates());
        before.unique_seq_to_set();
        assert(before.to_set() =~= rows_before(keys, row)) by {
            assert forall|k: int| before.to_set().contains(k) implies rows_before(
                keys,
                row,
            ).contains(k) by {
                let p = choose|p: int| 0 <= p < before.len() && before[p] == k;
                assert(comes_before(keys, order[p] as int, order[j] as int));
            }
            assert forall|k: int| rows_before(keys, row).contains(k) implies before.to_set().contains(
                k,
            ) by {
                assert(order.contains(k as usize));
                let p = choose|p: int| 0 <= p < order.len() && order[p] == k as usize;
                if p > j {
                    assert(comes_before(keys, order[j] as int, order[p] as int));
                    lemma_before_is_asymmetric(keys, row, k);
                }
                if p == j {
                    K::le_reflexive(&keys[k]);
                }
                assert(before[p] == k);
            }
        }
    }
    assert forall|i: int| 0 <= i < keys.len() implies 0 <= #[trigger] rank(keys, i) < keys.len()
        && order[rank(keys, i)] == i by {
        assert(order.contains(i as usize));
        let p = choose|p: int| 0 <= p < order.len() && order[p] == i as usize;
        assert(rank(keys, order[p] as int) == p);
    }
    assert forall|j: int| 0 <= j < order.len() implies row_at(keys, j) == #[trigger] order[j] by {
        assert(rank(keys, order[j] as int) == j);
        let i = row_at(keys, j);
        assert(order[rank(keys, i)] == i);
    }
}

/// The place of every row in a stable order.
pub fn ranks<K: OrderKey>(keys: &Vec<K>) -> (places: Vec<usize>)
    ensures
        places@.len() == keys@.len(),
        forall|i: int|
            0 <= i < keys@.len() ==> #[trigger] places@[i] == rank(keys@, i) && places@[i]
                < keys@.len(),
{
    let order = stable_order(keys);
    let length: usize = keys.len();
    proof {
        lemma_ranks(keys@, order@);
    }
    let mut places: Vec<usize> = Vec::new();
    while places.len() < length
        invariant
            places@.len() <= length,
        decreases length - places@.len(),
    {
        places.push(0);
    }
    let mut j: usize = 0;
    while j < length
        invariant
            j <= length,
            length == keys@.len(),
            order@.len() == length,
            places@.len() == length,
            forall|k: int| 0 <= k < length ==> #[trigger] order@[k] < length,
            forall|k: int| 0 <= k < length ==> rank(keys@, #[trigger] order@[k] as int) == k,
            order@.no_duplicates(),
            forall|k: int| 0 <= k < j ==> places@[#[trigger] order@[k] as int] == k,
        decreases length - j,
    {
        places.set(order[j], j);
        j += 1;
    }
    assert forall|i: int| 0 <= i < keys@.len() implies #[trigger] places@[i] == rank(keys@, i)
        && places@[i] < keys@.len() by {
        let k = rank(keys@, i);
        assert(order@[k] == i);
        assert(places@[order@[k] as int] == k);
    }
    places
}

/// Of two different rows, one comes before the other.
proof fn lemma_before_is_total<K: SpecKey>(keys: Seq<K>, i: int, j: int)
    requires
        i != j,
    ensures
        comes_before(keys, i, j) || comes_before(keys, j, i),
{
    K::le_total(&keys[i], &keys[j]);
}

/// What comes before an earlier row comes before a later one.
proof fn lemma_before_is_transitive<K: SpecKey>(keys: Seq<K>, i: int, j: int, k: int)
    requires
        comes_before(keys, i, j),
        comes_before(keys, j, k),
    ensures
        comes_before(keys, i, k),
{
    K::le_transitive(&keys[i], &keys[j], &keys[k]);
    if keys[k].le_spec(&keys[i]) {
        K::le_transitive(&keys[k], &keys[i], &keys[j]);
        K::le_transitive(&keys[j], &keys[k], &keys[i]);
    }
}

proof fn lemma_rows_before_finite<K: SpecKey>(keys: Seq<K>, i: int)
    requires
        0 <= i < keys.len(),
    ensures
        rows_before(keys, i).finite(),
        0 <= rank(keys, i) < keys.len(),
{
    vstd::set_lib::lemma_int_range(0, keys.len() as int);
    let all = vstd::set_lib::set_int_range(0, keys.len() as int);
    let before = rows_before(keys, i);
    assert(before.subset_of(all.remove(i))) by {
        assert forall|k: int| before.contains(k) implies all.remove(i).contains(k) by {
            if k == i {
                K::le_reflexive(&keys[i]);
            }
        }
    }
    vstd::set_lib::lemma_len_subset(before, all.remove(i));
}

/// A row that comes before another has the smaller rank.
pub proof fn lemma_rank_follows_order<K: SpecKey>(keys: Seq<K>, i: int, j: int)
    requires
        0 <= i < keys.len(),
        0 <= j < keys.len(),
        comes_before(keys, i, j),
    ensures
        rank(keys, i) < rank(keys, j),
{
    lemma_rows_before_finite(keys, i);
    lemma_rows_before_finite(keys, j);
    let a = rows_before(keys, i);
    let b = rows_before(keys, j);
    assert(a.subset_of(b.remove(i))) by {
        assert forall|k: int| a.contains(k) implies b.remove(i).contains(k) by {
            lemma_before_is_transitive(keys, k, i, j);
            if k == i {
                K::le_reflexive(&keys[i]);
            }
        }
    }
    assert(b.contains(i));
    vstd::set_lib::lemma_len_subset(a, b.remove(i));
}

/// Ranks number the rows from zero on, each once, in their order.
pub proof fn lemma_rank_is_bijective<K: SpecKey>(keys: Seq<K>)
    ensures
        forall|i: int|
            0 <= i < keys.len() ==> 0 <= #[trigger] rank(keys, i) < keys.len() && row_at(
                keys,
                rank(keys, i),
            ) == i,
        forall|j: int|
            0 <= j < keys.len() ==> 0 <= #[trigger] row_at(keys, j) < keys.len() && rank(
                keys,
                row_at(keys, j),
            ) == j,
        forall|i: int, j: int|
            0 <= i < j < keys.len() ==> comes_before(
                keys,
                #[trigger] row_at(keys, i),
                #[trigger] row_at(keys, j),
            ),
{
    let n = keys.len() as int;
    assert forall|i: int| 0 <= i < n implies 0 <= #[trigger] rank(keys, i) < n by {
        lemma_rows_before_finite(keys, i);
    }
    assert forall|i: int, k: int|
        0 <= i < n && 0 <= k < n && #[trigger] rank(keys, i) == #[trigger] rank(
            keys,
            k,
        ) implies i == k by {
        if i != k {
            lemma_before_is_total(keys, i, k);
            if comes_before(keys, i, k) {
                lemma_rank_follows_order(keys, i, k);
            } else {
                lemma_rank_follows_order(keys, k, i);
            }
        }
    }
    let places = Seq::new(keys.len(), |i: int| rank(keys, i));
    assert(places.no_duplicates());
    places.unique_seq_to_set();
    vstd::set_lib::lemma_int_range(0, n);
    let all = vstd::set_lib::set_int_range(0, n);
    assert(places.to_set().subset_of(all)) by {
        assert forall|x: int| places.to_set().contains(x) implies all.contains(x) by {
            let i = choose|i: int| 0 <= i < places.len() && places[i] == x;
            assert(0 <= rank(keys, i) < n);
        }
    }
    vstd::seq_lib::seq_to_set_is_finite(places);
    vstd::set_lib::lemma_subset_equality(places.to_set(), all);
    assert forall|j: int| 0 <= j < n implies 0 <= #[trigger] row_at(keys, j) < n && rank(
        keys,
        row_at(keys, j),
    ) == j by {
        assert(places.to_set().contains(j));
        let i = choose|i: int| 0 <= i < places.len() && places[i] == j;
        assert(rank(keys, i) == j);
    }
    assert forall|i: int| 0 <= i < n implies row_at(keys, #[trigger] rank(keys, i)) == i by {
        assert(0 <= rank(keys, i) < n);
        assert(rank(keys, row_at(keys, rank(keys, i))) == rank(keys, i));
    }
    assert forall|i: int, j: int| 0 <= i < j < n implies comes_before(
        keys,
        #[trigger] row_at(keys, i),
        #[trigger] row_at(keys, j),
    ) by {
        let a = row_at(keys, i);
        let b = row_at(keys, j);
        assert(rank(keys, a) == i && rank(keys, b) == j);
        lemma_before_is_total(keys, a, b);
        if comes_before(keys, b, a) {
            lemma_rank_follows_order(keys, b, a);
        }
    }
}

/// Arranging rows keeps what they are, and keeps them distinct.
pub proof fn lemma_arranged<T, K: SpecKey>(list: Seq<T>, keys: Seq<K>)
    requires
        list.len() == keys.len(),
    ensures
        arranged(list, keys).len() == list.len(),
        forall|x: T| #[trigger] arranged(list, keys).contains(x) == list.contains(x),
        list.no_duplicates() ==> arranged(list, keys).no_duplicates(),
{
    lemma_rank_is_bijective(keys);
    let out = arranged(list, keys);
    assert forall|x: T| #[trigger] out.contains(x) == list.contains(x) by {
        if out.contains(x) {
            let j = choose|j: int| 0 <= j < out.len() && out[j] == x;
            assert(list[row_at(keys, j)] == x);
        }
        if list.contains(x) {
            let i = choose|i: int| 0 <= i < list.len() && list[i] == x;
            assert(0 <= rank(keys, i) < keys.len());
            assert(out[rank(keys, i)] == x);
        }
    }
    if list.no_duplicates() {
        assert forall|i: int, j: int| 0 <= i < out.len() && 0 <= j < out.len() && i
            != j implies out[i] != out[j] by {
            assert(rank(keys, row_at(keys, i)) == i);
            assert(rank(keys, row_at(keys, j)) == j);
        }
    }
}

/// Text ordered by its bytes.
pub struct TextKey(pub Seq<char>);

impl SpecKey for TextKey {
    open spec fn le_spec(&self, other: &Self) -> bool {
        bytes_le(encode_utf8(self.0), encode_utf8(other.0))
    }

    proof fn le_reflexive(a: &Self) {
        lemma_bytes_le_reflexive(encode_utf8(a.0));
    }

    proof fn le_transitive(a: &Self, b: &Self, c: &Self) {
        lemma_bytes_le_transitive(encode_utf8(a.0), encode_utf8(b.0), encode_utf8(c.0));
    }

    proof fn le_total(a: &Self, b: &Self) {
        lemma_bytes_le_total(encode_utf8(a.0), encode_utf8(b.0));
    }
}

/// The ordering keys of texts.
pub open spec fn text_keys(texts: Seq<Seq<char>>) -> Seq<TextKey> {
    texts.map_values(|text: Seq<char>| TextKey(text))
}

/// The rows of texts in their byte order.
pub fn text_order(texts: &Vec<String>) -> (order: Vec<usize>)
    ensures
        is_stable_order(text_keys(text::views(texts@)), 0, texts@.len() as int, order@),
        forall|j: int|
            0 <= j < order@.len() ==> #[trigger] order@[j] == row_at(
                text_keys(text::views(texts@)),
                j,
            ),
{
    let ghost wanted = text_keys(text::views(texts@));
    let mut keys: Vec<ByteKey> = Vec::new();
    let mut i: usize = 0;
    while i < texts.len()
        invariant
            i <= texts@.len(),
            keys@.len() == i,
            forall|k: int| 0 <= k < i ==> (#[trigger] keys@[k]).0@ == encode_utf8(texts@[k]@),
        decreases texts@.len() - i,
    {
        let mut key: Vec<u8> = Vec::new();
        push_all(&mut key, texts[i].as_str().as_bytes());
        assert(key@ =~= encode_utf8(texts@[i as int]@));
        keys.push(ByteKey(key));
        i += 1;
    }
    let order = stable_order(&keys);
    let length: usize = texts.len();
    proof {
        assert forall|a: int, b: int|
            0 <= a < length && 0 <= b < length implies #[trigger] comes_before(wanted, a, b)
            == comes_before(keys@, a, b) by {
            assert(wanted[a].0 == texts@[a]@);
            assert(wanted[b].0 == texts@[b]@);
        }
        assert forall|i: int, j: int| 0 <= i < j < order@.len() implies #[trigger] comes_before(
            wanted,
            order@[i] as int,
            order@[j] as int,
        ) by {
            assert(comes_before(keys@, order@[i] as int, order@[j] as int));
        }
        lemma_ranks(wanted, order@);
    }
    order
}

/// Puts a list in an order that lists each of its rows once.
pub(crate) fn arrange<T>(list: Vec<T>, order: &Vec<usize>) -> (r: Vec<T>)
    requires
        order@.len() == list@.len(),
        forall|j: int| 0 <= j < order@.len() ==> #[trigger] order@[j] < list@.len(),
        order@.no_duplicates(),
    ensures
        r@.len() == list@.len(),
        forall|j: int| 0 <= j < r@.len() ==> #[trigger] r@[j] == list@[order@[j] as int],
{
    let ghost all = list@;
    let mut slots: Vec<Option<T>> = Vec::new();
    let mut list = list;
    let length: usize = list.len();
    let mut backwards: Vec<T> = Vec::new();
    while list.len() > 0
        invariant
            all.len() == length,
            list@.len() + backwards@.len() == length,
            list@ == all.take(list@.len() as int),
            forall|k: int|
                0 <= k < backwards@.len() ==> #[trigger] backwards@[k] == all[length - 1 - k],
        decreases list@.len(),
    {
        match list.pop() {
            Some(item) => {
                backwards.push(item);
            },
            None => {},
        }
        assert(list@ =~= all.take(list@.len() as int));
    }
    while backwards.len() > 0
        invariant
            all.len() == length,
            slots@.len() + backwards@.len() == length,
            forall|k: int|
                0 <= k < backwards@.len() ==> #[trigger] backwards@[k] == all[length - 1 - k],
            forall|k: int| 0 <= k < slots@.len() ==> #[trigger] slots@[k] == Some(all[k]),
        decreases backwards@.len(),
    {
        match backwards.pop() {
            Some(item) => {
                slots.push(Some(item));
            },
            None => {},
        }
    }
    let mut r: Vec<T> = Vec::new();
    let mut j: usize = 0;
    while j < order.len()
        invariant
            all.len() == length,
            order@.len() == length,
            slots@.len() == length,
            j <= length,
            r@.len() == j,
            forall|k: int| 0 <= k < order@.len() ==> #[trigger] order@[k] < length,
            order@.no_duplicates(),
            forall|k: int| 0 <= k < j ==> #[trigger] r@[k] == all[order@[k] as int],
            forall|k: int|
                j <= k < length ==> slots@[#[trigger] order@[k] as int] == Some(
                    all[order@[k] as int],
                ),
        decreases length - j,
    {
        let row = order[j];
        let mut item: Option<T> = None;
        let ghost before = slots@;
        std::mem::swap(&mut slots[row], &mut item);
        assert(slots@ =~= before.update(row as int, None));
        match item {
            Some(item) => {
                r.push(item);
            },
            None => {
                assert(false);
            },
        }
        j += 1;
    }
    r
}

/// A stable order lists no row twice.
pub proof fn lemma_order_has_no_duplicates<K: SpecKey>(keys: Seq<K>, order: Seq<usize>)
    requires
        is_stable_order(keys, 0, keys.len() as int, order),
    ensures
        order.no_duplicates(),
{
    assert forall|i: int, j: int| 0 <= i < order.len() && 0 <= j < order.len() && i != j implies order[i]
        != order[j] by {
        if i < j {
            assert(comes_before(keys, order[i] as int, order[j] as int));
        } else {
            assert(comes_before(keys, order[j] as int, order[i] as int));
        }
    }
}

} // verus!
