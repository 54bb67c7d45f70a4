//! Stable sorting by a key.
use vstd::prelude::*;

use crate::orderings::is_ordering;
use crate::types::{two_to_256, U256};

verus! {

/// A key to sort by.
pub trait SortKey: Sized {
    /// The place of the key: smaller ranks come first.
    spec fn rank(self) -> int;

    /// Whether this key comes before `other`.
    fn comes_before(&self, other: &Self) -> (r: bool)
        ensures
            r == (self.rank() < other.rank()),
    ;
}

impl SortKey for usize {
    open spec fn rank(self) -> int {
        self as int
    }

    fn comes_before(&self, other: &usize) -> (r: bool) {
        *self < *other
    }
}

impl SortKey for u64 {
    open spec fn rank(self) -> int {
        self as int
    }

    fn comes_before(&self, other: &u64) -> (r: bool) {
        *self < *other
    }
}

impl SortKey for i128 {
    open spec fn rank(self) -> int {
        self as int
    }

    fn comes_before(&self, other: &i128) -> (r: bool) {
        *self < *other
    }
}

impl SortKey for U256 {
    open spec fn rank(self) -> int {
        self.value() as int
    }

    fn comes_before(&self, other: &U256) -> (r: bool) {
        self.is_less_than(*other)
    }
}

/// Sorts by decreasing amount.
pub struct Descending {
    pub amount: U256,
}

impl SortKey for Descending {
    open spec fn rank(self) -> int {
        -(self.amount.value() as int)
    }

    fn comes_before(&self, other: &Descending) -> (r: bool) {
        other.amount.is_less_than(self.amount)
    }
}

/// Sorts by decreasing length, and by decreasing amount among equal lengths.
pub struct LongestFirst {
    pub length: usize,
    pub amount: U256,
}

impl SortKey for LongestFirst {
    open spec fn rank(self) -> int {
        -(self.length * two_to_256() + self.amount.value())
    }

    fn comes_before(&self, other: &LongestFirst) -> (r: bool) {
        proof {
            lemma_length_decides(*self, *other);
            lemma_length_decides(*other, *self);
        }
        self.length > other.length || (self.length == other.length && other.amount.is_less_than(
            self.amount,
        ))
    }
}

proof fn lemma_length_decides(a: LongestFirst, b: LongestFirst)
    ensures
        a.length > b.length ==> a.rank() < b.rank(),
{
    crate::types::lemma_value_bound(a.amount);
    crate::types::lemma_value_bound(b.amount);
    let m = two_to_256() as int;
    if a.length > b.length {
        assert(a.length * m >= b.length * m + m) by (nonlinear_arith)
            requires
                a.length >= b.length + 1,
                m >= 0,
        ;
    }
}

/// The ranks of the keys.
pub open spec fn ranks<K: SortKey>(keys: Seq<K>) -> Seq<int> {
    Seq::new(keys.len(), |i: int| keys[i].rank())
}

/// `p` lists all positions by increasing rank, and equal ranks by position.
pub open spec fn is_stable_order(ranks: Seq<int>, p: Seq<usize>) -> bool {
    &&& is_ordering(p, ranks.len() as int)
    &&& forall|i: int, j: int|
        0 <= i < j < p.len() ==> {
            let a = #[trigger] p[i];
            let b = #[trigger] p[j];
            ranks[a as int] < ranks[b as int] || (ranks[a as int] == ranks[b as int] && a < b)
        }
}

/// The items at the given positions.
pub open spec fn picked<T>(items: Seq<T>, p: Seq<usize>) -> Seq<T> {
    Seq::new(p.len(), |i: int| items[p[i] as int])
}

/// `sorted` holds the items by increasing rank, and items of equal rank as they stood.
pub open spec fn is_stably_sorted<T>(sorted: Seq<T>, items: Seq<T>, ranks: Seq<int>) -> bool {
    exists|p: Seq<usize>| #[trigger] is_stable_order(ranks, p) && sorted == picked(items, p)
}

/// The positions `from..` are listed by increasing rank, and equal ranks by position.
spec fn orders_suffix(ranks: Seq<int>, p: Seq<usize>, from: int) -> bool {
    &&& p.no_duplicates()
    &&& forall|i: int| 0 <= i < p.len() ==> from <= (#[trigger] p[i] as int) < ranks.len()
    &&& p.len() == ranks.len() - from
    &&& forall|i: int, j: int|
        0 <= i < j < p.len() ==> {
            let a = #[trigger] p[i];
            let b = #[trigger] p[j];
            ranks[a as int] < ranks[b as int] || (ranks[a as int] == ranks[b as int] && a < b)
        }
}

proof fn lemma_insert_position(ranks: Seq<int>, p: Seq<usize>, from: int, at: int)
    requires
        0 < from <= ranks.len() <= usize::MAX,
        orders_suffix(ranks, p, from),
        0 <= at <= p.len(),
        forall|i: int| 0 <= i < at ==> ranks[#[trigger] p[i] as int] < ranks[from - 1],
        at < p.len() ==> ranks[from - 1] <= ranks[p[at] as int],
    ensures
        orders_suffix(ranks, p.insert(at, (from - 1) as usize), from - 1),
{
    let x = (from - 1) as usize;
    let q = p.insert(at, x);
    assert forall|i: int, j: int| 0 <= i < j < q.len() implies {
        let a = #[trigger] q[i];
        let b = #[trigger] q[j];
        ranks[a as int] < ranks[b as int] || (ranks[a as int] == ranks[b as int] && a < b)
    } by {
        let pi = if i < at { i } else { i - 1 };
        let pj = if j < at { j } else { j - 1 };
        if i == at {
            assert(q[j] == p[pj]);
            assert(from <= p[pj] as int);
            if pj > at {
                let a = p[at];
                let b = p[pj];
            }
        } else if j == at {
            assert(q[i] == p[i]);
        } else {
            assert(q[i] == p[pi] && q[j] == p[pj]);
        }
    }
    assert(q.no_duplicates()) by {
        assert forall|i: int, j: int| 0 <= i < q.len() && 0 <= j < q.len() && i != j implies q[i]
            != q[j] by {
            let pi = if i < at { i } else { i - 1 };
            let pj = if j < at { j } else { j - 1 };
            if i == at {
                assert(q[j] == p[pj]);
            } else if j == at {
                assert(q[i] == p[pi]);
            } else {
                assert(q[i] == p[pi] && q[j] == p[pj]);
            }
        }
    }
    assert forall|i: int| 0 <= i < q.len() implies from - 1 <= (#[trigger] q[i] as int)
        < ranks.len() by {
        if i != at {
            let pi = if i < at { i } else { i - 1 };
            assert(q[i] == p[pi]);
        }
    }
}

/// Sorts the items by their keys; items with equal keys stay as they stood.
pub fn sort_stably<T, K: SortKey>(items: Vec<T>, keys: Vec<K>) -> (sorted: Vec<T>)
    requires
        items@.len() == keys@.len(),
    ensures
        is_stably_sorted(sorted@, items@, ranks(keys@)),
{
    let ghost all_ranks = ranks(keys@);
    let ghost all_items = items@;
    let ghost all_keys = keys@;
    let total: usize = items.len();
    let mut items = items;
    let mut keys = keys;
    let mut sorted: Vec<T> = Vec::new();
    let mut sorted_keys: Vec<K> = Vec::new();
    let ghost mut p: Seq<usize> = Seq::empty();
    while items.len() > 0
        invariant
            all_ranks == ranks(all_keys),
            all_items.len() == all_keys.len(),
            all_items.len() == total,
            items@.len() == keys@.len(),
            items@.len() <= all_items.len(),
            items@ == all_items.take(items@.len() as int),
            keys@ == all_keys.take(items@.len() as int),
            orders_suffix(all_ranks, p, items@.len() as int),
            sorted@ == picked(all_items, p),
            sorted_keys@ == picked(all_keys, p),
        decreases items@.len(),
    {
        let ghost from = items@.len() as int;
        let popped_key = keys.pop();
        let popped_item = items.pop();
        let key = popped_key.unwrap();
        let item = popped_item.unwrap();
        assert(key == all_keys[from - 1]);
        assert(item == all_items[from - 1]);
        let mut at: usize = 0;
        while at < sorted_keys.len() && sorted_keys[at].comes_before(&key)
            invariant
                at <= sorted_keys@.len(),
                0 < from <= all_keys.len(),
                all_ranks == ranks(all_keys),
                key == all_keys[from - 1],
                orders_suffix(all_ranks, p, from),
                sorted_keys@ == picked(all_keys, p),
                forall|i: int|
                    0 <= i < at ==> all_ranks[#[trigger] p[i] as int] < all_ranks[from - 1],
            decreases sorted_keys@.len() - at,
        {
            at = at + 1;
        }
        proof {
            lemma_insert_position(all_ranks, p, from, at as int);
        }
        sorted.insert(at, item);
        sorted_keys.insert(at, key);
        proof {
            let q = p.insert(at as int, (from - 1) as usize);
            assert(sorted@ =~= picked(all_items, q));
            assert(sorted_keys@ =~= picked(all_keys, q));
            p = q;
            assert(items@ =~= all_items.take(from - 1));
            assert(keys@ =~= all_keys.take(from - 1));
        }
    }
    assert(is_stable_order(all_ranks, p));
    sorted
}

/// A stable order is determined by the ranks.
pub proof fn law_stable_order_is_unique(ranks: Seq<int>, p: Seq<usize>, q: Seq<usize>)
    requires
        ranks.len() <= usize::MAX,
        is_stable_order(ranks, p),
        is_stable_order(ranks, q),
    ensures
        p == q,
{
    let n = ranks.len() as int;
    if p != q {
        assert(!(p =~= q));
        let d = choose|d: int|
            0 <= d < n && p[d] != q[d] && (forall|i: int| 0 <= i < d ==> p[i] == q[i]);
        assert(exists|d: int|
            0 <= d < n && p[d] != q[d] && (forall|i: int| 0 <= i < d ==> p[i] == q[i])) by {
            lemma_first_difference(p, q, n);
        }
        crate::orderings::lemma_ordering_is_onto(q, n, p[d]);
        crate::orderings::lemma_ordering_is_onto(p, n, q[d]);
        let i = choose|i: int| 0 <= i < q.len() && q[i] == p[d];
        let j = choose|j: int| 0 <= j < p.len() && p[j] == q[d];
        if i < d {
            assert(p[i] == q[i]);
        }
        if j < d {
            assert(p[j] == q[j]);
        }
        assert(i > d && j > d);
        assert(q[d] == p[j] && q[i] == p[d]);
    }
}

proof fn lemma_first_difference(p: Seq<usize>, q: Seq<usize>, n: int)
    requires
        p.len() == n,
        q.len() == n,
        p != q,
    ensures
        exists|d: int|
            0 <= d < n && p[d] != q[d] && (forall|i: int| 0 <= i < d ==> p[i] == q[i]),
    decreases n,
{
    assert(!(p =~= q));
    if p[n - 1] != q[n - 1] && p.drop_last() == q.drop_last() {
        assert forall|i: int| 0 <= i < n - 1 implies p[i] == q[i] by {
            assert(p.drop_last()[i] == q.drop_last()[i]);
        }
        assert(p[n - 1] != q[n - 1]);
    } else {
        if p.drop_last() == q.drop_last() {
            assert(p =~= p.drop_last().push(p[n - 1]));
            assert(q =~= q.drop_last().push(q[n - 1]));
        }
        lemma_first_difference(p.drop_last(), q.drop_last(), n - 1);
        let a = p.drop_last();
        let b = q.drop_last();
        let d = choose|d: int|
            0 <= d < n - 1 && a[d] != b[d] && (forall|i: int| 0 <= i < d ==> a[i] == b[i]);
        assert(p[d] == a[d] && q[d] == b[d]);
        assert forall|i: int| 0 <= i < d implies p[i] == q[i] by {
            assert(a[i] == b[i]);
        }
    }
}

} // verus!
