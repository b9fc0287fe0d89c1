//! Stable sorting, by index.
//!
//! [`sort_indices`] gives the positions of a list in the order of the values that
//! stand there; of equal values the one that stands first comes first.

use vstd::prelude::*;

verus! {

/// A type with a strict total order that can be computed.
pub trait Ordered: Sized {
    /// `self` comes before `other`.
    spec fn precedes(self, other: Self) -> bool;

    /// The order is strict, total and transitive.
    proof fn order_is_total(a: Self, b: Self, c: Self)
        ensures
            !a.precedes(a),
            a.precedes(b) || b.precedes(a) || a == b,
            a.precedes(b) ==> !b.precedes(a),
            a.precedes(b) && b.precedes(c) ==> a.precedes(c),
    ;

    /// Whether `self` comes before `other`.
    fn comes_before(&self, other: &Self) -> (r: bool)
        ensures
            r == self.precedes(*other),
    ;
}

impl Ordered for u64 {
    open spec fn precedes(self, other: u64) -> bool {
        self < other
    }

    proof fn order_is_total(a: u64, b: u64, c: u64) {
    }

    fn comes_before(&self, other: &u64) -> (r: bool) {
        *self < *other
    }
}

/// Position `i` comes before position `j`: its value does, or the values are equal
/// and it stands first.
pub open spec fn index_before<T: Ordered>(keys: Seq<T>, i: int, j: int) -> bool {
    keys[i].precedes(keys[j]) || (keys[i] == keys[j] && i < j)
}

/// `order` lists the positions from `lo` up to `hi`, each once, in ascending order of
/// the values that stand there.
pub open spec fn is_sorted_order<T: Ordered>(keys: Seq<T>, order: Seq<usize>, lo: int, hi: int) -> bool {
    &&& order.len() == hi - lo
    &&& forall|x: int| 0 <= x < order.len() ==> lo <= #[trigger] order[x] < hi
    &&& forall|i: usize| lo <= i < hi ==> #[trigger] order.contains(i)
    &&& forall|x: int, y: int|
        0 <= x < y < order.len() ==> index_before(keys, #[trigger] order[x] as int, #[trigger] order[y] as int)
}

pub proof fn lemma_index_before_total<T: Ordered>(keys: Seq<T>, i: int, j: int, k: int)
    ensures
        !index_before(keys, i, i),
        i != j ==> index_before(keys, i, j) || index_before(keys, j, i),
        index_before(keys, i, j) ==> !index_before(keys, j, i),
        index_before(keys, i, j) && index_before(keys, j, k) ==> index_before(keys, i, k),
{
    T::order_is_total(keys[i], keys[j], keys[k]);
    T::order_is_total(keys[j], keys[k], keys[i]);
}

/// Merges the sorted orders of two adjacent stretches.
fn merge<T: Ordered>(keys: &Vec<T>, a: &Vec<usize>, b: &Vec<usize>, lo: usize, mid: usize, hi: usize) -> (out: Vec<
    usize,
>)
    requires
        lo <= mid <= hi <= keys@.len(),
        is_sorted_order(keys@, a@, lo as int, mid as int),
        is_sorted_order(keys@, b@, mid as int, hi as int),
    ensures
        is_sorted_order(keys@, out@, lo as int, hi as int),
{
    let mut out: Vec<usize> = Vec::new();
    let mut i: usize = 0;
    let mut j: usize = 0;
    while i < a.len() || j < b.len()
        invariant
            lo <= mid <= hi <= keys@.len(),
            is_sorted_order(keys@, a@, lo as int, mid as int),
            is_sorted_order(keys@, b@, mid as int, hi as int),
            i <= a@.len(),
            j <= b@.len(),
            out@.len() == i + j,
            forall|x: int| 0 <= x < out@.len() ==> lo <= #[trigger] out@[x] < hi,
            forall|x: int| 0 <= x < i ==> out@.contains(#[trigger] a@[x]),
            forall|x: int| 0 <= x < j ==> out@.contains(#[trigger] b@[x]),
            forall|x: int, y: int|
                0 <= x < y < out@.len() ==> index_before(
                    keys@,
                    #[trigger] out@[x] as int,
                    #[trigger] out@[y] as int,
                ),
            forall|x: int, y: int|
                0 <= x < out@.len() && i <= y < a@.len() ==> index_before(
                    keys@,
                    #[trigger] out@[x] as int,
                    #[trigger] a@[y] as int,
                ),
            forall|x: int, y: int|
                0 <= x < out@.len() && j <= y < b@.len() ==> index_before(
                    keys@,
                    #[trigger] out@[x] as int,
                    #[trigger] b@[y] as int,
                ),
        decreases a@.len() - i + b@.len() - j,
    {
        let ghost before = out@;
        let take_left: bool = if j >= b.len() {
            true
        } else if i >= a.len() {
            false
        } else {
            !keys[b[j]].comes_before(&keys[a[i]])
        };
        let next: usize = if take_left {
            a[i]
        } else {
            b[j]
        };
        out.push(next);
        proof {
            assert forall|y: int| i <= y < a@.len() && !(take_left && y == i) implies index_before(
                keys@,
                next as int,
                #[trigger] a@[y] as int,
            ) by {
                if !take_left {
                    T::order_is_total(keys@[b@[j as int] as int], keys@[a@[i as int] as int], keys@[a@[y] as int]);
                    lemma_index_before_total(keys@, next as int, a@[i as int] as int, a@[y] as int);
                }
            }
            assert forall|y: int| j <= y < b@.len() && !(!take_left && y == j) implies index_before(
                keys@,
                next as int,
                #[trigger] b@[y] as int,
            ) by {
                if take_left {
                    T::order_is_total(keys@[a@[i as int] as int], keys@[b@[j as int] as int], keys@[b@[y] as int]);
                    lemma_index_before_total(keys@, next as int, b@[j as int] as int, b@[y] as int);
                }
            }
            assert forall|x: int| 0 <= x < i implies out@.contains(#[trigger] a@[x]) by {
                let k = choose|k: int| 0 <= k < before.len() && before[k] == a@[x];
                assert(out@[k] == a@[x]);
            }
            assert forall|x: int| 0 <= x < j implies out@.contains(#[trigger] b@[x]) by {
                let k = choose|k: int| 0 <= k < before.len() && before[k] == b@[x];
                assert(out@[k] == b@[x]);
            }
            assert(out@[out@.len() - 1] == next);
        }
        if take_left {
            i = i + 1;
        } else {
            j = j + 1;
        }
    }
    proof {
        assert forall|k: usize| lo <= k < hi implies #[trigger] out@.contains(k) by {
            if k < mid {
                assert(a@.contains(k));
                let x = choose|x: int| 0 <= x < a@.len() && a@[x] == k;
                assert(out@.contains(a@[x]));
            } else {
                assert(b@.contains(k));
                let x = choose|x: int| 0 <= x < b@.len() && b@[x] == k;
                assert(out@.contains(b@[x]));
            }
        }
    }
    out
}

/// The sorted order of the stretch from `lo` up to `hi`.
fn sort_range<T: Ordered>(keys: &Vec<T>, lo: usize, hi: usize) -> (out: Vec<usize>)
    requires
        lo <= hi <= keys@.len(),
    ensures
        is_sorted_order(keys@, out@, lo as int, hi as int),
    decreases hi - lo,
{
    if hi - lo == 0 {
        return Vec::new();
    }
    if hi - lo == 1 {
        let mut out: Vec<usize> = Vec::new();
        out.push(lo);
        assert(out@[0] == lo);
        return out;
    }
    let mid: usize = lo + (hi - lo) / 2;
    let a = sort_range(keys, lo, mid);
    let b = sort_range(keys, mid, hi);
    merge(keys, &a, &b, lo, mid, hi)
}

/// The positions of a list in ascending order of its values; equal values keep their
/// order.
pub fn sort_indices<T: Ordered>(keys: &Vec<T>) -> (order: Vec<usize>)
    ensures
        is_sorted_order(keys@, order@, 0, keys@.len() as int),
{
    sort_range(keys, 0, keys.len())
}

} // verus!
