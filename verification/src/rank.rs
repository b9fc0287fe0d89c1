//! Ranking by scores.
//!
//! Scores are doubles. Their bits are turned into keys that are ordered as the scores are, and
//! ranking is done on the keys.

use vstd::prelude::*;

use crate::sort::sort_indices;
use crate::sort::index_before;

verus! {

/// Where a double stands among all doubles, as a number: its magnitude, negative if its sign bit
/// is set. Both zeros stand in one place.
pub open spec fn float_place(bits: u64) -> int {
    if bits < 0x8000_0000_0000_0000 {
        bits as int
    } else {
        0x8000_0000_0000_0000 - bits
    }
}

/// A key that orders as the double with the given bits does.
pub fn order_key(bits: u64) -> (key: u64)
    ensures
        key == float_place(bits) + 0x8000_0000_0000_0000,
{
    if bits < 0x8000_0000_0000_0000 {
        bits + 0x8000_0000_0000_0000
    } else {
        0x8000_0000_0000_0000 - (bits - 0x8000_0000_0000_0000)
    }
}

/// Position `i` ranks before position `j`: its key is greater, or the keys are equal and it
/// stands first.
pub open spec fn ranks_before(keys: Seq<u64>, i: int, j: int) -> bool {
    keys[i] > keys[j] || (keys[i] == keys[j] && i < j)
}

/// `out` lists the positions of the `k` greatest keys, or of all if there are fewer, in
/// descending order; of equal keys the one that stands first comes first.
pub open spec fn is_top(keys: Seq<u64>, out: Seq<usize>, k: nat) -> bool {
    &&& out.len() == if k < keys.len() {
        k
    } else {
        keys.len()
    }
    &&& forall|x: int| 0 <= x < out.len() ==> (#[trigger] out[x]) < keys.len()
    &&& forall|x: int, y: int|
        0 <= x < y < out.len() ==> ranks_before(keys, #[trigger] out[x] as int, #[trigger] out[y] as int)
    &&& forall|x: int, i: usize|
        0 <= x < out.len() && i < keys.len() && !#[trigger] out.contains(i) ==> ranks_before(
            keys,
            #[trigger] out[x] as int,
            i as int,
        )
}

/// The positions of the `k` greatest keys, in descending order.
pub fn top_ranked(keys: &Vec<u64>, k: usize) -> (out: Vec<usize>)
    ensures
        is_top(keys@, out@, k as nat),
{
    let mut inverted: Vec<u64> = Vec::new();
    let mut i: usize = 0;
    while i < keys.len()
        invariant
            i <= keys@.len(),
            inverted@.len() == i,
            forall|j: int| 0 <= j < i ==> (#[trigger] inverted@[j]) == u64::MAX - keys@[j],
        decreases keys@.len() - i,
    {
        inverted.push(u64::MAX - keys[i]);
        i = i + 1;
    }
    let order = sort_indices(&inverted);
    let n: usize = if k < order.len() {
        k
    } else {
        order.len()
    };
    let mut out: Vec<usize> = Vec::new();
    let mut x: usize = 0;
    while x < n
        invariant
            x <= n <= order@.len(),
            out@ == order@.take(x as int),
        decreases n - x,
    {
        out.push(order[x]);
        x = x + 1;
        assert(out@ =~= order@.take(x as int));
    }
    proof {
        assert forall|a: int, b: int| 0 <= a < b < order@.len() implies ranks_before(
            keys@,
            #[trigger] order@[a] as int,
            #[trigger] order@[b] as int,
        ) by {
            assert(index_before(inverted@, order@[a] as int, order@[b] as int));
        }
        assert forall|a: int, i: usize|
            0 <= a < out@.len() && i < keys@.len() && !#[trigger] out@.contains(i) implies ranks_before(
            keys@,
            #[trigger] out@[a] as int,
            i as int,
        ) by {
            assert(order@.contains(i));
            let b = choose|b: int| 0 <= b < order@.len() && order@[b] == i;
            if b < n {
                assert(out@[b] == i);
            }
            assert(ranks_before(keys@, order@[a] as int, order@[b] as int));
        }
    }
    out
}

/// Position `r` is the last one with the greatest key.
pub open spec fn is_last_maximum(keys: Seq<u64>, r: int) -> bool {
    &&& 0 <= r < keys.len()
    &&& forall|i: int| 0 <= i < keys.len() ==> (#[trigger] keys[i]) <= keys[r]
    &&& forall|i: int| r < i < keys.len() ==> (#[trigger] keys[i]) < keys[r]
}

/// The last position with the greatest key.
pub fn last_maximum(keys: &Vec<u64>) -> (r: usize)
    requires
        keys@.len() > 0,
    ensures
        is_last_maximum(keys@, r as int),
{
    let mut r: usize = 0;
    let mut i: usize = 1;
    while i < keys.len()
        invariant
            1 <= i <= keys@.len(),
            is_last_maximum(keys@.take(i as int), r as int),
        decreases keys@.len() - i,
    {
        let ghost before = keys@.take(i as int);
        let ghost after = keys@.take(i + 1);
        proof {
            assert forall|j: int| 0 <= j < i implies (#[trigger] after[j]) == before[j] by {}
            assert(after[i as int] == keys@[i as int]);
        }
        if keys[i] >= keys[r] {
            r = i;
        }
        i = i + 1;
    }
    assert(keys@.take(i as int) =~= keys@);
    r
}

/// Position `r` is the first one with the greatest key, if that is above `floor`; else it is 0.
pub open spec fn is_first_above(keys: Seq<u64>, floor: u64, r: int) -> bool {
    if forall|i: int| 0 <= i < keys.len() ==> (#[trigger] keys[i]) <= floor {
        r == 0
    } else {
        &&& 0 <= r < keys.len()
        &&& keys[r] > floor
        &&& forall|i: int| 0 <= i < keys.len() ==> (#[trigger] keys[i]) <= keys[r]
        &&& forall|i: int| 0 <= i < r ==> (#[trigger] keys[i]) < keys[r]
    }
}

/// The first position with the greatest key, if that is above `floor`; else 0.
pub fn first_above(keys: &Vec<u64>, floor: u64) -> (r: usize)
    ensures
        is_first_above(keys@, floor, r as int),
{
    let mut r: usize = 0;
    let mut best: u64 = floor;
    let mut i: usize = 0;
    while i < keys.len()
        invariant
            i <= keys@.len(),
            best >= floor,
            forall|j: int| 0 <= j < i ==> (#[trigger] keys@[j]) <= best,
            best == floor ==> r == 0,
            best > floor ==> r < i && keys@[r as int] == best && forall|j: int| 0 <= j < r ==> (#[trigger] keys@[j]) < best,
        decreases keys@.len() - i,
    {
        if keys[i] > best {
            best = keys[i];
            r = i;
        }
        i = i + 1;
    }
    r
}

/// What the best places are: as many as asked for, if there are so many; no place twice; greater
/// keys first, and of equal keys the earlier place first; no place that is left out has a greater
/// key than one that is taken, and none with an equal key comes before it.
pub proof fn law_top_is_best(keys: Seq<u64>, out: Seq<usize>, k: nat)
    requires
        is_top(keys, out, k),
    ensures
        out.len() <= k,
        out.len() < k ==> out.len() == keys.len(),
        out.len() <= keys.len(),
        forall|x: int| 0 <= x < out.len() ==> (#[trigger] out[x]) < keys.len(),
        forall|x: int, y: int|
            0 <= x < y < out.len() ==> keys[(#[trigger] out[x]) as int] >= keys[(#[trigger] out[y]) as int],
        forall|x: int, y: int|
            0 <= x < y < out.len() && keys[(#[trigger] out[x]) as int] == keys[(#[trigger] out[y]) as int] ==> out[x]
                < out[y],
        forall|x: int, i: usize|
            0 <= x < out.len() && i < keys.len() && !(#[trigger] out.contains(i)) ==> keys[i as int] <= keys[(
            #[trigger] out[x]) as int] && (keys[i as int] == keys[out[x] as int] ==> out[x] < i),
{
}

/// There is only one list of best places.
pub proof fn law_top_is_unique(keys: Seq<u64>, a: Seq<usize>, b: Seq<usize>, k: nat)
    requires
        is_top(keys, a, k),
        is_top(keys, b, k),
    ensures
        a == b,
{
    assert forall|x: int| 0 <= x < a.len() implies a[x] == b[x] by {
        lemma_same_top(keys, a, b, k, x);
    }
    assert(a =~= b);
}

proof fn lemma_same_top(keys: Seq<u64>, a: Seq<usize>, b: Seq<usize>, k: nat, x: int)
    requires
        is_top(keys, a, k),
        is_top(keys, b, k),
        0 <= x < a.len(),
    ensures
        a[x] == b[x],
    decreases x,
{
    assert forall|y: int| 0 <= y < x implies a[y] == b[y] by {
        lemma_same_top(keys, a, b, k, y);
    }
    if a[x] != b[x] {
        lemma_not_before(keys, a, b, k, x);
        lemma_not_before(keys, b, a, k, x);
    }
}

proof fn lemma_not_before(keys: Seq<u64>, a: Seq<usize>, b: Seq<usize>, k: nat, x: int)
    requires
        is_top(keys, a, k),
        is_top(keys, b, k),
        0 <= x < a.len(),
        forall|y: int| 0 <= y < x ==> a[y] == b[y],
        a[x] != b[x],
    ensures
        ranks_before(keys, b[x] as int, a[x] as int),
{
    if b.contains(a[x]) {
        let y = choose|y: int| 0 <= y < b.len() && b[y] == a[x];
        if y < x {
            assert(a[y] == b[y]);
            assert(ranks_before(keys, a[y] as int, a[x] as int));
        }
        assert(ranks_before(keys, b[x] as int, b[y] as int));
    } else {
        assert(ranks_before(keys, b[x] as int, a[x] as int));
    }
}

/// The place of the greatest key holds a key that none exceeds, and no place behind it holds the
/// same one; there is only one such place.
pub proof fn law_last_maximum_is_greatest(keys: Seq<u64>, r: int, i: int)
    requires
        is_last_maximum(keys, r),
        0 <= i < keys.len(),
    ensures
        0 <= r < keys.len(),
        keys[i] <= keys[r],
        keys[i] == keys[r] ==> i <= r,
        is_last_maximum(keys, i) ==> i == r,
{
}

/// Of the keys above a floor the greatest is taken, at its first place; if there is none above it,
/// the first place is.
pub proof fn law_first_above_is_greatest(keys: Seq<u64>, floor: u64, r: int, i: int)
    requires
        is_first_above(keys, floor, r),
        0 <= i < keys.len(),
    ensures
        keys[i] > floor ==> 0 <= r < keys.len() && keys[r] > floor && keys[i] <= keys[r] && (keys[i] == keys[r] ==> r
            <= i),
        keys[i] > floor && is_first_above(keys, floor, i) ==> i == r,
{
}

/// The places of doubles are ordered as the doubles are: those with a sign bit come before those
/// without, the greater magnitude first, and among those without the lesser magnitude comes first.
/// Only the two zeros share a place.
pub proof fn law_places_order_doubles(a: u64, b: u64)
    ensures
        ({
            let sign: u64 = 0x8000_0000_0000_0000;
            &&& a < sign && b < sign ==> (float_place(a) < float_place(b) <==> a < b)
            &&& a >= sign && b >= sign ==> (float_place(a) < float_place(b) <==> a > b)
            &&& a >= sign && b < sign ==> float_place(a) <= float_place(b)
            &&& float_place(a) == float_place(b) <==> a == b || (a == 0 && b == sign) || (a == sign && b == 0)
        }),
{
}

} // verus!
