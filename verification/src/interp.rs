//! Finding where an angle falls among the measured angles of a photometric
//! table: the two neighbouring measured angles that interpolation blends.
use vstd::prelude::*;
use crate::number::{f32_bits_le, f32_is_nan, f32_le, f32_order_key};

verus! {

/// Bisection of `a[lo..=hi]` for `target`: halves the bracket, keeping the upper
/// half where the middle angle is at most the target, until its ends are adjacent.
pub open spec fn bisect(a: Seq<u32>, target: u32, lo: int, hi: int) -> (int, int)
    decreases hi - lo,
{
    if hi - lo <= 1 {
        (lo, hi)
    } else {
        let mid = (lo + hi) / 2;
        if f32_le(a[mid], target) {
            bisect(a, target, mid, hi)
        } else {
            bisect(a, target, lo, mid)
        }
    }
}

/// The bracket (low index, high index) of `target` among the angles `a`: both 0
/// where there are fewer than two angles or the target is at most the first; both
/// the last index where the target is at least the last; otherwise the bisection
/// of the whole table.
pub open spec fn interp_bracket_of(a: Seq<u32>, target: u32) -> (int, int) {
    if a.len() <= 1 {
        (0, 0)
    } else if f32_le(target, a[0]) {
        (0, 0)
    } else if f32_le(a[a.len() - 1], target) {
        (a.len() - 1, a.len() - 1)
    } else {
        bisect(a, target, 0, a.len() - 1)
    }
}

/// Whether `a` is sorted: no NaN, each angle at most every later one.
pub open spec fn angles_sorted(a: Seq<u32>) -> bool {
    forall|i: int, j: int| 0 <= i <= j < a.len() ==> f32_le(#[trigger] a[i], #[trigger] a[j])
}

/// Bisection keeps its bracket: a high end above the target, a low end at most the
/// target (unless it is the first angle), and ends one apart.
pub proof fn lemma_bisect_bracket(a: Seq<u32>, target: u32, lo: int, hi: int)
    requires
        0 <= lo < hi < a.len(),
        !f32_le(a[hi], target),
        lo == 0 || f32_le(a[lo], target),
    ensures
        ({
            let (l, h) = bisect(a, target, lo, hi);
            &&& lo <= l < h <= hi
            &&& h == l + 1
            &&& !f32_le(a[h], target)
            &&& (l == 0 || f32_le(a[l], target))
        }),
    decreases hi - lo,
{
    if hi - lo > 1 {
        let mid = (lo + hi) / 2;
        if f32_le(a[mid], target) {
            lemma_bisect_bracket(a, target, mid, hi);
        } else {
            lemma_bisect_bracket(a, target, lo, mid);
        }
    }
}

/// Computes `interp_bracket_of`: the two table indices between which `target` falls.
pub fn interp_bracket(angles: &[u32], target: u32) -> (r: (usize, usize))
    ensures
        r.0 == interp_bracket_of(angles@, target).0,
        r.1 == interp_bracket_of(angles@, target).1,
        r.0 <= r.1,
        angles@.len() > 0 ==> r.1 < angles@.len(),
        angles@.len() >= 2 && !f32_le(target, angles@[0]) && !f32_le(
            angles@[angles@.len() - 1],
            target,
        ) ==> {
            &&& r.1 == r.0 + 1
            &&& !f32_le(angles@[r.1 as int], target)
            &&& (r.0 == 0 || f32_le(angles@[r.0 as int], target))
        },
{
    let n = angles.len();
    if n <= 1 {
        return (0, 0);
    }
    if f32_bits_le(target, angles[0]) {
        return (0, 0);
    }
    let last = n - 1;
    if f32_bits_le(angles[last], target) {
        return (last, last);
    }
    let mut lo: usize = 0;
    let mut hi: usize = last;
    proof {
        lemma_bisect_bracket(angles@, target, 0, last as int);
    }
    while hi - lo > 1
        invariant
            lo < hi <= last < n == angles@.len(),
            bisect(angles@, target, lo as int, hi as int) == bisect(angles@, target, 0, last as int),
        decreases hi - lo,
    {
        let mid = lo + (hi - lo) / 2;
        assert(mid == (lo + hi) / 2);
        if f32_bits_le(angles[mid], target) {
            lo = mid;
        } else {
            hi = mid;
        }
    }
    (lo, hi)
}

/// For sorted angles and a target that is no NaN, the bracket's low index is the
/// last angle at most the target, and its high index the first angle above it
/// (where the target lies strictly inside the table's range).
pub proof fn lemma_sorted_bracket(a: Seq<u32>, target: u32)
    requires
        angles_sorted(a),
        !f32_is_nan(target),
        a.len() >= 2,
        !f32_le(target, a[0]),
        !f32_le(a[a.len() - 1], target),
    ensures
        ({
            let (l, h) = interp_bracket_of(a, target);
            &&& h == l + 1
            &&& forall|i: int| 0 <= i <= l ==> f32_le(#[trigger] a[i], target)
            &&& forall|i: int| h <= i < a.len() ==> !f32_le(#[trigger] a[i], target)
        }),
{
    lemma_bisect_bracket(a, target, 0, a.len() - 1);
    let (l, h) = interp_bracket_of(a, target);
    assert(f32_le(a[0], a[0]));
    assert(f32_le(a[l], target)) by {
        if l == 0 {
            assert(f32_order_key(target) > f32_order_key(a[0]));
        }
    }
    assert forall|i: int| 0 <= i <= l implies f32_le(#[trigger] a[i], target) by {
        assert(f32_le(a[i], a[l]));
    }
    assert forall|i: int| h <= i < a.len() implies !f32_le(#[trigger] a[i], target) by {
        assert(f32_le(a[h], a[i]));
    }
}

} // verus!
