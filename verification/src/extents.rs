//! What the numbers of a box and of a split are, in plain numbers.

use crate::bounds::{greatest_of, least_of, spread_of, widest_of, BoxModel};
use crate::means::orders_exactly;
use crate::metric::Metric;
use crate::nearest::{held, lemma_distance_sum, lemma_gap, roots_exactly};
use crate::scalar::{Scalar, Wide};
use crate::unity::reads_both;
use crate::weights::reads_exactly;
use vstd::prelude::*;

verus! {

/// The smaller and the larger of two numbers are what they say.
pub open spec fn picks_exactly<S: Metric>(val: spec_fn(S) -> real) -> bool {
    &&& forall|a: S, b: S| #[trigger]
        val(S::smaller_of(a, b)) == (if val(a) <= val(b) {
            val(a)
        } else {
            val(b)
        })
    &&& forall|a: S, b: S| #[trigger]
        val(S::larger_of(a, b)) == (if val(a) >= val(b) {
            val(a)
        } else {
            val(b)
        })
}

/// A box grows by a point, or by another box, just as far as it has to.
pub proof fn boxes_grow_no_further_than_needed<S: Metric>(
    val: spec_fn(S) -> real,
    a: BoxModel<S>,
    p: Seq<S>,
    b: BoxModel<S>,
    c: int,
)
    requires
        picks_exactly(val),
        0 <= c < 3,
    ensures
        ({
            let grown = a.with(p);
            let joint = a.joined(b);
            &&& val(grown.min[c]) <= val(a.min[c]) && val(grown.min[c]) <= val(p[c])
            &&& val(grown.max[c]) >= val(a.max[c]) && val(grown.max[c]) >= val(p[c])
            &&& val(grown.min[c]) == val(a.min[c]) || val(grown.min[c]) == val(p[c])
            &&& val(grown.max[c]) == val(a.max[c]) || val(grown.max[c]) == val(p[c])
            &&& val(joint.min[c]) <= val(a.min[c]) && val(joint.min[c]) <= val(b.min[c])
            &&& val(joint.max[c]) >= val(a.max[c]) && val(joint.max[c]) >= val(b.max[c])
            &&& val(joint.min[c]) == val(a.min[c]) || val(joint.min[c]) == val(b.min[c])
            &&& val(joint.max[c]) == val(a.max[c]) || val(joint.max[c]) == val(b.max[c])
        }),
{
}

/// The distance of a box is that of its nearest point, which is the point itself where it
/// is inside and else lies on the sides that are passed.
pub proof fn boxes_are_as_far_as_their_nearest_point<S: Metric, W: Wide<S>>(
    val: spec_fn(S) -> real,
    wal: spec_fn(W) -> real,
    b: BoxModel<S>,
    q: Seq<W>,
)
    requires
        reads_both::<S, W>(val, wal),
        orders_exactly(wal),
    ensures
        ({
            let x = held(wal(q[0]), val(b.min[0]), val(b.max[0])) - wal(q[0]);
            let y = held(wal(q[1]), val(b.min[1]), val(b.max[1])) - wal(q[1]);
            let z = held(wal(q[2]), val(b.min[2]), val(b.max[2])) - wal(q[2]);
            wal(b.distance2::<W>(q)) == x * x + y * y + z * z
        }),
{
    lemma_gap::<S, W>(val, wal, b, q, 0);
    lemma_gap::<S, W>(val, wal, b, q, 1);
    lemma_gap::<S, W>(val, wal, b, q, 2);
    lemma_distance_sum::<S, W>(wal, b, q);
}

/// The centroid of a box is half way between its ends.
pub proof fn centroids_are_half_way<S: Metric, W: Wide<S>>(
    val: spec_fn(S) -> real,
    wal: spec_fn(W) -> real,
    b: BoxModel<S>,
    c: int,
)
    requires
        reads_both::<S, W>(val, wal),
        0 <= c < 3,
    ensures
        wal(b.centroid::<W>()[c]) * 2 as real == val(b.min[c]) + val(b.max[c]),
{
    let (lo, hi) = (W::widen_of(b.min[c]), W::widen_of(b.max[c]));
    assert(wal(lo) == val(b.min[c]) && wal(hi) == val(b.max[c]));
    let sum = W::plus_of(lo, hi);
    let half = W::ratio_of(1, 2);
    assert(wal(half) == (1int as real) / (2int as real));
    let s = wal(sum);
    let h = wal(half);
    assert((s * h) * 2 as real == s) by (nonlinear_arith)
        requires
            h == (1 as real) / (2 as real),
    ;
    assert(wal(W::times_of(sum, half)) == s * h);
}

/// The square of the diagonal is the sum of the squares of the sides.
pub proof fn diagonals_span_their_box<S: Metric, W: Wide<S> + Metric>(
    val: spec_fn(S) -> real,
    wal: spec_fn(W) -> real,
    b: BoxModel<S>,
)
    requires
        reads_both::<S, W>(val, wal),
        roots_exactly(wal),
    ensures
        ({
            let x = val(b.max[0]) - val(b.min[0]);
            let y = val(b.max[1]) - val(b.min[1]);
            let z = val(b.max[2]) - val(b.min[2]);
            let d = wal(b.diagonal::<W>());
            d >= 0 as real && d * d == x * x + y * y + z * z
        }),
{
    lemma_extent::<S, W>(val, wal, b, 0);
    lemma_extent::<S, W>(val, wal, b, 1);
    lemma_extent::<S, W>(val, wal, b, 2);
    let first = W::plus_of(b.extent2::<W>(0), b.extent2::<W>(1));
    assert(wal(first) == wal(b.extent2::<W>(0)) + wal(b.extent2::<W>(1)));
    let all = W::plus_of(first, b.extent2::<W>(2));
    assert(wal(all) == wal(first) + wal(b.extent2::<W>(2)));
    assert(b.diagonal::<W>() == W::sqrt_of(all));
}

proof fn lemma_extent<S: Metric, W: Wide<S>>(
    val: spec_fn(S) -> real,
    wal: spec_fn(W) -> real,
    b: BoxModel<S>,
    c: int,
)
    requires
        reads_both::<S, W>(val, wal),
    ensures
        wal(b.extent2::<W>(c)) == (val(b.max[c]) - val(b.min[c])) * (val(b.max[c]) - val(b.min[c])),
        wal(b.extent2::<W>(c)) >= 0 as real,
{
    let s = S::minus_of(b.max[c], b.min[c]);
    assert(val(s) == val(b.max[c]) - val(b.min[c]));
    let t = W::widen_of(s);
    assert(wal(t) == val(s));
    let r = wal(t);
    assert(r * r >= 0 as real) by (nonlinear_arith);
    assert(wal(W::times_of(t, t)) == r * r);
}

// ---------------------------------------------------------------------------
// Splits
// ---------------------------------------------------------------------------
proof fn lemma_ends<W: Metric>(wal: spec_fn(W) -> real, centroids: Seq<[W; 3]>, faces: Seq<u32>, axis: int, k: int, i: int)
    requires
        picks_exactly(wal),
        0 <= i < k <= faces.len(),
    ensures
        wal(least_of(centroids, faces, axis, k)) <= wal(centroids[faces[i] as int]@[axis]),
        wal(greatest_of(centroids, faces, axis, k)) >= wal(centroids[faces[i] as int]@[axis]),
    decreases k,
{
    if i < k - 1 {
        lemma_ends(wal, centroids, faces, axis, k - 1, i);
    }
}

/// Faces are parted along the axis along which their centroids spread most: no two of them
/// are further apart along another axis than all of them spread along this one.
pub proof fn splits_run_across_the_longest_way<W: Metric>(
    wal: spec_fn(W) -> real,
    centroids: Seq<[W; 3]>,
    faces: Seq<u32>,
    axis: int,
    i: int,
    j: int,
)
    requires
        reads_exactly(wal),
        orders_exactly(wal),
        picks_exactly(wal),
        0 <= axis < 3,
        0 <= i < faces.len(),
        0 <= j < faces.len(),
    ensures
        0 <= widest_of(centroids, faces) < 3,
        wal(spread_of(centroids, faces, axis)) <= wal(spread_of(centroids, faces, widest_of(centroids, faces))),
        wal(centroids[faces[i] as int]@[axis]) - wal(centroids[faces[j] as int]@[axis]) <= wal(
            spread_of(centroids, faces, widest_of(centroids, faces)),
        ),
{
    let n = faces.len() as int;
    lemma_ends(wal, centroids, faces, axis, n, i);
    lemma_ends(wal, centroids, faces, axis, n, j);
    let high = greatest_of(centroids, faces, axis, n);
    let low = least_of(centroids, faces, axis, n);
    assert(wal(W::minus_of(high, low)) == wal(high) - wal(low));
    assert(axis == 0 || axis == 1 || axis == 2);
}

} // verus!
