//! Limit points and tangents of a vertex, in plain numbers.

use crate::masks::{
    crease_model, cross_bare, cross_regular, direction, edge_share, extraordinary_model, face_scale, face_share,
    is_zero_of, no_row, own_share, pushed, regular_model, regular_weights, smooth_model, tangent_pushed, whole,
};
use crate::means::lemma_value_of_merged;
use crate::metric::Metric;
use crate::nearest::roots_exactly;
use crate::points::{lemma_one_entry, sum_at};
use crate::ring::RingModel;
use crate::scalar::{one_of, zero_of, Scalar, Wide};
use crate::unity::{compares_exactly, reads_both, value};
use crate::weights::{lemma_one, reads_exactly};
use vstd::prelude::*;

verus! {

pub(crate) proof fn lemma_pushed_value<S: Scalar, W: Wide<S>>(
    val: spec_fn(S) -> real,
    wal: spec_fn(W) -> real,
    x: spec_fn(u32) -> real,
    row: Seq<(u32, S)>,
    i: u32,
    w: W,
)
    requires
        reads_exactly(val),
        reads_exactly(wal),
        compares_exactly(wal),
        forall|w: W| val(#[trigger] W::narrow_of(w)) == wal(w),
    ensures
        value(val, x, pushed::<S, W>(row, i, w)) == value(val, x, row) + wal(w) * x(i),
{
    lemma_one::<S>(val);
    lemma_one::<W>(wal);
    let n = W::narrow_of(w);
    let r = wal(w);
    let z = x(i);
    assert(val(n) == r);
    if is_zero_of(w) {
        assert(W::at_most_of(w, zero_of()) && W::at_most_of(zero_of(), w));
        assert(r == 0 as real);
        assert(r * z == 0 as real) by (nonlinear_arith)
            requires
                r == 0 as real,
        ;
    } else {
        lemma_one_entry(val, x, (i, n));
        lemma_value_of_merged(val, x, row, seq![(i, n)], one_of());
        let p = r * z;
        assert((1 as real) * p == p) by (nonlinear_arith);
    }
}

pub(crate) proof fn lemma_none<S>(val: spec_fn(S) -> real, x: spec_fn(u32) -> real)
    ensures
        value(val, x, no_row::<S>()) == 0 as real,
{
}

pub(crate) proof fn lemma_signed(a: real, z: real)
    ensures
        (-a) * z == -(a * z),
{
    assert((-a) * z == -(a * z)) by (nonlinear_arith);
}

// ---------------------------------------------------------------------------
// Corners and creases
// ---------------------------------------------------------------------------
/// The tangent along an edge is the way to its end.
pub proof fn directions_lead_along_edges<S: Scalar, W: Wide<S>>(
    val: spec_fn(S) -> real,
    wal: spec_fn(W) -> real,
    x: spec_fn(u32) -> real,
    v: u32,
    n: u32,
)
    requires
        reads_both::<S, W>(val, wal),
    ensures
        value(val, x, direction::<S, W>(v, n)) == x(n) - x(v),
{
    lemma_one::<W>(wal);
    lemma_none::<S>(val, x);
    let back = W::negated_of(one_of::<W>());
    lemma_pushed_value::<S, W>(val, wal, x, no_row(), v, back);
    lemma_pushed_value::<S, W>(val, wal, x, pushed::<S, W>(no_row(), v, back), n, one_of::<W>());
    assert(wal(back) == -(1 as real));
    let z = x(v);
    let y = x(n);
    assert((-(1 as real)) * z == -z) by (nonlinear_arith);
    assert((1 as real) * y == y) by (nonlinear_arith);
}

/// The limit of a crease: a point of the cubic spline through the ends of the crease,
/// the tangent of the spline, and a tangent that leads across.
pub proof fn crease_limits<S: Scalar, W: Wide<S>>(
    val: spec_fn(S) -> real,
    wal: spec_fn(W) -> real,
    x: spec_fn(u32) -> real,
    v: u32,
    ring: RingModel,
    lead: int,
    trail: int,
)
    requires
        reads_both::<S, W>(val, wal),
        lead < trail <= lead + u32::MAX,
    ensures
        ({
            let m = crease_model::<S, W>(v, ring, lead, trail);
            let a = x(ring.neighbors[lead]);
            let b = x(ring.neighbors[trail]);
            &&& value(val, x, m.position) == (4 as real * x(v) + a + b) / (6 as real)
            &&& value(val, x, m.tangent1) == (a - b) / (2 as real)
            &&& trail == lead + 1 ==> value(val, x, m.tangent2) == 3 as real * (a - x(v)) + 3 as real * (b - x(v))
            &&& trail == lead + 2 ==> value(val, x, m.tangent2) == (4 as real * (x(ring.neighbors[lead + 1]) - x(v)) + (x(
                ring.diagonals[lead],
            ) - a) + (x(ring.diagonals[lead + 1]) - b)) / (6 as real)
        }),
{
    lemma_one::<W>(wal);
    lemma_none::<S>(val, x);
    let (p, q) = (ring.neighbors[lead], ring.neighbors[trail]);
    let (z, a, b) = (x(v), x(p), x(q));
    let (third, sixth) = (W::ratio_of(2, 3), W::ratio_of(1, 6));
    let r0 = pushed::<S, W>(no_row(), v, third);
    lemma_pushed_value::<S, W>(val, wal, x, no_row(), v, third);
    lemma_pushed_value::<S, W>(val, wal, x, r0, p, sixth);
    lemma_pushed_value::<S, W>(val, wal, x, pushed::<S, W>(r0, p, sixth), q, sixth);
    assert(wal(third) == (2int as real) / (3int as real));
    assert(wal(sixth) == (1int as real) / (6int as real));
    lemma_scaled(wal(third), z);
    lemma_scaled(wal(sixth), a);
    lemma_scaled(wal(sixth), b);
    let half = W::ratio_of(1, 2);
    let back = W::negated_of(half);
    lemma_pushed_value::<S, W>(val, wal, x, no_row(), p, half);
    lemma_pushed_value::<S, W>(val, wal, x, pushed::<S, W>(no_row(), p, half), q, back);
    assert(wal(half) == (1int as real) / (2int as real));
    lemma_scaled(wal(half), a);
    lemma_scaled(wal(half), b);
    lemma_signed(wal(half), b);
    if trail == lead + 1 {
        let (three, six) = (W::ratio_of(3, 1), W::ratio_of(6, 1));
        let own = W::negated_of(six);
        let s0 = pushed::<S, W>(no_row(), v, own);
        let s1 = pushed::<S, W>(s0, p, three);
        lemma_pushed_value::<S, W>(val, wal, x, no_row(), v, own);
        lemma_pushed_value::<S, W>(val, wal, x, s0, p, three);
        lemma_pushed_value::<S, W>(val, wal, x, s1, q, three);
        assert(wal(three) == (3int as real) / (1int as real));
        assert(wal(six) == (6int as real) / (1int as real));
        lemma_scaled(wal(three), a);
        lemma_scaled(wal(three), b);
        lemma_scaled(wal(six), z);
        lemma_signed(wal(six), z);
        assert(crease_model::<S, W>(v, ring, lead, trail).tangent2 == cross_bare::<S, W>(v, ring, lead, trail));
    }
    if trail == lead + 2 {
        let two = W::ratio_of(4, 6);
        let (m, f, g) = (ring.neighbors[lead + 1], ring.diagonals[lead], ring.diagonals[lead + 1]);
        let (own, end) = (W::negated_of(two), W::negated_of(sixth));
        let s0 = pushed::<S, W>(no_row(), v, own);
        let s1 = pushed::<S, W>(s0, p, end);
        let s2 = pushed::<S, W>(s1, m, two);
        let s3 = pushed::<S, W>(s2, q, end);
        let s4 = pushed::<S, W>(s3, f, sixth);
        lemma_pushed_value::<S, W>(val, wal, x, no_row(), v, own);
        lemma_pushed_value::<S, W>(val, wal, x, s0, p, end);
        lemma_pushed_value::<S, W>(val, wal, x, s1, m, two);
        lemma_pushed_value::<S, W>(val, wal, x, s2, q, end);
        lemma_pushed_value::<S, W>(val, wal, x, s3, f, sixth);
        lemma_pushed_value::<S, W>(val, wal, x, s4, g, sixth);
        assert(wal(two) == (4int as real) / (6int as real));
        lemma_scaled(wal(two), z);
        lemma_scaled(wal(two), x(m));
        lemma_scaled(wal(sixth), x(f));
        lemma_scaled(wal(sixth), x(g));
        lemma_signed(wal(two), z);
        lemma_signed(wal(sixth), a);
        lemma_signed(wal(sixth), b);
        assert(crease_model::<S, W>(v, ring, lead, trail).tangent2 == cross_regular::<S, W>(v, ring, lead, trail));
    }
}

/// Products with the small fractions of the masks.
pub(crate) proof fn lemma_scaled(w: real, z: real)
    ensures
        w == (2 as real) / (3 as real) ==> w * z == (2 as real * z) / (3 as real),
        w == (1 as real) / (6 as real) ==> w * z == z / (6 as real),
        w == (1 as real) / (2 as real) ==> w * z == z / (2 as real),
        w == (4 as real) / (6 as real) ==> w * z == (4 as real * z) / (6 as real),
        w == 3 as real ==> w * z == 3 as real * z,
        w == 6 as real ==> w * z == 6 as real * z,
        w == 4 as real ==> w * z == 4 as real * z,
        w == 1 as real ==> w * z == z,
        w == 0 as real ==> w * z == 0 as real,
        w == (4 as real) / (9 as real) ==> w * z == (4 as real * z) / (9 as real),
        w == (1 as real) / (9 as real) ==> w * z == z / (9 as real),
        w == (1 as real) / (36 as real) ==> w * z == z / (36 as real),
{
    assert(((2 as real) / (3 as real)) * z == (2 as real * z) / (3 as real)) by (nonlinear_arith);
    assert(((1 as real) / (6 as real)) * z == z / (6 as real)) by (nonlinear_arith);
    assert(((1 as real) / (2 as real)) * z == z / (2 as real)) by (nonlinear_arith);
    assert(((4 as real) / (6 as real)) * z == (4 as real * z) / (6 as real)) by (nonlinear_arith);
    assert((1 as real) * z == z) by (nonlinear_arith);
    assert((0 as real) * z == 0 as real) by (nonlinear_arith);
    assert(((4 as real) / (9 as real)) * z == (4 as real * z) / (9 as real)) by (nonlinear_arith);
    assert(((1 as real) / (9 as real)) * z == z / (9 as real)) by (nonlinear_arith);
    assert(((1 as real) / (36 as real)) * z == z / (36 as real)) by (nonlinear_arith);
}

// ---------------------------------------------------------------------------
// Regular vertices
// ---------------------------------------------------------------------------
proof fn lemma_whole<W: Scalar>(wal: spec_fn(W) -> real, k: int, z: real)
    requires
        reads_exactly(wal),
        -4 <= k <= 4,
    ensures
        wal(whole::<W>(k)) == k as real,
        k == 0 ==> wal(whole::<W>(k)) * z == 0 as real,
        k == 1 ==> wal(whole::<W>(k)) * z == z,
        k == -1 ==> wal(whole::<W>(k)) * z == -z,
        k == 4 ==> wal(whole::<W>(k)) * z == 4 as real * z,
        k == -4 ==> wal(whole::<W>(k)) * z == -(4 as real * z),
{
    lemma_one::<W>(wal);
    if k > 0 {
        assert(wal(W::ratio_of(k as u32, 1)) == (k as real) / (1int as real));
    } else if k < 0 {
        let m = -k;
        assert(wal(W::ratio_of(m as u32, 1)) == (m as real) / (1int as real));
    }
    lemma_scaled(1 as real, z);
    lemma_scaled(0 as real, z);
    lemma_signed(1 as real, z);
    lemma_signed(4 as real, z);
}

proof fn lemma_regular_step<S: Scalar, W: Wide<S>>(
    val: spec_fn(S) -> real,
    wal: spec_fn(W) -> real,
    x: spec_fn(u32) -> real,
    v: u32,
    ring: RingModel,
    i: int,
)
    requires
        reads_both::<S, W>(val, wal),
        0 <= i < 4,
    ensures
        ({
            let m = regular_model::<S, W>(v, ring, i);
            let n = regular_model::<S, W>(v, ring, i + 1);
            let (e, f) = (x(ring.neighbors[i]), x(ring.diagonals[i]));
            let (e1, f1, e2, f2) = regular_weights(i);
            &&& value(val, x, n.position) == value(val, x, m.position) + e / (9 as real) + f / (36 as real)
            &&& value(val, x, n.tangent1) == value(val, x, m.tangent1) + wal(whole::<W>(e1)) * e + wal(whole::<W>(f1)) * f
            &&& value(val, x, n.tangent2) == value(val, x, m.tangent2) + wal(whole::<W>(e2)) * e + wal(whole::<W>(f2)) * f
        }),
{
    let m = regular_model::<S, W>(v, ring, i);
    let (n, d) = (ring.neighbors[i], ring.diagonals[i]);
    let (e1, f1, e2, f2) = regular_weights(i);
    let (ninth, small) = (W::ratio_of(1, 9), W::ratio_of(1, 36));
    lemma_pushed_value::<S, W>(val, wal, x, m.position, n, ninth);
    lemma_pushed_value::<S, W>(val, wal, x, pushed::<S, W>(m.position, n, ninth), d, small);
    assert(wal(ninth) == (1int as real) / (9int as real));
    assert(wal(small) == (1int as real) / (36int as real));
    lemma_scaled(wal(ninth), x(n));
    lemma_scaled(wal(small), x(d));
    let (w1, g1, w2, g2) = (whole::<W>(e1), whole::<W>(f1), whole::<W>(e2), whole::<W>(f2));
    lemma_pushed_value::<S, W>(val, wal, x, m.tangent1, n, w1);
    lemma_pushed_value::<S, W>(val, wal, x, pushed::<S, W>(m.tangent1, n, w1), d, g1);
    lemma_pushed_value::<S, W>(val, wal, x, m.tangent2, n, w2);
    lemma_pushed_value::<S, W>(val, wal, x, pushed::<S, W>(m.tangent2, n, w2), d, g2);
}

proof fn lemma_regular_weights<W: Scalar>(wal: spec_fn(W) -> real, i: int, z: real)
    requires
        reads_exactly(wal),
        0 <= i < 4,
    ensures
        ({
            let (e1, f1, e2, f2) = regular_weights(i);
            &&& wal(whole::<W>(e1)) * z == (if i == 0 {
                4 as real * z
            } else if i == 2 {
                -(4 as real * z)
            } else {
                0 as real
            })
            &&& wal(whole::<W>(f1)) * z == (if i == 0 || i == 3 {
                z
            } else {
                -z
            })
            &&& wal(whole::<W>(e2)) * z == (if i == 1 {
                4 as real * z
            } else if i == 3 {
                -(4 as real * z)
            } else {
                0 as real
            })
            &&& wal(whole::<W>(f2)) * z == (if i == 0 || i == 1 {
                z
            } else {
                -z
            })
        }),
{
    let (e1, f1, e2, f2) = regular_weights(i);
    lemma_whole::<W>(wal, e1, z);
    lemma_whole::<W>(wal, f1, z);
    lemma_whole::<W>(wal, e2, z);
    lemma_whole::<W>(wal, f2, z);
}

/// The limit of a regular vertex: the first tangent leads from its third neighbour to
/// its first, the second one from its fourth to its second.
pub proof fn regular_limits<S: Scalar, W: Wide<S>>(
    val: spec_fn(S) -> real,
    wal: spec_fn(W) -> real,
    x: spec_fn(u32) -> real,
    v: u32,
    ring: RingModel,
)
    requires
        reads_both::<S, W>(val, wal),
        ring.diagonals.len() == 4,
    ensures
        ({
            let m = smooth_model::<S, W>(v, ring);
            let (n, d) = (ring.neighbors, ring.diagonals);
            &&& value(val, x, m.position) == (16 as real * x(v) + 4 as real * (x(n[0]) + x(n[1]) + x(n[2]) + x(n[3])) + (x(
                d[0],
            ) + x(d[1]) + x(d[2]) + x(d[3]))) / (36 as real)
            &&& value(val, x, m.tangent1) == 4 as real * (x(n[0]) - x(n[2])) + (x(d[0]) + x(d[3])) - (x(d[1]) + x(d[2]))
            &&& value(val, x, m.tangent2) == 4 as real * (x(n[1]) - x(n[3])) + (x(d[0]) + x(d[1])) - (x(d[2]) + x(d[3]))
        }),
{
    lemma_none::<S>(val, x);
    let own = W::ratio_of(4, 9);
    lemma_pushed_value::<S, W>(val, wal, x, no_row(), v, own);
    assert(wal(own) == (4int as real) / (9int as real));
    lemma_scaled(wal(own), x(v));
    lemma_regular_step::<S, W>(val, wal, x, v, ring, 0);
    lemma_regular_step::<S, W>(val, wal, x, v, ring, 1);
    lemma_regular_step::<S, W>(val, wal, x, v, ring, 2);
    lemma_regular_step::<S, W>(val, wal, x, v, ring, 3);
    lemma_regular_weights::<W>(wal, 0, x(ring.neighbors[0]));
    lemma_regular_weights::<W>(wal, 0, x(ring.diagonals[0]));
    lemma_regular_weights::<W>(wal, 1, x(ring.neighbors[1]));
    lemma_regular_weights::<W>(wal, 1, x(ring.diagonals[1]));
    lemma_regular_weights::<W>(wal, 2, x(ring.neighbors[2]));
    lemma_regular_weights::<W>(wal, 2, x(ring.diagonals[2]));
    lemma_regular_weights::<W>(wal, 3, x(ring.neighbors[3]));
    lemma_regular_weights::<W>(wal, 3, x(ring.diagonals[3]));
    assert(smooth_model::<S, W>(v, ring) == regular_model::<S, W>(v, ring, 4));
}

/// In a plane grid, where the neighbours of a regular vertex lie at `a`, `b`, `-a` and
/// `-b` from it and the diagonals at the sums of two that follow each other, the
/// tangents are positive multiples of `a` and of `b`, and the vertex is its limit.
pub proof fn grids_have_their_own_tangents<S: Scalar, W: Wide<S>>(
    val: spec_fn(S) -> real,
    wal: spec_fn(W) -> real,
    x: spec_fn(u32) -> real,
    v: u32,
    ring: RingModel,
    a: real,
    b: real,
)
    requires
        reads_both::<S, W>(val, wal),
        ring.diagonals.len() == 4,
        x(ring.neighbors[0]) == x(v) + a,
        x(ring.neighbors[1]) == x(v) + b,
        x(ring.neighbors[2]) == x(v) - a,
        x(ring.neighbors[3]) == x(v) - b,
        x(ring.diagonals[0]) == x(v) + a + b,
        x(ring.diagonals[1]) == x(v) - a + b,
        x(ring.diagonals[2]) == x(v) - a - b,
        x(ring.diagonals[3]) == x(v) + a - b,
    ensures
        value(val, x, smooth_model::<S, W>(v, ring).position) == x(v),
        value(val, x, smooth_model::<S, W>(v, ring).tangent1) == 12 as real * a,
        value(val, x, smooth_model::<S, W>(v, ring).tangent2) == 12 as real * b,
{
    regular_limits::<S, W>(val, wal, x, v, ring);
}

/// The middle of the face between edges `i` and `j` of a vertex.
pub open spec fn face_middle(x: spec_fn(u32) -> real, v: u32, ring: RingModel, i: int, j: int) -> real {
    (x(v) + x(ring.neighbors[i]) + x(ring.neighbors[j]) + x(ring.diagonals[i])) / (4 as real)
}

/// The new point of edge `i` of a vertex, between faces with the middles `f` and `g`.
pub open spec fn edge_middle(x: spec_fn(u32) -> real, v: u32, ring: RingModel, i: int, f: real, g: real) -> real {
    (x(v) + x(ring.neighbors[i]) + f + g) / (4 as real)
}

/// The ring of a regular vertex after one step of smooth refinement: `y` is the ring of
/// the refined vertex, with its neighbours on the edges and its diagonals in the faces.
pub open spec fn refined_ring(x: spec_fn(u32) -> real, y: spec_fn(u32) -> real, v: u32, ring: RingModel) -> bool {
    let (n, d) = (ring.neighbors, ring.diagonals);
    let f0 = face_middle(x, v, ring, 0, 1);
    let f1 = face_middle(x, v, ring, 1, 2);
    let f2 = face_middle(x, v, ring, 2, 3);
    let f3 = face_middle(x, v, ring, 3, 0);
    let around = (x(n[0]) + x(n[1]) + x(n[2]) + x(n[3])) / (4 as real);
    &&& y(v) == ((f0 + f1 + f2 + f3) / (4 as real) + (x(v) + around) + x(v)) / (4 as real)
    &&& y(n[0]) == edge_middle(x, v, ring, 0, f3, f0)
    &&& y(n[1]) == edge_middle(x, v, ring, 1, f0, f1)
    &&& y(n[2]) == edge_middle(x, v, ring, 2, f1, f2)
    &&& y(n[3]) == edge_middle(x, v, ring, 3, f2, f3)
    &&& y(d[0]) == f0
    &&& y(d[1]) == f1
    &&& y(d[2]) == f2
    &&& y(d[3]) == f3
}

/// Refinement keeps the limit of a regular vertex and halves its tangents.
pub proof fn limits_survive_refinement<S: Scalar, W: Wide<S>>(
    val: spec_fn(S) -> real,
    wal: spec_fn(W) -> real,
    x: spec_fn(u32) -> real,
    y: spec_fn(u32) -> real,
    v: u32,
    ring: RingModel,
)
    requires
        reads_both::<S, W>(val, wal),
        ring.diagonals.len() == 4,
        refined_ring(x, y, v, ring),
    ensures
        ({
            let m = smooth_model::<S, W>(v, ring);
            &&& value(val, y, m.position) == value(val, x, m.position)
            &&& value(val, y, m.tangent1) == value(val, x, m.tangent1) / (2 as real)
            &&& value(val, y, m.tangent2) == value(val, x, m.tangent2) / (2 as real)
        }),
{
    regular_limits::<S, W>(val, wal, x, v, ring);
    regular_limits::<S, W>(val, wal, y, v, ring);
}

// ---------------------------------------------------------------------------
// Extraordinary vertices
// ---------------------------------------------------------------------------
/// The first `i` of the points round a vertex.
proof fn lemma_sum_next(x: spec_fn(u32) -> real, list: Seq<u32>, i: int)
    requires
        0 < i <= list.len(),
    ensures
        sum_at(x, list.take(i)) == sum_at(x, list.take(i - 1)) + x(list[i - 1]),
{
    assert(list.take(i).drop_last() =~= list.take(i - 1));
}

proof fn lemma_extraordinary_position<S: Scalar, W: Wide<S>>(
    val: spec_fn(S) -> real,
    x: spec_fn(u32) -> real,
    v: u32,
    ring: RingModel,
    i: int,
)
    requires
        reads_exactly(val),
        compares_exactly(val),
        0 <= i <= ring.diagonals.len(),
        i <= ring.neighbors.len(),
    ensures
        ({
            let n = ring.diagonals.len() as int;
            value(val, x, extraordinary_model::<S, W>(v, ring, i).position) == val(own_share::<S>(n)) * x(v) + val(
                edge_share::<S>(n),
            ) * sum_at(x, ring.neighbors.take(i)) + val(face_share::<S>(n)) * sum_at(x, ring.diagonals.take(i))
        }),
    decreases i,
{
    let n = ring.diagonals.len() as int;
    let (o, e, f) = (val(own_share::<S>(n)), val(edge_share::<S>(n)), val(face_share::<S>(n)));
    lemma_none::<S>(val, x);
    if i == 0 {
        lemma_pushed_value::<S, S>(val, val, x, no_row(), v, own_share::<S>(n));
        assert(sum_at(x, ring.neighbors.take(0)) == 0 as real);
        assert(sum_at(x, ring.diagonals.take(0)) == 0 as real);
        assert(e * (0 as real) == 0 as real) by (nonlinear_arith);
        assert(f * (0 as real) == 0 as real) by (nonlinear_arith);
    } else {
        lemma_extraordinary_position::<S, W>(val, x, v, ring, i - 1);
        let before = extraordinary_model::<S, W>(v, ring, i - 1).position;
        let (p, d) = (ring.neighbors[i - 1], ring.diagonals[i - 1]);
        lemma_pushed_value::<S, S>(val, val, x, before, p, edge_share::<S>(n));
        lemma_pushed_value::<S, S>(
            val,
            val,
            x,
            pushed::<S, S>(before, p, edge_share::<S>(n)),
            d,
            face_share::<S>(n),
        );
        lemma_sum_next(x, ring.neighbors, i);
        lemma_sum_next(x, ring.diagonals, i);
        distribute(e, sum_at(x, ring.neighbors.take(i - 1)), x(p));
        distribute(f, sum_at(x, ring.diagonals.take(i - 1)), x(d));
    }
}

proof fn distribute(w: real, a: real, b: real)
    ensures
        w * (a + b) == w * a + w * b,
{
    assert(w * (a + b) == w * a + w * b) by (nonlinear_arith);
}

/// The limit of an inner vertex with `n` smooth faces is
/// `(n^2 v + 4 (sum of the neighbours) + (sum of the diagonals)) / (n (n + 5))`.
pub proof fn smooth_limits<S: Scalar, W: Wide<S>>(
    val: spec_fn(S) -> real,
    wal: spec_fn(W) -> real,
    x: spec_fn(u32) -> real,
    v: u32,
    ring: RingModel,
)
    requires
        reads_both::<S, W>(val, wal),
        3 <= ring.diagonals.len() <= u32::MAX,
        ring.neighbors.len() == ring.diagonals.len(),
    ensures
        ({
            let n = ring.diagonals.len() as int as real;
            (n * (n + 5 as real)) * value(val, x, smooth_model::<S, W>(v, ring).position) == (n * n) * x(v) + 4 as real
                * sum_at(x, ring.neighbors) + sum_at(x, ring.diagonals)
        }),
{
    let count = ring.diagonals.len() as int;
    let r = count as real;
    if count == 4 {
        regular_limits::<S, W>(val, wal, x, v, ring);
        let (n, d) = (ring.neighbors, ring.diagonals);
        lemma_sum_of_four(x, n);
        lemma_sum_of_four(x, d);
        let z = x(v);
        assert((r * (r + 5 as real)) == 36 as real && r * r == 16 as real) by (nonlinear_arith)
            requires
                r == 4 as real,
        ;
        let w = value(val, x, smooth_model::<S, W>(v, ring).position);
        let p = r * (r + 5 as real);
        let q = r * r;
        assert(p * w == 36 as real * w) by (nonlinear_arith)
            requires
                p == 36 as real,
        ;
        assert(q * z == 16 as real * z) by (nonlinear_arith)
            requires
                q == 16 as real,
        ;
    } else {
        lemma_extraordinary_position::<S, W>(val, x, v, ring, count);
        assert(ring.neighbors.take(count) =~= ring.neighbors);
        assert(ring.diagonals.take(count) =~= ring.diagonals);
        lemma_shares::<S>(val, count);
        let (o, e, f) = (val(own_share::<S>(count)), val(edge_share::<S>(count)), val(face_share::<S>(count)));
        let p = r * (r + 5 as real);
        let z = x(v);
        let s = sum_at(x, ring.neighbors);
        let t = sum_at(x, ring.diagonals);
        distribute(p, o * z + e * s, f * t);
        distribute(p, o * z, e * s);
        regroup(p, o, z);
        regroup(p, e, s);
        regroup(p, f, t);
        let (po, pe, pf) = (p * o, p * e, p * f);
        assert(pe * s == 4 as real * s) by (nonlinear_arith)
            requires
                pe == 4 as real,
        ;
        assert(pf * t == t) by (nonlinear_arith)
            requires
                pf == 1 as real,
        ;
        assert(po == r * r);
    }
}

proof fn regroup(p: real, a: real, z: real)
    ensures
        p * (a * z) == (p * a) * z,
{
    assert(p * (a * z) == (p * a) * z) by (nonlinear_arith);
}

proof fn lemma_sum_of_four(x: spec_fn(u32) -> real, list: Seq<u32>)
    requires
        list.len() == 4,
    ensures
        sum_at(x, list) == x(list[0]) + x(list[1]) + x(list[2]) + x(list[3]),
{
    assert(list.take(4) =~= list);
    lemma_sum_next(x, list, 4);
    lemma_sum_next(x, list, 3);
    lemma_sum_next(x, list, 2);
    lemma_sum_next(x, list, 1);
    assert(sum_at(x, list.take(0)) == 0 as real);
}

proof fn lemma_shares<S: Scalar>(val: spec_fn(S) -> real, n: int)
    requires
        reads_exactly(val),
        0 < n <= u32::MAX,
    ensures
        ({
            let r = n as real;
            let p = r * (r + 5 as real);
            &&& p * val(face_share::<S>(n)) == 1 as real
            &&& p * val(edge_share::<S>(n)) == 4 as real
            &&& p * val(own_share::<S>(n)) == r * r
        }),
{
    lemma_one::<S>(val);
    let m = S::ratio_of(n as u32, 1);
    let (five, four) = (S::ratio_of(5, 1), S::ratio_of(4, 1));
    let r = n as real;
    assert(val(m) == r / (1int as real));
    assert(val(m) == r);
    assert(val(five) == (5int as real) / (1int as real));
    assert(val(four) == (4int as real) / (1int as real));
    let sum = S::plus_of(m, five);
    let both = S::times_of(m, sum);
    assert(val(sum) == r + 5 as real);
    let p = r * (r + 5 as real);
    assert(val(both) == p);
    assert(p > 0 as real) by (nonlinear_arith)
        requires
            p == r * (r + 5 as real),
            r > 0 as real,
    ;
    let f = val(face_share::<S>(n));
    assert(f == (1 as real) / p);
    assert(p * f == 1 as real) by (nonlinear_arith)
        requires
            f == (1 as real) / p,
            p > 0 as real,
    ;
    let e = val(edge_share::<S>(n));
    let q = val(four);
    assert(e == q * f);
    assert(q * f == 4 as real * f) by (nonlinear_arith)
        requires
            q == 4 as real,
    ;
    regroup(p, 4 as real, f);
    assert((p * (4 as real)) * f == 4 as real * (p * f)) by (nonlinear_arith);
    let each = S::plus_of(edge_share::<S>(n), face_share::<S>(n));
    assert(val(each) == e + f);
    let all = S::times_of(m, each);
    let s = val(all);
    assert(s == r * (e + f));
    let o = val(own_share::<S>(n));
    assert(o == 1 as real - s);
    let ef = e + f;
    distribute(p, e, f);
    assert(p * ef == 5 as real);
    assert(p * (r * ef) == r * (p * ef)) by (nonlinear_arith);
    assert(p * (1 as real - s) == p - p * s) by (nonlinear_arith);
    assert(r * (5 as real) == 5 as real * r) by (nonlinear_arith);
    assert(r * (r + 5 as real) == r * r + 5 as real * r) by (nonlinear_arith);
}

/// The sum of the first `i` neighbours and diagonals of a vertex of valence `n`, each
/// neighbour by four times the cosine of its turn and each diagonal by `side` times the
/// cosines of the two turns beside it. The turns are counted from edge `first` on, which
/// is edge nought or one.
pub open spec fn star<W: Scalar>(
    wal: spec_fn(W) -> real,
    x: spec_fn(u32) -> real,
    ring: RingModel,
    first: int,
    side: real,
    i: int,
) -> real
    decreases i,
{
    if i <= 0 {
        0 as real
    } else {
        let n = ring.diagonals.len();
        let turn = if i - 1 < first {
            i - 1 - first + n
        } else {
            i - 1 - first
        };
        let here = wal(W::cos_turn_of(turn as u64, n as u64));
        let next = wal(W::cos_turn_of((turn + 1) as u64, n as u64));
        star(wal, x, ring, first, side, i - 1) + (4 as real * here) * x(ring.neighbors[i - 1]) + (side * (here + next)) * x(
            ring.diagonals[i - 1],
        )
    }
}

proof fn lemma_star_step<S: Scalar, W: Wide<S>>(
    val: spec_fn(S) -> real,
    wal: spec_fn(W) -> real,
    x: spec_fn(u32) -> real,
    row: Seq<(u32, S)>,
    valence: int,
    j: int,
    n: u32,
    d: u32,
)
    requires
        reads_both::<S, W>(val, wal),
    ensures
        ({
            let here = wal(W::cos_turn_of(j as u64, valence as u64));
            let next = wal(W::cos_turn_of((j + 1) as u64, valence as u64));
            let side = wal(face_scale::<W>(valence));
            value(val, x, tangent_pushed::<S, W>(row, valence, j, n, d)) == value(val, x, row) + (4 as real * here) * x(n)
                + (side * (here + next)) * x(d)
        }),
{
    let cos = W::cos_turn_of(j as u64, valence as u64);
    let next = W::cos_turn_of((j + 1) as u64, valence as u64);
    let four = W::ratio_of(4, 1);
    let edge = W::times_of(four, cos);
    let scale = face_scale::<W>(valence);
    let both = W::plus_of(cos, next);
    let face = W::times_of(scale, both);
    lemma_pushed_value::<S, W>(val, wal, x, row, n, edge);
    lemma_pushed_value::<S, W>(val, wal, x, pushed::<S, W>(row, n, edge), d, face);
    assert(wal(four) == (4int as real) / (1int as real));
    assert(wal(edge) == wal(four) * wal(cos));
    lemma_scaled(wal(four), wal(cos));
    assert(wal(both) == wal(cos) + wal(next));
    assert(wal(face) == wal(scale) * wal(both));
}

proof fn lemma_stars<S: Scalar, W: Wide<S>>(
    val: spec_fn(S) -> real,
    wal: spec_fn(W) -> real,
    x: spec_fn(u32) -> real,
    v: u32,
    ring: RingModel,
    i: int,
)
    requires
        reads_both::<S, W>(val, wal),
        0 <= i <= ring.diagonals.len(),
    ensures
        ({
            let m = extraordinary_model::<S, W>(v, ring, i);
            let side = wal(face_scale::<W>(ring.diagonals.len() as int));
            &&& value(val, x, m.tangent1) == star::<W>(wal, x, ring, 0, side, i)
            &&& value(val, x, m.tangent2) == star::<W>(wal, x, ring, 1, side, i)
        }),
    decreases i,
{
    lemma_none::<S>(val, x);
    if i > 0 {
        lemma_stars::<S, W>(val, wal, x, v, ring, i - 1);
        let n = ring.diagonals.len() as int;
        let before = extraordinary_model::<S, W>(v, ring, i - 1);
        let (p, d) = (ring.neighbors[i - 1], ring.diagonals[i - 1]);
        let turned = if i == 1 {
            n - 1
        } else {
            i - 2
        };
        lemma_star_step::<S, W>(val, wal, x, before.tangent1, n, i - 1, p, d);
        lemma_star_step::<S, W>(val, wal, x, before.tangent2, n, turned, p, d);
    }
}

/// The tangents of an extraordinary vertex: the second one is the first one, counted from
/// the next edge on. The weight of the faces is `1 / (4 l - 1)`, where `l` is the second
/// eigenvalue of the refinement round the vertex: with `c` the cosine of one turn and `h`
/// that of half a turn, `16 l = 5 + c + h r` and `r^2 = 2 (9 + c)`.
pub proof fn smooth_tangents<S: Scalar, W: Wide<S> + Metric>(
    val: spec_fn(S) -> real,
    wal: spec_fn(W) -> real,
    x: spec_fn(u32) -> real,
    v: u32,
    ring: RingModel,
) -> (r: (real, real))
    requires
        reads_both::<S, W>(val, wal),
        roots_exactly(wal),
        3 <= ring.diagonals.len() <= u32::MAX,
        ring.diagonals.len() != 4,
        wal(W::cos_turn_of(1, ring.diagonals.len() as u64)) >= -(1 as real),
        wal(W::cos_turn_of(1, (2 * ring.diagonals.len()) as u64)) > 0 as real,
    ensures
        ({
            let n = ring.diagonals.len();
            let c = wal(W::cos_turn_of(1, n as u64));
            let h = wal(W::cos_turn_of(1, (2 * n) as u64));
            let m = smooth_model::<S, W>(v, ring);
            let (root, side) = r;
            &&& root > 0 as real
            &&& root * root == 2 as real * (9 as real + c)
            &&& side * (1 as real + c + h * root) == 4 as real
            &&& value(val, x, m.tangent1) == star::<W>(wal, x, ring, 0, side, n as int)
            &&& value(val, x, m.tangent2) == star::<W>(wal, x, ring, 1, side, n as int)
        }),
{
    let n = ring.diagonals.len() as int;
    lemma_stars::<S, W>(val, wal, x, v, ring, n);
    lemma_one::<W>(wal);
    let cos = W::cos_turn_of(1, n as u64);
    let half = W::cos_turn_of(1, (2 * n) as u64);
    let c = wal(cos);
    let h = wal(half);
    let (two, nine, four) = (W::ratio_of(2, 1), W::ratio_of(9, 1), W::ratio_of(4, 1));
    let (big, small) = (W::ratio_of(5, 16), W::ratio_of(1, 16));
    assert(wal(two) == (2int as real) / (1int as real));
    assert(wal(nine) == (9int as real) / (1int as real));
    assert(wal(four) == (4int as real) / (1int as real));
    assert(wal(big) == (5int as real) / (16int as real));
    assert(wal(small) == (1int as real) / (16int as real));
    let sum = W::plus_of(nine, cos);
    let square = W::times_of(two, sum);
    let t = wal(sum);
    assert(t == 9 as real + c);
    assert(wal(square) == wal(two) * t);
    let w = wal(two);
    assert(w * t == 2 as real * t) by (nonlinear_arith)
        requires
            w == 2 as real,
    ;
    let sqrt = W::sqrt_of(square);
    let root = wal(sqrt);
    assert(root >= 0 as real && root * root == wal(square));
    assert(root > 0 as real) by {
        if root == 0 as real {
            assert(root * root == 0 as real) by (nonlinear_arith)
                requires
                    root == 0 as real,
            ;
        }
    }
    let hr = h * root;
    assert(hr > 0 as real) by (nonlinear_arith)
        requires
            hr == h * root,
            h > 0 as real,
            root > 0 as real,
    ;
    let prod = W::times_of(half, sqrt);
    assert(wal(prod) == hr);
    let part = W::plus_of(cos, prod);
    assert(wal(part) == c + hr);
    let scaled = W::times_of(small, part);
    let k = wal(small);
    let y = c + hr;
    assert(wal(scaled) == k * y);
    assert(k * y == y / (16 as real)) by (nonlinear_arith)
        requires
            k == (1 as real) / (16 as real),
    ;
    let lambda = W::plus_of(big, scaled);
    let l = wal(lambda);
    assert(l == (5 as real) / (16 as real) + y / (16 as real));
    let quad = W::times_of(four, lambda);
    let f = wal(four);
    assert(wal(quad) == f * l);
    assert(f * l == 4 as real * l) by (nonlinear_arith)
        requires
            f == 4 as real,
    ;
    let rest = W::minus_of(quad, one_of());
    let z = wal(rest);
    assert(z == 4 as real * l - 1 as real);
    assert(4 as real * z == 1 as real + c + hr);
    assert(z > 0 as real);
    let side = wal(face_scale::<W>(n));
    assert(side == (1 as real) / z);
    assert(side * z == 1 as real) by (nonlinear_arith)
        requires
            side == (1 as real) / z,
            z > 0 as real,
    ;
    let u = 1 as real + c + hr;
    assert(side * (4 as real * z) == 4 as real * (side * z)) by (nonlinear_arith);
    assert(smooth_model::<S, W>(v, ring) == extraordinary_model::<S, W>(v, ring, n));
    (root, side)
}

} // verus!
