//! Places, directions and derivatives on a quad, in plain numbers.

use crate::blends::coordinate;
use crate::closest_point::{across_of, corner_directions, edge_place, side_of};
use crate::error::KernelError;
use crate::hulls::{
    corner_spot, lemma_part, lemma_quadrant_spot, lemma_quarter, lemma_times_four, quadrant_spot, sides_fit,
};
use crate::limit::place_of;
use crate::limit_eval::{
    along_quad, frame_of, in_parent, patch_sample, place_in_parent, Frame, LimitEvaluator, SampleModel,
};
use crate::metric::Metric;
use crate::patch::{basis_of, derivative_of, grid_core, grid_of, grid_with_ring, tensor_sum};
use crate::points::{product_of_difference, product_of_sum, product_of_three};
use crate::ring::{quad_at, ring_of, rotated_ring, RingModel};
use crate::scalar::{one_of, Scalar, Wide};
use crate::topology::{Adjacency, Mesh};
use crate::unity::{lemma_basis, reads_both};
use crate::weights::{lemma_one, reads_exactly};
use vstd::prelude::*;

verus! {

// ---------------------------------------------------------------------------
// Quadrants
// ---------------------------------------------------------------------------
/// A place of a parent in its quadrant, by the numbers of the frame.
proof fn lemma_inside<W: Scalar>(wal: spec_fn(W) -> real, frame: Frame<W>, uv: (W, W))
    requires
        reads_exactly(wal),
    ensures
        ({
            let d = (wal(uv.0) - wal(frame.origin.0), wal(uv.1) - wal(frame.origin.1));
            &&& wal(frame.inside(uv).0) == wal(frame.row_u.0) * d.0 + wal(frame.row_u.1) * d.1
            &&& wal(frame.inside(uv).1) == wal(frame.row_v.0) * d.0 + wal(frame.row_v.1) * d.1
        }),
{
    let s = (W::minus_of(uv.0, frame.origin.0), W::minus_of(uv.1, frame.origin.1));
    assert(wal(s.0) == wal(uv.0) - wal(frame.origin.0));
    assert(wal(s.1) == wal(uv.1) - wal(frame.origin.1));
    assert(wal(W::times_of(frame.row_u.0, s.0)) == wal(frame.row_u.0) * wal(s.0));
    assert(wal(W::times_of(frame.row_u.1, s.1)) == wal(frame.row_u.1) * wal(s.1));
    assert(wal(W::times_of(frame.row_v.0, s.0)) == wal(frame.row_v.0) * wal(s.0));
    assert(wal(W::times_of(frame.row_v.1, s.1)) == wal(frame.row_v.1) * wal(s.1));
}

proof fn steps_differ(a: real, b: real, p: real, q: real, s: real, t: real)
    ensures
        (a * p + b * q) - (a * s + b * t) == a * (p - s) + b * (q - t),
{
    product_of_difference(a, p, s);
    product_of_difference(b, q, t);
}

proof fn chained(a: real, b: real, c: real, e: real, h: real, k: real, x: real, y: real)
    ensures
        h * (a * x + c * y) + k * (b * x + e * y) == (a * h + b * k) * x + (c * h + e * k) * y,
{
    product_of_sum(h, a * x, c * y);
    product_of_sum(k, b * x, e * y);
    product_of_sum(x, a * h, b * k);
    product_of_sum(y, c * h, e * k);
    product_of_three(a, h, x);
    product_of_three(b, k, x);
    product_of_three(c, h, y);
    product_of_three(e, k, y);
}

/// The chain rule of a quadrant: a step between two places of the parent changes the
/// surface, to first order, as the step between the same places in the quadrant does.
/// In particular, where a step `(h, 0)` in the parent is a step `(a, b)` in the
/// quadrant, `h` times the derivative along `u` in the parent is `a` times that along
/// `u` and `b` times that along `v` in the quadrant.
pub proof fn derivatives_follow_the_places<S, W: Scalar>(
    wal: spec_fn(W) -> real,
    frame: Frame<W>,
    inner: SampleModel<S, W>,
    outer: SampleModel<S, W>,
    from: (W, W),
    to: (W, W),
    c: int,
)
    requires
        reads_exactly(wal),
        in_parent(frame, Ok::<_, KernelError>(inner)) == Ok::<_, KernelError>(outer),
        0 <= c < 3,
    ensures
        outer.p == inner.p,
        (wal(to.0) - wal(from.0)) * wal(outer.du[c]) + (wal(to.1) - wal(from.1)) * wal(outer.dv[c]) == (wal(
            frame.inside(to).0,
        ) - wal(frame.inside(from).0)) * wal(inner.du[c]) + (wal(frame.inside(to).1) - wal(frame.inside(from).1))
            * wal(inner.dv[c]),
{
    lemma_inside(wal, frame, from);
    lemma_inside(wal, frame, to);
    let (a, b) = (wal(frame.row_u.0), wal(frame.row_u.1));
    let (e, f) = (wal(frame.row_v.0), wal(frame.row_v.1));
    let (ox, oy) = (wal(frame.origin.0), wal(frame.origin.1));
    let (p, q) = (wal(to.0) - ox, wal(to.1) - oy);
    let (s, t) = (wal(from.0) - ox, wal(from.1) - oy);
    steps_differ(a, b, p, q, s, t);
    steps_differ(e, f, p, q, s, t);
    let (x, y) = (wal(inner.du[c]), wal(inner.dv[c]));
    chained(a, b, e, f, p - s, q - t, x, y);
    assert(wal(W::times_of(frame.row_u.0, inner.du[c])) == a * x);
    assert(wal(W::times_of(frame.row_v.0, inner.dv[c])) == e * y);
    assert(wal(W::times_of(frame.row_u.1, inner.du[c])) == b * x);
    assert(wal(W::times_of(frame.row_v.1, inner.dv[c])) == f * y);
    assert(wal(outer.du[c]) == a * x + e * y);
    assert(wal(outer.dv[c]) == b * x + f * y);
}

/// A quadrant lies in its parent as its turn says: the corner of the parent is corner
/// `turn` of the quadrant, the middle of the parent is the corner opposite, and the
/// middles of the two edges are the corners between, the next edge first.
#[verifier::rlimit(60)]
pub proof fn quadrants_are_turned<W: Scalar>(wal: spec_fn(W) -> real, turn: int, k: int, step: int, uv: (W, W))
    requires
        reads_exactly(wal),
        0 <= turn < 4,
        0 <= k < 4,
        0 <= step < 4,
        (wal(uv.0), wal(uv.1)) == quadrant_spot(k, step),
    ensures
        ({
            let at = frame_of::<W>(turn, k).inside(uv);
            (wal(at.0), wal(at.1)) == corner_spot((turn + step) % 4)
        }),
{
    lemma_quadrant_spot::<W>(wal, turn, k, 0);
    lemma_quadrant_spot::<W>(wal, turn, k, 1);
    lemma_quadrant_spot::<W>(wal, turn, k, 3);
    let o = place_in_parent::<W>(turn, k, 0);
    let a = place_in_parent::<W>(turn, k, 1);
    let b = place_in_parent::<W>(turn, k, 3);
    let eu = (W::minus_of(a.0, o.0), W::minus_of(a.1, o.1));
    let ev = (W::minus_of(b.0, o.0), W::minus_of(b.1, o.1));
    let e = (wal(eu.0), wal(eu.1));
    let f = (wal(ev.0), wal(ev.1));
    let d = (wal(uv.0) - wal(o.0), wal(uv.1) - wal(o.1));
    lemma_turned_spots(turn, k, step);
    assert(sides_fit(e, f, d));
    lemma_quarter(e, f, d);
    let whole = W::minus_of(W::times_of(eu.0, ev.1), W::times_of(ev.0, eu.1));
    let det = wal(whole);
    assert(det == e.0 * f.1 - f.0 * e.1);
    let r0 = W::over_of(ev.1, whole);
    let r1 = W::over_of(W::negated_of(ev.0), whole);
    let s0 = W::over_of(W::negated_of(eu.1), whole);
    let s1 = W::over_of(eu.0, whole);
    lemma_times_four(f.1, det, d.0);
    lemma_times_four(-f.0, det, d.1);
    lemma_times_four(-e.1, det, d.0);
    lemma_times_four(e.0, det, d.1);
    assert(wal(r0) == f.1 / det && wal(r1) == (-f.0) / det && wal(s0) == (-e.1) / det && wal(s1) == e.0 / det);
    lemma_inside(wal, frame_of::<W>(turn, k), uv);
    lemma_part(f.1, d.0);
    lemma_part(-f.0, d.1);
    lemma_part(-e.1, d.0);
    lemma_part(e.0, d.1);
}

/// The corners of a quadrant, seen from its origin.
proof fn lemma_turned_spots(turn: int, k: int, step: int)
    requires
        0 <= turn < 4,
        0 <= k < 4,
        0 <= step < 4,
    ensures
        ({
            let o = quadrant_spot(k, (4 - turn) % 4);
            let a = quadrant_spot(k, (5 - turn) % 4);
            let b = quadrant_spot(k, (7 - turn) % 4);
            let p = quadrant_spot(k, step);
            let e = (a.0 - o.0, a.1 - o.1);
            let f = (b.0 - o.0, b.1 - o.1);
            let d = (p.0 - o.0, p.1 - o.1);
            let w = corner_spot((turn + step) % 4);
            let zero = (0 as real, 0 as real);
            let g = if w.0 == 1 as real {
                e
            } else {
                zero
            };
            let h = if w.1 == 1 as real {
                f
            } else {
                zero
            };
            &&& sides_fit(e, f, d)
            &&& d.0 == g.0 + h.0
            &&& d.1 == g.1 + h.1
        }),
{
    if turn == 0 {
        assert(step == 0 || step == 1 || step == 2 || step == 3);
        assert(k == 0 || k == 1 || k == 2 || k == 3);
    } else if turn == 1 {
        assert(step == 0 || step == 1 || step == 2 || step == 3);
        assert(k == 0 || k == 1 || k == 2 || k == 3);
    } else if turn == 2 {
        assert(step == 0 || step == 1 || step == 2 || step == 3);
        assert(k == 0 || k == 1 || k == 2 || k == 3);
    } else {
        assert(step == 0 || step == 1 || step == 2 || step == 3);
        assert(k == 0 || k == 1 || k == 2 || k == 3);
    }
}

// ---------------------------------------------------------------------------
// Corners and edges
// ---------------------------------------------------------------------------
/// What a linear map with the derivatives `a` and `b` gives of the way from corner `i`
/// to corner `j` of the unit square.
pub open spec fn way(i: int, j: int, a: real, b: real) -> real {
    (corner_spot(j).0 - corner_spot(i).0) * a + (corner_spot(j).1 - corner_spot(i).1) * b
}

proof fn lemma_way(k: int, a: real, b: real)
    requires
        0 <= k < 4,
    ensures
        way(k, (k + 1) % 4, a, b) == (if k == 0 {
            a
        } else if k == 1 {
            b
        } else if k == 2 {
            -a
        } else {
            -b
        }),
        way(k, (k + 3) % 4, a, b) == (if k == 0 {
            b
        } else if k == 1 {
            -a
        } else if k == 2 {
            -b
        } else {
            a
        }),
{
    lemma_unit_times(a);
    lemma_unit_times(b);
}

proof fn lemma_unit_times(a: real)
    ensures
        (1 as real - 0 as real) * a == a,
        (0 as real - 1 as real) * a == -a,
        (0 as real - 0 as real) * a == 0 as real,
        (1 as real - 1 as real) * a == 0 as real,
{
    assert((1 as real - 0 as real) * a == a) by (nonlinear_arith);
    assert((0 as real - 1 as real) * a == -a) by (nonlinear_arith);
    assert((0 as real - 0 as real) * a == 0 as real) by (nonlinear_arith);
    assert((1 as real - 1 as real) * a == 0 as real) by (nonlinear_arith);
}

/// The derivatives of a quad are found back from those along the two edges of any of
/// its corners: if `a` and `b` are the derivatives along `u` and `v`, the way to the
/// next corner goes by `d_out` and the way to the one before by `d_in`.
pub proof fn corner_derivatives_are_those_of_the_quad<W: Scalar>(
    wal: spec_fn(W) -> real,
    k: int,
    d_out: Seq<W>,
    d_in: Seq<W>,
    a: real,
    b: real,
    c: int,
)
    requires
        reads_exactly(wal),
        0 <= k < 4,
        0 <= c < 3,
        d_out.len() == 3,
        d_in.len() == 3,
        wal(d_out[c]) == way(k, (k + 1) % 4, a, b),
        wal(d_in[c]) == way(k, (k + 3) % 4, a, b),
    ensures
        wal(along_quad(k, d_out, d_in).0[c]) == a,
        wal(along_quad(k, d_out, d_in).1[c]) == b,
{
    lemma_way(k, a, b);
    assert(wal(W::negated_of(d_out[c])) == -wal(d_out[c]));
    assert(wal(W::negated_of(d_in[c])) == -wal(d_in[c]));
}

/// The directions along the edges of a corner are the ways to the next corner and to
/// the one before.
pub proof fn corner_directions_follow_the_edges<W: Scalar>(
    wal: spec_fn(W) -> real,
    k: int,
    du: Seq<W>,
    dv: Seq<W>,
    c: int,
)
    requires
        reads_exactly(wal),
        0 <= k < 4,
        0 <= c < 3,
    ensures
        wal(corner_directions(k, du, dv).0[c]) == way(k, (k + 1) % 4, wal(du[c]), wal(dv[c])),
        wal(corner_directions(k, du, dv).1[c]) == way(k, (k + 3) % 4, wal(du[c]), wal(dv[c])),
{
    lemma_way(k, wal(du[c]), wal(dv[c]));
    assert(wal(W::negated_of(du[c])) == -wal(du[c]));
    assert(wal(W::negated_of(dv[c])) == -wal(dv[c]));
}

/// A place along an edge lies on the straight way from the corner that the edge leaves
/// to the next one.
pub proof fn edges_run_from_corner_to_corner<W: Scalar>(wal: spec_fn(W) -> real, slot: int, x: W)
    requires
        reads_exactly(wal),
        0 <= slot < 4,
    ensures
        ({
            let at = edge_place(slot, x);
            let p = corner_spot(slot);
            let q = corner_spot((slot + 1) % 4);
            let t = wal(x);
            &&& wal(at.0) == (1 as real - t) * p.0 + t * q.0
            &&& wal(at.1) == (1 as real - t) * p.1 + t * q.1
        }),
{
    lemma_one::<W>(wal);
    let t = wal(x);
    assert(wal(W::minus_of(one_of(), x)) == 1 as real - t);
    assert(t * (1 as real) == t) by (nonlinear_arith);
    assert(t * (0 as real) == 0 as real) by (nonlinear_arith);
    let s = 1 as real - t;
    assert(s * (1 as real) == s) by (nonlinear_arith);
    assert(s * (0 as real) == 0 as real) by (nonlinear_arith);
}

/// The edge of a place on a side of the unit square, and how far along it the place is.
pub proof fn places_on_a_side_are_on_its_edge<W: Scalar>(wal: spec_fn(W) -> real, along_v: bool, far: bool, uv: (W, W))
    requires
        reads_exactly(wal),
        wal(if along_v {
            uv.0
        } else {
            uv.1
        }) == (if far {
            1 as real
        } else {
            0 as real
        }),
    ensures
        0 <= side_of(along_v, far, uv).0 < 4,
        ({
            let (slot, x) = side_of(along_v, far, uv);
            let at = edge_place(slot, x);
            wal(at.0) == wal(uv.0) && wal(at.1) == wal(uv.1)
        }),
{
    lemma_one::<W>(wal);
    let a = W::minus_of(one_of(), uv.0);
    let b = W::minus_of(one_of(), uv.1);
    assert(wal(a) == 1 as real - wal(uv.0));
    assert(wal(b) == 1 as real - wal(uv.1));
    assert(wal(W::minus_of(one_of(), a)) == 1 as real - wal(a));
    assert(wal(W::minus_of(one_of(), b)) == 1 as real - wal(b));
}

/// Across an edge: another quad that has the edge too, at the place that is as far from
/// the other end.
pub proof fn edges_are_crossed_to_the_same_place<'a, S: Metric, W: Scalar>(
    wal: spec_fn(W) -> real,
    ev: LimitEvaluator<'a, S>,
    face: u32,
    slot: int,
    x: W,
)
    requires
        reads_exactly(wal),
        across_of::<S, W>(ev, face, slot, x) is Some,
        4 * across_of::<S, W>(ev, face, slot, x)->Some_0.0 + 4 <= ev.adj().face_edges@.len(),
    ensures
        ({
            let (other, at) = across_of::<S, W>(ev, face, slot, x)->Some_0;
            let edge = ev.adj().face_edges@[4 * face + slot];
            let ends = ev.adj().edge_faces@[edge as int]@;
            &&& other == ends[0] || other == ends[1]
            &&& ends[0] != ends[1] ==> other != face
            &&& exists|t: int|
                0 <= t < 4 && #[trigger] ev.adj().face_edges@[4 * other + t] == edge && ({
                    let p = corner_spot(t);
                    let q = corner_spot((t + 1) % 4);
                    &&& wal(at.0) == wal(x) * p.0 + (1 as real - wal(x)) * q.0
                    &&& wal(at.1) == wal(x) * p.1 + (1 as real - wal(x)) * q.1
                })
        }),
{
    let (other, at) = across_of::<S, W>(ev, face, slot, x)->Some_0;
    let edge = ev.adj().face_edges@[4 * face + slot];
    let list = ev.adj().face_edges@.subrange(4 * other, 4 * other + 4);
    let t = place_of(list, edge)->Some_0;
    assert(crate::limit::is_place(list, edge, t));
    assert(ev.adj().face_edges@[4 * other + t] == edge);
    lemma_one::<W>(wal);
    let y = W::minus_of(one_of(), x);
    assert(wal(y) == 1 as real - wal(x));
    edges_run_from_corner_to_corner::<W>(wal, t, y);
    assert(1 as real - wal(y) == wal(x));
}

// ---------------------------------------------------------------------------
// Patches
// ---------------------------------------------------------------------------
/// The four uniform cubic B-splines that reach over the unit interval.
pub open spec fn spline(i: int, t: real) -> real {
    let s = 1 as real - t;
    if i == 0 {
        (s * s * s) / (6 as real)
    } else if i == 1 {
        ((3 as real) * t * t * t - (6 as real) * t * t + (4 as real)) / (6 as real)
    } else if i == 2 {
        (-(3 as real) * t * t * t + (3 as real) * t * t + (3 as real) * t + (1 as real)) / (6 as real)
    } else {
        (t * t * t) / (6 as real)
    }
}

/// Their slopes.
pub open spec fn slope(i: int, t: real) -> real {
    let s = 1 as real - t;
    if i == 0 {
        -((s * s) / (2 as real))
    } else if i == 1 {
        ((3 as real) * (t * t) - (4 as real) * t) / (2 as real)
    } else if i == 2 {
        (-(3 as real) * (t * t) + (2 as real) * t + (1 as real)) / (2 as real)
    } else {
        (t * t) / (2 as real)
    }
}

/// What is left of a step along a spline beyond its slope, over the square of the step.
pub open spec fn bend(i: int, t: real, h: real) -> real {
    if i == 0 {
        ((3 as real) * (1 as real - t) - h) / (6 as real)
    } else if i == 1 {
        ((9 as real) * t + (3 as real) * h - (6 as real)) / (6 as real)
    } else if i == 2 {
        ((3 as real) - (9 as real) * t - (3 as real) * h) / (6 as real)
    } else {
        ((3 as real) * t + h) / (6 as real)
    }
}

/// The slope of a spline is its derivative.
pub proof fn slopes_are_derivatives(i: int, t: real, h: real)
    requires
        0 <= i < 4,
    ensures
        spline(i, t + h) == spline(i, t) + h * slope(i, t) + (h * h) * bend(i, t, h),
{
    if i == 0 {
        lemma_first(1 as real - t, h);
        assert(1 as real - (t + h) == (1 as real - t) - h);
    } else if i == 1 {
        lemma_cube(t, h);
        lemma_square(t, h);
        lemma_terms(t);
        lemma_terms(t + h);
        lemma_parts(t, h);
    } else if i == 2 {
        lemma_cube(t, h);
        lemma_square(t, h);
        lemma_terms(t);
        lemma_terms(t + h);
        lemma_parts(t, h);
    } else {
        lemma_cube(t, h);
        lemma_parts(t, h);
    }
}

proof fn lemma_cube(t: real, h: real)
    ensures
        (t + h) * (t + h) * (t + h) == t * t * t + (3 as real) * (h * (t * t)) + (3 as real) * ((h * h) * t) + (h * h) * h,
{
    assert((t + h) * (t + h) * (t + h) == t * t * t + (3 as real) * (h * (t * t)) + (3 as real) * ((h * h) * t) + (h * h)
        * h) by (nonlinear_arith);
}

proof fn lemma_square(t: real, h: real)
    ensures
        (t + h) * (t + h) == t * t + (2 as real) * (h * t) + h * h,
{
    assert((t + h) * (t + h) == t * t + (2 as real) * (h * t) + h * h) by (nonlinear_arith);
}

/// The terms of the splines in powers of `t`.
proof fn lemma_terms(t: real)
    ensures
        (3 as real) * t * t * t == (3 as real) * (t * t * t),
        -(3 as real) * t * t * t == -(3 as real) * (t * t * t),
        (6 as real) * t * t == (6 as real) * (t * t),
        (3 as real) * t * t == (3 as real) * (t * t),
{
    assert((3 as real) * t * t * t == (3 as real) * (t * t * t)) by (nonlinear_arith);
    assert(-(3 as real) * t * t * t == -(3 as real) * (t * t * t)) by (nonlinear_arith);
    assert((6 as real) * t * t == (6 as real) * (t * t)) by (nonlinear_arith);
    assert((3 as real) * t * t == (3 as real) * (t * t)) by (nonlinear_arith);
}

/// The terms of a step in products.
proof fn lemma_parts(t: real, h: real)
    ensures
        h * (((3 as real) * (t * t) - (4 as real) * t) / (2 as real)) == ((3 as real) * (h * (t * t)) - (4 as real) * (h
            * t)) / (2 as real),
        (h * h) * (((9 as real) * t + (3 as real) * h - (6 as real)) / (6 as real)) == ((9 as real) * ((h * h) * t) + (
        3 as real) * ((h * h) * h) - (6 as real) * (h * h)) / (6 as real),
        h * ((-(3 as real) * (t * t) + (2 as real) * t + (1 as real)) / (2 as real)) == (-(3 as real) * (h * (t * t)) + (
        2 as real) * (h * t) + h) / (2 as real),
        (h * h) * (((3 as real) - (9 as real) * t - (3 as real) * h) / (6 as real)) == ((3 as real) * (h * h) - (
        9 as real) * ((h * h) * t) - (3 as real) * ((h * h) * h)) / (6 as real),
        h * ((t * t) / (2 as real)) == (h * (t * t)) / (2 as real),
        (h * h) * (((3 as real) * t + h) / (6 as real)) == ((3 as real) * ((h * h) * t) + (h * h) * h) / (6 as real),
{
    assert(h * (((3 as real) * (t * t) - (4 as real) * t) / (2 as real)) == ((3 as real) * (h * (t * t)) - (4 as real)
        * (h * t)) / (2 as real)) by (nonlinear_arith);
    assert((h * h) * (((9 as real) * t + (3 as real) * h - (6 as real)) / (6 as real)) == ((9 as real) * ((h * h) * t) + (
    3 as real) * ((h * h) * h) - (6 as real) * (h * h)) / (6 as real)) by (nonlinear_arith);
    assert(h * ((-(3 as real) * (t * t) + (2 as real) * t + (1 as real)) / (2 as real)) == (-(3 as real) * (h * (t * t))
        + (2 as real) * (h * t) + h) / (2 as real)) by (nonlinear_arith);
    assert((h * h) * (((3 as real) - (9 as real) * t - (3 as real) * h) / (6 as real)) == ((3 as real) * (h * h) - (
    9 as real) * ((h * h) * t) - (3 as real) * ((h * h) * h)) / (6 as real)) by (nonlinear_arith);
    assert(h * ((t * t) / (2 as real)) == (h * (t * t)) / (2 as real)) by (nonlinear_arith);
    assert((h * h) * (((3 as real) * t + h) / (6 as real)) == ((3 as real) * ((h * h) * t) + (h * h) * h) / (6 as real))
        by (nonlinear_arith);
}

proof fn lemma_first(s: real, h: real)
    ensures
        ((s - h) * (s - h) * (s - h)) / (6 as real) == (s * s * s) / (6 as real) + h * (-((s * s) / (2 as real))) + (h * h)
            * (((3 as real) * s - h) / (6 as real)),
{
    assert(((s - h) * (s - h) * (s - h)) == s * s * s - (3 as real) * (h * (s * s)) + (3 as real) * ((h * h) * s) - (h * h)
        * h) by (nonlinear_arith);
    assert(h * (-((s * s) / (2 as real))) == -((h * (s * s)) / (2 as real))) by (nonlinear_arith);
    assert((h * h) * (((3 as real) * s - h) / (6 as real)) == ((3 as real) * ((h * h) * s) - (h * h) * h) / (6 as real))
        by (nonlinear_arith);
}

proof fn lemma_slopes<W: Scalar>(wal: spec_fn(W) -> real, t: W)
    requires
        reads_exactly(wal),
    ensures
        derivative_of(t).len() == 4,
        forall|i: int| 0 <= i < 4 ==> wal(#[trigger] derivative_of(t)[i]) == slope(i, wal(t)),
{
    lemma_one::<W>(wal);
    let half = W::ratio_of(1, 2);
    let more = W::ratio_of(3, 2);
    let two = W::ratio_of(2, 1);
    let s = W::minus_of(one_of(), t);
    let x = wal(t);
    let y = wal(s);
    let h = wal(half);
    let m = wal(more);
    assert(h == (1int as real) / (2int as real));
    assert(m == (3int as real) / (2int as real));
    assert(wal(two) == (2int as real) / (1int as real));
    let a = wal(W::negated_of(half));
    let b = wal(W::negated_of(more));
    let w = wal(two);
    let d = derivative_of(t);
    assert(wal(d[0]) == (a * y) * y);
    assert((a * y) * y == -((y * y) / (2 as real))) by (nonlinear_arith)
        requires
            a == -((1 as real) / (2 as real)),
    ;
    assert(wal(d[1]) == (m * x) * x - w * x);
    assert((m * x) * x - w * x == ((3 as real) * (x * x) - (4 as real) * x) / (2 as real)) by (nonlinear_arith)
        requires
            m == (3 as real) / (2 as real),
            w == 2 as real,
    ;
    assert(wal(d[2]) == ((b * x) * x + x) + h);
    assert(((b * x) * x + x) + h == (-(3 as real) * (x * x) + (2 as real) * x + (1 as real)) / (2 as real))
        by (nonlinear_arith)
        requires
            b == -((3 as real) / (2 as real)),
            h == (1 as real) / (2 as real),
    ;
    assert(wal(d[3]) == (h * x) * x);
    assert((h * x) * x == (x * x) / (2 as real)) by (nonlinear_arith)
        requires
            h == (1 as real) / (2 as real),
    ;
    assert forall|i: int| 0 <= i < 4 implies wal(#[trigger] d[i]) == slope(i, x) by {
        assert(i == 0 || i == 1 || i == 2 || i == 3);
    }
}

/// The sum of the first `k` control points of a patch, four to a row, each with its
/// weight along `u` times its weight along `v`.
pub open spec fn patch_sum(
    nu: spec_fn(int) -> real,
    nv: spec_fn(int) -> real,
    x: spec_fn(u32) -> real,
    points: Seq<u32>,
    k: int,
) -> real
    decreases k,
{
    if k <= 0 {
        0 as real
    } else {
        patch_sum(nu, nv, x, points, k - 1) + (nu((k - 1) % 4) * nv((k - 1) / 4)) * x(points[k - 1])
    }
}

proof fn lemma_patch_sum<S: Scalar, W: Wide<S>>(
    val: spec_fn(S) -> real,
    wal: spec_fn(W) -> real,
    points: Seq<u32>,
    wu: Seq<W>,
    wv: Seq<W>,
    nu: spec_fn(int) -> real,
    nv: spec_fn(int) -> real,
    positions: Seq<[S; 3]>,
    c: int,
    k: int,
)
    requires
        reads_both::<S, W>(val, wal),
        0 <= k <= 16,
        forall|i: int| 0 <= i < 4 ==> wal(#[trigger] wu[i]) == nu(i),
        forall|i: int| 0 <= i < 4 ==> wal(#[trigger] wv[i]) == nv(i),
    ensures
        wal(tensor_sum::<S, W>(points, wu, wv, positions, c, k)) == patch_sum(
            nu,
            nv,
            coordinate(val, positions, c),
            points,
            k,
        ),
    decreases k,
{
    lemma_one::<W>(wal);
    if k > 0 {
        lemma_patch_sum::<S, W>(val, wal, points, wu, wv, nu, nv, positions, c, k - 1);
        let i = (k - 1) % 4;
        let j = (k - 1) / 4;
        assert(wal(wu[i]) == nu(i) && wal(wv[j]) == nv(j));
        let w = W::times_of(wu[i], wv[j]);
        let p = W::widen_of(positions[points[k - 1] as int]@[c]);
        assert(wal(w) == wal(wu[i]) * wal(wv[j]));
        assert(wal(W::times_of(w, p)) == wal(w) * wal(p));
    }
}

/// A regular quad is a bicubic B-spline patch, and its derivatives are those of the
/// patch.
pub proof fn patches_are_splines<S: Scalar, W: Wide<S>>(
    val: spec_fn(S) -> real,
    wal: spec_fn(W) -> real,
    points: Seq<u32>,
    uv: (W, W),
    positions: Seq<[S; 3]>,
    c: int,
)
    requires
        reads_both::<S, W>(val, wal),
        0 <= c < 3,
    ensures
        ({
            let s = patch_sample::<S, W>(points, uv, positions);
            let x = coordinate(val, positions, c);
            let (u, v) = (wal(uv.0), wal(uv.1));
            &&& val(s.p[c]) == patch_sum(|i: int| spline(i, u), |j: int| spline(j, v), x, points, 16)
            &&& wal(s.du[c]) == patch_sum(|i: int| slope(i, u), |j: int| spline(j, v), x, points, 16)
            &&& wal(s.dv[c]) == patch_sum(|i: int| spline(i, u), |j: int| slope(j, v), x, points, 16)
        }),
{
    let a = W::widen_of(W::narrow_of(uv.0));
    let b = W::widen_of(W::narrow_of(uv.1));
    let (u, v) = (wal(uv.0), wal(uv.1));
    assert(wal(a) == u && wal(b) == v);
    lemma_basis(wal, a);
    lemma_basis(wal, b);
    lemma_slopes(wal, a);
    lemma_slopes(wal, b);
    let (bu, bv) = (basis_of(a), basis_of(b));
    let (du, dv) = (derivative_of(a), derivative_of(b));
    assert forall|i: int| 0 <= i < 4 implies wal(#[trigger] bu[i]) == spline(i, u) by {
        assert(i == 0 || i == 1 || i == 2 || i == 3);
    }
    assert forall|i: int| 0 <= i < 4 implies wal(#[trigger] bv[i]) == spline(i, v) by {
        assert(i == 0 || i == 1 || i == 2 || i == 3);
    }
    let f = |i: int| spline(i, u);
    let g = |j: int| spline(j, v);
    let p = |i: int| slope(i, u);
    let q = |j: int| slope(j, v);
    lemma_patch_sum::<S, W>(val, wal, points, bu, bv, f, g, positions, c, 16);
    lemma_patch_sum::<S, W>(val, wal, points, du, bv, p, g, positions, c, 16);
    lemma_patch_sum::<S, W>(val, wal, points, bu, dv, f, q, positions, c, 16);
    let s = patch_sample::<S, W>(points, uv, positions);
    assert(s.p[c] == W::narrow_of(tensor_sum::<S, W>(points, bu, bv, positions, c, 16)));
    assert(s.du[c] == W::widen_of(W::narrow_of(tensor_sum::<S, W>(points, du, bv, positions, c, 16))));
    assert(s.dv[c] == W::widen_of(W::narrow_of(tensor_sum::<S, W>(points, bu, dv, positions, c, 16))));
}

/// The corners of a regular quad are the four control points in the middle of its
/// patch: `u` runs from the first to the second, `v` from the first to the last.
pub proof fn patches_have_their_quad_in_the_middle<S: Scalar>(mesh: Mesh<S>, adj: Adjacency, f: int, k: int)
    requires
        0 <= k <= 4,
        grid_of(mesh, adj, f, k) is Ok,
    ensures
        ({
            let points = grid_of(mesh, adj, f, k)->Ok_0;
            &&& points.len() == 16
            &&& points[5] == quad_at(mesh, f)[0]
            &&& points[6] == quad_at(mesh, f)[1]
            &&& points[10] == quad_at(mesh, f)[2]
            &&& points[9] == quad_at(mesh, f)[3]
        }),
    decreases k,
{
    if k > 0 {
        patches_have_their_quad_in_the_middle(mesh, adj, f, k - 1);
        let before = grid_of(mesh, adj, f, k - 1)->Ok_0;
        let ring = ring_of(mesh, adj, quad_at(mesh, f)[k - 1])->Ok_0;
        let slot = place_of(ring.faces, f as u32)->Some_0;
        lemma_rings_go_outside(before, k - 1, rotated_ring(ring, slot));
    } else {
        let points = grid_core(quad_at(mesh, f));
        assert(points.len() == 16);
    }
}

/// The ring of a corner fills the rim of the grid only.
proof fn lemma_rings_go_outside(points: Seq<u32>, k: int, ring: RingModel)
    requires
        points.len() == 16,
        0 <= k < 4,
    ensures
        grid_with_ring(points, k, ring).len() == 16,
        grid_with_ring(points, k, ring)[5] == points[5],
        grid_with_ring(points, k, ring)[6] == points[6],
        grid_with_ring(points, k, ring)[10] == points[10],
        grid_with_ring(points, k, ring)[9] == points[9],
{
    if k == 0 {
    } else if k == 1 {
    } else if k == 2 {
    } else {
    }
}

} // verus!
