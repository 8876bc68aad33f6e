//! The box of a quad holds its part of the surface.

use crate::base::{is_base, level_ok, mesh_faces};
use crate::blends::{coordinate, lemma_applied_value, lemma_node_points, lemma_sampled_node, lemma_tensor_value};
use crate::bounds::{box_of, is_face_box, spans, BoxModel};
use crate::connectivity::{
    corner_keys, distinct, edge_key_of, key_labels, lemma_distinct, lemma_flat_at, next_corner, pairs,
};
use crate::copies::lemma_same_support;
use crate::error::KernelError;
use crate::isolation::{
    eval_ready, is_cutout, is_node, is_support, node_is_ok, node_ok, refined_cutout, refines_cutout, single_step,
    support_corners, touches, Cutout, IsolationNode,
};
use crate::level::all_true;
use crate::limit::{
    corner_rows_fit, corner_sector_of, lemma_ring_ok, limit_ready, ring_ok, rule_of, rule_ok, sectors_of, RuleModel,
};
use crate::limit_eval::{
    applied, corner_place, corner_sample, frame_of, lemma_node_quadrant, middle_of, narrowed, nearest_corner_of,
    node_frame, patch_sample, patch_weights, place_in_parent, quadrant_of, sampled, snap_target_of, SampleModel,
};
use crate::masks::{
    crease_position, edge_share, extraordinary_model, face_share, no_row, own_share, pushed, regular_model,
    smooth_model,
};
use crate::means::{
    inner_vertices_unfold, keeps_sign, limit_points_are_means, means_lie_between, orders_exactly,
    refined_points_are_means,
};
use crate::metric::Metric;
use crate::options::{BoundaryInterpolation, Scheme, SchemeOptions, UniformRefine};
use crate::patch::{basis_of, control_points_are_vertices, grid_of, grids_of, patch_of_quad, regular_quad};
use crate::quads::lemma_inner_vertex_has_two_faces;
use crate::refiner::{level_rows, result_of, Refinement, Refiner};
use crate::results::quads_linked;
use crate::ring::{
    faces_at, fan_start, fan_step, fan_steps, fan_walk, is_leading_step, lemma_walk_len, lemma_walk_range, quad_at,
    quads_ok, ring_contents, ring_of, ring_shape, RingModel,
};
use crate::rows::{flat, row_start};
use crate::rules::{corner_at_vertex, lemma_corner_at_vertex};
use crate::scalar::{one_of, Scalar, Wide};
use crate::sharpness::other_end;
use crate::stencil::{accumulated, identity_row, merged, row_below, rows_below, written_from};
use crate::topology::{all_below, Adjacency, Mesh};
use crate::unity::{
    lemma_basis, lemma_corner_range, lemma_node_rows, limit_weights_sum_to_one, patch_weights_sum_to_one, reads_both,
    value,
};
use crate::weights::{lemma_one, reads_exactly, total};
use vstd::prelude::*;

verus! {

/// The smaller of two numbers is at most each of them, the larger at least.
pub open spec fn bounds_exactly<S: Metric>(val: spec_fn(S) -> real) -> bool {
    &&& forall|a: S, b: S|
        val(#[trigger] S::smaller_of(a, b)) <= val(a) && val(S::smaller_of(a, b)) <= val(b)
    &&& forall|a: S, b: S| val(#[trigger] S::larger_of(a, b)) >= val(a) && val(S::larger_of(a, b)) >= val(b)
}

/// A box holds the points that it was made from.
pub proof fn boxes_hold_their_points<S: Metric>(
    val: spec_fn(S) -> real,
    points: Seq<u32>,
    positions: Seq<[S; 3]>,
    k: int,
    i: int,
    c: int,
)
    requires
        bounds_exactly(val),
        0 <= i < k <= points.len(),
        0 <= c < 3,
    ensures
        val(box_of(points, positions, k).min[c]) <= val(positions[points[i] as int]@[c]),
        val(positions[points[i] as int]@[c]) <= val(box_of(points, positions, k).max[c]),
    decreases k,
{
    let before = box_of(points, positions, k - 1);
    let p = positions[points[k - 1] as int]@;
    let all = box_of(points, positions, k);
    assert(all.min[c] == S::smaller_of(before.min[c], p[c]));
    assert(all.max[c] == S::larger_of(before.max[c], p[c]));
    if i < k - 1 {
        boxes_hold_their_points(val, points, positions, k - 1, i, c);
    }
}

proof fn times_keeps_order(w: real, a: real, b: real)
    requires
        w >= 0 as real,
        a <= b,
    ensures
        w * a <= w * b,
{
    assert(w * a <= w * b) by (nonlinear_arith)
        requires
            w >= 0 as real,
            a <= b,
    ;
}

proof fn product_is_not_negative(a: real, b: real)
    requires
        a >= 0 as real,
        b >= 0 as real,
    ensures
        a * b >= 0 as real,
{
    assert(a * b >= 0 as real) by (nonlinear_arith)
        requires
            a >= 0 as real,
            b >= 0 as real,
    ;
}

/// What a row with no negative weights gives of numbers between two bounds lies
/// between the bounds times the sum of the weights.
proof fn lemma_between<W>(
    wal: spec_fn(W) -> real,
    x: spec_fn(u32) -> real,
    row: Seq<(u32, W)>,
    lo: real,
    hi: real,
)
    requires
        forall|k: int| 0 <= k < row.len() ==> wal((#[trigger] row[k]).1) >= 0 as real && lo <= x(row[k].0) <= hi,
    ensures
        total(wal, row) * lo <= value(wal, x, row) <= total(wal, row) * hi,
    decreases row.len(),
{
    if row.len() == 0 {
        assert((0 as real) * lo == 0 as real) by (nonlinear_arith);
        assert((0 as real) * hi == 0 as real) by (nonlinear_arith);
    } else {
        let front = row.drop_last();
        assert forall|k: int| 0 <= k < front.len() implies wal((#[trigger] front[k]).1) >= 0 as real && lo <= x(
            front[k].0,
        ) <= hi by {
            assert(front[k] == row[k]);
        }
        lemma_between(wal, x, front, lo, hi);
        let e = row[row.len() - 1];
        let w = wal(e.1);
        let t = total(wal, front);
        times_keeps_order(w, lo, x(e.0));
        times_keeps_order(w, x(e.0), hi);
        assert((t + w) * lo == t * lo + w * lo) by (nonlinear_arith);
        assert((t + w) * hi == t * hi + w * hi) by (nonlinear_arith);
    }
}

/// The mean of numbers between two bounds lies between them.
pub proof fn means_stay_between<W>(
    wal: spec_fn(W) -> real,
    x: spec_fn(u32) -> real,
    row: Seq<(u32, W)>,
    lo: real,
    hi: real,
)
    requires
        total(wal, row) == 1 as real,
        forall|k: int| 0 <= k < row.len() ==> wal((#[trigger] row[k]).1) >= 0 as real && lo <= x(row[k].0) <= hi,
    ensures
        lo <= value(wal, x, row) <= hi,
{
    lemma_between(wal, x, row, lo, hi);
    assert((1 as real) * lo == lo) by (nonlinear_arith);
    assert((1 as real) * hi == hi) by (nonlinear_arith);
}

/// The polynomials of the basis are not negative between nought and one.
proof fn lemma_cubics(x: real)
    requires
        0 as real <= x <= 1 as real,
    ensures
        ({
            let y = 1 as real - x;
            &&& (y * y * y) / (6 as real) >= 0 as real
            &&& ((3 as real) * x * x * x - (6 as real) * x * x + (4 as real)) / (6 as real) >= 0 as real
            &&& (-(3 as real) * x * x * x + (3 as real) * x * x + (3 as real) * x + (1 as real)) / (6 as real)
                >= 0 as real
            &&& (x * x * x) / (6 as real) >= 0 as real
        }),
{
    let y = 1 as real - x;
    let a = x * x;
    let b = x * x * x;
    product_is_not_negative(y, y);
    product_is_not_negative(y * y, y);
    product_is_not_negative(x, x);
    product_is_not_negative(a, x);
    times_keeps_order(x, x, 1 as real);
    assert(x * (1 as real) == x) by (nonlinear_arith);
    times_keeps_order(a, x, 1 as real);
    assert(a * (1 as real) == a) by (nonlinear_arith);
    assert(b <= a && a <= x);
    product_is_not_negative(y, 1 as real + x - a);
    assert((1 as real - x) * (1 as real + x - a) == 1 as real - (2 as real) * a + b) by (nonlinear_arith)
        requires
            a == x * x,
            b == x * x * x,
    ;
    assert((3 as real) * x * x * x == (3 as real) * b) by (nonlinear_arith)
        requires
            b == x * x * x,
    ;
    assert(-(3 as real) * x * x * x == -(3 as real) * b) by (nonlinear_arith)
        requires
            b == x * x * x,
    ;
    assert((6 as real) * x * x == (6 as real) * a) by (nonlinear_arith)
        requires
            a == x * x,
    ;
    assert((3 as real) * x * x == (3 as real) * a) by (nonlinear_arith)
        requires
            a == x * x,
    ;
}

/// The weights of the control points of a patch are not negative.
pub proof fn patch_weights_are_not_negative<S: Scalar, W: Wide<S>>(
    wal: spec_fn(W) -> real,
    points: Seq<u32>,
    uv: (W, W),
    k: int,
)
    requires
        reads_exactly(wal),
        0 as real <= wal(W::widen_of(W::narrow_of(uv.0))) <= 1 as real,
        0 as real <= wal(W::widen_of(W::narrow_of(uv.1))) <= 1 as real,
        0 <= k < 16,
    ensures
        wal(patch_weights::<S, W>(points, uv)[k].1) >= 0 as real,
{
    let u = W::widen_of(W::narrow_of(uv.0));
    let v = W::widen_of(W::narrow_of(uv.1));
    lemma_basis(wal, u);
    lemma_basis(wal, v);
    lemma_cubics(wal(u));
    lemma_cubics(wal(v));
    let a = basis_of(u)[k % 4];
    let b = basis_of(v)[k / 4];
    assert(wal(a) >= 0 as real);
    assert(wal(b) >= 0 as real);
    assert(wal(W::times_of(a, b)) == wal(a) * wal(b));
    product_is_not_negative(wal(a), wal(b));
}

/// Every point of a regular quad lies in the box of the quad, unless arithmetic
/// rounds.
pub proof fn regular_quads_stay_in_their_box<S: Metric, W: Wide<S>>(
    val: spec_fn(S) -> real,
    wal: spec_fn(W) -> real,
    mesh: Mesh<S>,
    adj: Adjacency,
    positions: Seq<[S; 3]>,
    face: int,
    b: BoxModel<S>,
    uv: (W, W),
    c: int,
)
    requires
        quads_ok(mesh, adj),
        0 <= face < mesh.face_vertex_counts@.len(),
        regular_quad(mesh, adj, face),
        grid_of(mesh, adj, face, 4) is Ok,
        is_face_box(mesh, adj, positions, face, b),
        reads_both::<S, W>(val, wal),
        bounds_exactly(val),
        0 as real <= wal(W::widen_of(W::narrow_of(uv.0))) <= 1 as real,
        0 as real <= wal(W::widen_of(W::narrow_of(uv.1))) <= 1 as real,
        0 <= c < 3,
    ensures
        ({
            let p = patch_sample::<S, W>(grid_of(mesh, adj, face, 4)->Ok_0, uv, positions).p;
            val(b.min[c]) <= val(p[c]) <= val(b.max[c])
        }),
{
    let points = grid_of(mesh, adj, face, 4)->Ok_0;
    control_points_are_vertices(mesh, adj, face);
    assert(b == box_of(points, positions, points.len() as int));
    let row = patch_weights::<S, W>(points, uv);
    let x = coordinate(val, positions, c);
    let lo = val(b.min[c]);
    let hi = val(b.max[c]);
    patch_weights_sum_to_one::<S, W>(wal, points, uv);
    assert forall|k: int| 0 <= k < row.len() implies wal((#[trigger] row[k]).1) >= 0 as real && lo <= x(row[k].0)
        <= hi by {
        patch_weights_are_not_negative::<S, W>(wal, points, uv, k);
        boxes_hold_their_points(val, points, positions, points.len() as int, k, c);
    }
    means_stay_between(wal, x, row, lo, hi);
    lemma_tensor_value::<S, W>(val, wal, points, uv, positions, c, 16);
    assert(row.take(16) =~= row);
}

// ---------------------------------------------------------------------------
// Quadrants
// ---------------------------------------------------------------------------
/// A place lies in the unit square.
pub open spec fn in_square<W>(wal: spec_fn(W) -> real, uv: (W, W)) -> bool {
    &&& 0 as real <= wal(uv.0) <= 1 as real
    &&& 0 as real <= wal(uv.1) <= 1 as real
}

/// Where corner `k` of the unit square is.
pub open spec fn corner_spot(k: int) -> (real, real) {
    (
        if k == 1 || k == 2 {
            1 as real
        } else {
            0 as real
        },
        if k == 2 || k == 3 {
            1 as real
        } else {
            0 as real
        },
    )
}

/// The middle between two places.
pub open spec fn middle_spot(a: (real, real), b: (real, real)) -> (real, real) {
    ((a.0 + b.0) / (2 as real), (a.1 + b.1) / (2 as real))
}

/// Corner `step` of quadrant `k`, from the corner of the quad on.
pub open spec fn quadrant_spot(k: int, step: int) -> (real, real) {
    if step == 0 {
        corner_spot(k)
    } else if step == 1 {
        middle_spot(corner_spot(k), corner_spot((k + 1) % 4))
    } else if step == 2 {
        ((1 as real) / (2 as real), (1 as real) / (2 as real))
    } else {
        middle_spot(corner_spot(k), corner_spot((k + 3) % 4))
    }
}

proof fn lemma_corner_spot<W: Scalar>(wal: spec_fn(W) -> real, k: int)
    requires
        reads_exactly(wal),
    ensures
        wal(corner_place::<W>(k).0) == corner_spot(k).0,
        wal(corner_place::<W>(k).1) == corner_spot(k).1,
{
    lemma_one::<W>(wal);
}

proof fn lemma_middle_spot<W: Scalar>(wal: spec_fn(W) -> real, a: (W, W), b: (W, W))
    requires
        reads_exactly(wal),
    ensures
        wal(middle_of(a, b).0) == (wal(a.0) + wal(b.0)) / (2 as real),
        wal(middle_of(a, b).1) == (wal(a.1) + wal(b.1)) / (2 as real),
{
    let half = W::ratio_of(1, 2);
    let h = wal(half);
    assert(h == (1int as real) / (2int as real));
    let p = wal(a.0) + wal(b.0);
    let q = wal(a.1) + wal(b.1);
    assert(wal(W::times_of(W::plus_of(a.0, b.0), half)) == p * h);
    assert(wal(W::times_of(W::plus_of(a.1, b.1), half)) == q * h);
    assert(p * h == p / (2 as real)) by (nonlinear_arith)
        requires
            h == (1 as real) / (2 as real),
    ;
    assert(q * h == q / (2 as real)) by (nonlinear_arith)
        requires
            h == (1 as real) / (2 as real),
    ;
}

pub(crate) proof fn lemma_quadrant_spot<W: Scalar>(wal: spec_fn(W) -> real, turn: int, k: int, i: int)
    requires
        reads_exactly(wal),
        0 <= turn < 4,
        0 <= k < 4,
        0 <= i < 4,
    ensures
        wal(place_in_parent::<W>(turn, k, i).0) == quadrant_spot(k, (i + 4 - turn) % 4).0,
        wal(place_in_parent::<W>(turn, k, i).1) == quadrant_spot(k, (i + 4 - turn) % 4).1,
{
    lemma_corner_spot::<W>(wal, k);
    lemma_corner_spot::<W>(wal, (k + 1) % 4);
    lemma_corner_spot::<W>(wal, (k + 3) % 4);
    lemma_middle_spot::<W>(wal, corner_place(k), corner_place((k + 1) % 4));
    lemma_middle_spot::<W>(wal, corner_place(k), corner_place((k + 3) % 4));
    assert(wal(W::ratio_of(1, 2)) == (1int as real) / (2int as real));
}

/// The sides of a quadrant from its origin, and a step from there into the quadrant.
pub open spec fn sides_fit(e: (real, real), f: (real, real), d: (real, real)) -> bool {
    let h = (1 as real) / (2 as real);
    let o = 0 as real;
    ||| e == (h, o) && f == (o, h) && o <= d.0 <= h && o <= d.1 <= h
    ||| e == (o, h) && f == (-h, o) && -h <= d.0 <= o && o <= d.1 <= h
    ||| e == (-h, o) && f == (o, -h) && -h <= d.0 <= o && -h <= d.1 <= o
    ||| e == (o, -h) && f == (h, o) && o <= d.0 <= h && -h <= d.1 <= o
}

/// The area that two sides span is a quarter.
pub(crate) proof fn lemma_quarter(e: (real, real), f: (real, real), d: (real, real))
    requires
        sides_fit(e, f, d),
    ensures
        e.0 * f.1 - f.0 * e.1 == (1 as real) / (4 as real),
{
    let h = (1 as real) / (2 as real);
    let (a, b) = e;
    let (x, y) = f;
    if a == h && b == 0 as real && x == 0 as real && y == h {
        assert(a * y - x * b == (1 as real) / (4 as real)) by (nonlinear_arith)
            requires
                a == (1 as real) / (2 as real),
                y == (1 as real) / (2 as real),
                x == 0 as real,
                b == 0 as real,
        ;
    } else if a == 0 as real && b == h && x == -h && y == 0 as real {
        assert(a * y - x * b == (1 as real) / (4 as real)) by (nonlinear_arith)
            requires
                a == 0 as real,
                y == 0 as real,
                x == -((1 as real) / (2 as real)),
                b == (1 as real) / (2 as real),
        ;
    } else if a == -h && b == 0 as real && x == 0 as real && y == -h {
        assert(a * y - x * b == (1 as real) / (4 as real)) by (nonlinear_arith)
            requires
                a == -((1 as real) / (2 as real)),
                y == -((1 as real) / (2 as real)),
                x == 0 as real,
                b == 0 as real,
        ;
    } else {
        assert(a * y - x * b == (1 as real) / (4 as real)) by (nonlinear_arith)
            requires
                a == 0 as real,
                y == 0 as real,
                x == (1 as real) / (2 as real),
                b == -((1 as real) / (2 as real)),
        ;
    }
}

pub(crate) proof fn lemma_times_four(a: real, det: real, d: real)
    requires
        det == (1 as real) / (4 as real),
    ensures
        det != 0 as real,
        (a / det) * d == (4 as real) * (a * d),
{
    assert((a / det) * d == (4 as real) * (a * d)) by (nonlinear_arith)
        requires
            det == (1 as real) / (4 as real),
    ;
}

pub(crate) proof fn lemma_part(a: real, d: real)
    ensures
        a == 0 as real ==> a * d == 0 as real,
        a == (1 as real) / (2 as real) ==> a * d == d / (2 as real),
        a == -((1 as real) / (2 as real)) ==> a * d == -(d / (2 as real)),
{
    if a == 0 as real {
        assert(a * d == 0 as real) by (nonlinear_arith)
            requires
                a == 0 as real,
        ;
    }
    if a == (1 as real) / (2 as real) {
        assert(a * d == d / (2 as real)) by (nonlinear_arith)
            requires
                a == (1 as real) / (2 as real),
        ;
    }
    if a == -((1 as real) / (2 as real)) {
        assert(a * d == -(d / (2 as real))) by (nonlinear_arith)
            requires
                a == -((1 as real) / (2 as real)),
        ;
    }
}

/// The sides of quadrant `k` and the step to a place in it.
proof fn lemma_sides(turn: int, k: int, u: real, v: real)
    requires
        0 <= turn < 4,
        0 <= k < 4,
        0 as real <= u <= 1 as real,
        0 as real <= v <= 1 as real,
        u > (1 as real) / (2 as real) <==> k == 1 || k == 2,
        v > (1 as real) / (2 as real) <==> k == 2 || k == 3,
    ensures
        ({
            let o = quadrant_spot(k, (4 - turn) % 4);
            let a = quadrant_spot(k, (5 - turn) % 4);
            let b = quadrant_spot(k, (7 - turn) % 4);
            sides_fit((a.0 - o.0, a.1 - o.1), (b.0 - o.0, b.1 - o.1), (u - o.0, v - o.1))
        }),
{
    if k == 0 {
        assert(turn == 0 || turn == 1 || turn == 2 || turn == 3);
    } else if k == 1 {
        assert(turn == 0 || turn == 1 || turn == 2 || turn == 3);
    } else if k == 2 {
        assert(turn == 0 || turn == 1 || turn == 2 || turn == 3);
    } else {
        assert(turn == 0 || turn == 1 || turn == 2 || turn == 3);
    }
}

/// A place in a quad is a place in its quadrant.
#[verifier::rlimit(60)]
pub proof fn places_stay_in_their_quadrant<W: Scalar>(wal: spec_fn(W) -> real, turn: int, uv: (W, W))
    requires
        reads_exactly(wal),
        orders_exactly(wal),
        0 <= turn < 4,
        in_square(wal, uv),
    ensures
        in_square(wal, frame_of::<W>(turn, quadrant_of(uv)).inside(uv)),
{
    let k = quadrant_of(uv);
    assert(wal(W::ratio_of(1, 2)) == (1int as real) / (2int as real));
    lemma_sides(turn, k, wal(uv.0), wal(uv.1));
    lemma_quadrant_spot::<W>(wal, turn, k, 0);
    lemma_quadrant_spot::<W>(wal, turn, k, 1);
    lemma_quadrant_spot::<W>(wal, turn, k, 3);
    let o = place_in_parent::<W>(turn, k, 0);
    let a = place_in_parent::<W>(turn, k, 1);
    let b = place_in_parent::<W>(turn, k, 3);
    let eu = (W::minus_of(a.0, o.0), W::minus_of(a.1, o.1));
    let ev = (W::minus_of(b.0, o.0), W::minus_of(b.1, o.1));
    let e = (wal(eu.0), wal(eu.1));
    let f = (wal(ev.0), wal(ev.1));
    let d = (wal(uv.0) - wal(o.0), wal(uv.1) - wal(o.1));
    assert(sides_fit(e, f, d));
    lemma_quarter(e, f, d);
    let whole = W::minus_of(W::times_of(eu.0, ev.1), W::times_of(ev.0, eu.1));
    let det = wal(whole);
    assert(det == e.0 * f.1 - f.0 * e.1);
    let step = (W::minus_of(uv.0, o.0), W::minus_of(uv.1, o.1));
    let r0 = W::over_of(ev.1, whole);
    let r1 = W::over_of(W::negated_of(ev.0), whole);
    let s0 = W::over_of(W::negated_of(eu.1), whole);
    let s1 = W::over_of(eu.0, whole);
    lemma_times_four(f.1, det, d.0);
    lemma_times_four(-f.0, det, d.1);
    lemma_times_four(-e.1, det, d.0);
    lemma_times_four(e.0, det, d.1);
    assert(wal(r0) == f.1 / det && wal(r1) == (-f.0) / det && wal(s0) == (-e.1) / det && wal(s1) == e.0 / det);
    assert(wal(W::times_of(r0, step.0)) == wal(r0) * d.0);
    assert(wal(W::times_of(r1, step.1)) == wal(r1) * d.1);
    assert(wal(W::times_of(s0, step.0)) == wal(s0) * d.0);
    assert(wal(W::times_of(s1, step.1)) == wal(s1) * d.1);
    lemma_part(f.1, d.0);
    lemma_part(-f.0, d.1);
    lemma_part(-e.1, d.0);
    lemma_part(e.0, d.1);
}

// ---------------------------------------------------------------------------
// Any quad
// ---------------------------------------------------------------------------
/// Every point of a list lies between two bounds.
pub open spec fn points_between<S>(
    val: spec_fn(S) -> real,
    positions: Seq<[S; 3]>,
    c: int,
    lo: real,
    hi: real,
) -> bool {
    forall|i: int| 0 <= i < positions.len() ==> lo <= val((#[trigger] positions[i])@[c]) <= hi
}

/// The limit at a corner is a mean of the points that its row reads.
proof fn lemma_corner_between<S: Scalar, W: Wide<S>>(
    val: spec_fn(S) -> real,
    wal: spec_fn(W) -> real,
    mesh: Mesh<S>,
    adj: Adjacency,
    options: SchemeOptions,
    positions: Seq<[S; 3]>,
    face: u32,
    corner: int,
    s: SampleModel<S, W>,
    c: int,
    lo: real,
    hi: real,
)
    requires
        reads_both::<S, W>(val, wal),
        limit_ready(mesh, adj),
        face < mesh.face_vertex_counts@.len(),
        0 <= corner < 4,
        0 <= c < 3,
        corner_sample::<S, W>(mesh, adj, options, positions, face, corner) == Ok::<_, KernelError>(s),
        ({
            let row = corner_sector_of::<S, W>(mesh, adj, options, face, corner)->Ok_0.0;
            forall|k: int|
                0 <= k < row.len() ==> lo <= val(positions[(#[trigger] row[k]).0 as int]@[c]) <= hi
        }),
    ensures
        lo <= val(s.p[c]) <= hi,
{
    let v = quad_at(mesh, face as int)[corner];
    assert(v < mesh.vertex_count) by {
        reveal(quads_ok);
        assert(v == mesh.face_vertex_indices@[4 * face + corner]);
    }
    let ring = ring_of(mesh, adj, v)->Ok_0;
    lemma_ring_ok(mesh, adj, options, v);
    let rule = rule_of(mesh, adj, options, v, ring);
    let row = sectors_of::<S, W>(v, ring, rule).position;
    assert(row == corner_sector_of::<S, W>(mesh, adj, options, face, corner)->Ok_0.0);
    limit_weights_sum_to_one::<S, W>(val, wal, v, ring, rule);
    limit_points_are_means::<S, W>(val, wal, v, ring, rule);
    let x = coordinate(val, positions, c);
    assert forall|k: int| 0 <= k < row.len() implies lo <= x((#[trigger] row[k]).0) <= hi by {}
    means_lie_between(val, x, row, lo, hi);
    lemma_applied_value::<S, W>(val, wal, row, positions, c, row.len() as int);
    assert(row.take(row.len() as int) =~= row);
    let a = applied::<S, W>(row, positions);
    assert(s.p == narrowed::<S, W>(a));
    assert(s.p[c] == W::narrow_of(a[c]));
}

/// A row of a node is a row of the first level of its cutout.
proof fn lemma_node_means<S: Scalar>(
    val: spec_fn(S) -> real,
    mesh: Mesh<S>,
    adj: Adjacency,
    options: SchemeOptions,
    positions: Seq<[S; 3]>,
    face: u32,
    node: IsolationNode<S>,
    j: int,
)
    requires
        reads_exactly(val),
        orders_exactly(val),
        options.boundary_interpolation != BoundaryInterpolation::Natural,
        is_node(mesh, adj, options, positions, face, node),
        0 <= j < node.refined.level_stencils@[0]@.len(),
    ensures
        keeps_sign(val, node.refined.level_stencils@[0]@[j]),
{
    reveal(is_node);
    let cut = choose|cut: Cutout<S>| #[trigger]
        is_cutout(mesh, adj, face as int, cut) && refined_cutout(cut, options, node.refined);
    let (refiner, req, refinement) = choose|refiner: Refiner<S>, req: UniformRefine<S>, refinement: Refinement<S>|
        refines_cutout(refiner, cut, options) && single_step(req) && #[trigger] refiner.refined_to(req, refinement)
            && result_of(refinement, node.refined);
    let levels = refinement.chain_of();
    let level = levels[0];
    let rows = level_rows(Scheme::CatmullClark, options, level);
    let table = node.refined.level_stencils@[0];
    assert(written_from(table, level_rows(refinement.scheme_of(), refinement.options_of(), levels[0])));
    assert(table.indices@.len() == flat(rows).len());
    assert(table@ == rows);
    assert(level_ok(Scheme::CatmullClark, levels[0]));
    reveal(level_ok);
    reveal(level_rows);
    assert(all_true(level.face_selected@) && inner_vertices_unfold(level)) by {
        reveal(is_base);
        let t = level.topo;
        let faces = mesh_faces(refiner.mesh());
        let labels = key_labels(corner_keys(faces));
        assert(t.describes(faces, labels, level.n()));
        assert forall|v: int|
            0 <= v < level.n() && !(#[trigger] t.vertex_is_boundary@[v]) implies t.vertex_faces@[v].len() != 1 by {
            lemma_inner_vertex_has_two_faces(t, faces, labels, level.n(), v);
        }
    }
    refined_points_are_means(val, level, options, j);
}

/// The points of a node are means of the points of its cutout.
proof fn lemma_node_between<S: Scalar>(
    val: spec_fn(S) -> real,
    mesh: Mesh<S>,
    adj: Adjacency,
    options: SchemeOptions,
    positions: Seq<[S; 3]>,
    face: u32,
    node: IsolationNode<S>,
    c: int,
    lo: real,
    hi: real,
)
    requires
        reads_exactly(val),
        orders_exactly(val),
        options.boundary_interpolation != BoundaryInterpolation::Natural,
        is_node(mesh, adj, options, positions, face, node),
        0 <= c < 3,
        forall|i: int|
            0 <= i < node.sub_vertices@.len() ==> lo <= val(
                positions[(#[trigger] node.sub_vertices@[i]) as int]@[c],
            ) <= hi,
    ensures
        points_between(val, node.positions@, c, lo, hi),
{
    let rows = node.refined.level_stencils@[0]@;
    let n = node.sub_vertices@.len();
    node_is_ok(mesh, adj, options, positions, face, node);
    assert(rows.len() == node.positions@.len() && rows_below(rows, n)) by {
        reveal(node_ok);
    }
    let x = |i: u32| coordinate(val, positions, c)(node.sub_vertices@[i as int]);
    assert forall|j: int| 0 <= j < node.positions@.len() implies lo <= val((#[trigger] node.positions@[j])@[c])
        <= hi by {
        lemma_node_means(val, mesh, adj, options, positions, face, node, j);
        lemma_node_rows(val, mesh, adj, options, positions, face, node, j);
        assert(row_below(rows[j], n));
        assert forall|k: int| 0 <= k < rows[j].len() implies lo <= x((#[trigger] rows[j][k]).0) <= hi by {
            let i = rows[j][k].0 as int;
            assert(0 <= i < n);
            assert(lo <= val(positions[node.sub_vertices@[i] as int]@[c]) <= hi);
        }
        means_lie_between(val, x, rows[j], lo, hi);
        lemma_node_points(val, mesh, adj, options, positions, face, node, j, c);
    }
}

/// Where all points of a mesh lie between two bounds, so does its limit.
pub proof fn limits_stay_between_the_points<S: Scalar, W: Wide<S>>(
    val: spec_fn(S) -> real,
    wal: spec_fn(W) -> real,
    mesh: Mesh<S>,
    adj: Adjacency,
    options: SchemeOptions,
    positions: Seq<[S; 3]>,
    face: u32,
    uv: (W, W),
    left: nat,
    s: SampleModel<S, W>,
    c: int,
    lo: real,
    hi: real,
)
    requires
        reads_both::<S, W>(val, wal),
        orders_exactly(val),
        orders_exactly(wal),
        options.boundary_interpolation != BoundaryInterpolation::Natural,
        eval_ready(mesh, adj),
        grids_of(mesh, adj, mesh.face_vertex_counts@.len() as int) is Ok,
        face < mesh.face_vertex_counts@.len(),
        positions.len() == mesh.vertex_count,
        in_square(wal, uv),
        0 <= c < 3,
        points_between(val, positions, c, lo, hi),
        sampled::<S, W>(mesh, adj, options, positions, face, uv, left, Ok(s)),
    ensures
        lo <= val(s.p[c]) <= hi,
    decreases left,
{
    lemma_corner_range(uv);
    let snap = snap_target_of(mesh, adj, options, face, uv);
    let corner = match snap {
        Some(corner) => corner,
        None => nearest_corner_of(uv),
    };
    if regular_quad(mesh, adj, face as int) {
        reveal(sampled);
        patch_of_quad(mesh, adj, face as int);
        let points = grid_of(mesh, adj, face as int, 4)->Ok_0;
        control_points_are_vertices(mesh, adj, face as int);
        lemma_patch_between::<S, W>(val, wal, points, uv, positions, c, lo, hi);
    } else if snap is Some || left == 0 {
        reveal(sampled);
        let row = corner_sector_of::<S, W>(mesh, adj, options, face, corner)->Ok_0.0;
        corner_rows_fit::<S, W>(mesh, adj, options, face, corner);
        assert forall|k: int| 0 <= k < row.len() implies lo <= val(positions[(#[trigger] row[k]).0 as int]@[c])
            <= hi by {
            assert(row[k].0 < positions.len());
        }
        lemma_corner_between::<S, W>(val, wal, mesh, adj, options, positions, face, corner, s, c, lo, hi);
    } else {
        let (node, inner) = lemma_sampled_node::<S, W>(mesh, adj, options, positions, face, uv, left, s);
        node_is_ok(mesh, adj, options, positions, face, node);
        let k = quadrant_of(uv);
        lemma_node_quadrant(node, mesh.vertex_count as int, k);
        assert(all_below(node.sub_vertices@, mesh.vertex_count as int)) by {
            reveal(node_ok);
        }
        lemma_node_between(val, mesh, adj, options, positions, face, node, c, lo, hi);
        places_stay_in_their_quadrant::<W>(wal, node.children@[k].turn as int, uv);
        limits_stay_between_the_points::<S, W>(
            val,
            wal,
            node.refined.topology,
            node.refined.adjacency,
            options,
            node.positions@,
            node.children@[k].face,
            node_frame::<S, W>(node, k).inside(uv),
            (left - 1) as nat,
            inner->Ok_0,
            c,
            lo,
            hi,
        );
    }
}

/// A patch lies between the bounds of its control points.
proof fn lemma_patch_between<S: Scalar, W: Wide<S>>(
    val: spec_fn(S) -> real,
    wal: spec_fn(W) -> real,
    points: Seq<u32>,
    uv: (W, W),
    positions: Seq<[S; 3]>,
    c: int,
    lo: real,
    hi: real,
)
    requires
        reads_both::<S, W>(val, wal),
        in_square(wal, uv),
        points.len() == 16,
        0 <= c < 3,
        forall|k: int| 0 <= k < 16 ==> lo <= val(positions[(#[trigger] points[k]) as int]@[c]) <= hi,
    ensures
        lo <= val(patch_sample::<S, W>(points, uv, positions).p[c]) <= hi,
{
    let row = patch_weights::<S, W>(points, uv);
    let x = coordinate(val, positions, c);
    assert(wal(W::widen_of(W::narrow_of(uv.0))) == wal(uv.0));
    assert(wal(W::widen_of(W::narrow_of(uv.1))) == wal(uv.1));
    patch_weights_sum_to_one::<S, W>(wal, points, uv);
    assert forall|k: int| 0 <= k < row.len() implies wal((#[trigger] row[k]).1) >= 0 as real && lo <= x(row[k].0)
        <= hi by {
        patch_weights_are_not_negative::<S, W>(wal, points, uv, k);
        assert(row[k].0 == points[k]);
    }
    means_stay_between(wal, x, row, lo, hi);
    lemma_tensor_value::<S, W>(val, wal, points, uv, positions, c, 16);
    assert(row.take(16) =~= row);
}

// ---------------------------------------------------------------------------
// What a limit row reads
// ---------------------------------------------------------------------------
/// A row reads only what `p` holds of.
spec fn reads_only<S>(row: Seq<(u32, S)>, p: spec_fn(u32) -> bool) -> bool {
    forall|k: int| 0 <= k < row.len() ==> p((#[trigger] row[k]).0)
}

proof fn lemma_pushed_reads<S: Scalar, W: Wide<S>>(row: Seq<(u32, S)>, i: u32, w: W, p: spec_fn(u32) -> bool)
    requires
        reads_only(row, p),
        p(i),
    ensures
        reads_only(pushed::<S, W>(row, i, w), p),
{
    let src = seq![(i, W::narrow_of(w))];
    assert(src.drop_last() =~= Seq::<(u32, S)>::empty());
    let one = one_of::<S>();
    assert(merged(row, src.drop_last(), one) == row);
    let more = merged(row, src, one);
    assert(more == accumulated(row, i, S::times_of(one, W::narrow_of(w))));
    assert(reads_only(more, p)) by {
        assert forall|k: int| 0 <= k < more.len() implies p((#[trigger] more[k]).0) by {
            if k < row.len() {
                assert(p(row[k].0));
            }
        }
    }
}

proof fn lemma_regular_reads<S: Scalar, W: Wide<S>>(v: u32, ring: RingModel, i: int, p: spec_fn(u32) -> bool)
    requires
        i <= ring.neighbors.len(),
        i <= ring.diagonals.len(),
        p(v),
        forall|k: int| 0 <= k < ring.neighbors.len() ==> p(#[trigger] ring.neighbors[k]),
        forall|k: int| 0 <= k < ring.diagonals.len() ==> p(#[trigger] ring.diagonals[k]),
    ensures
        reads_only(regular_model::<S, W>(v, ring, i).position, p),
    decreases i,
{
    if i <= 0 {
        lemma_pushed_reads::<S, W>(no_row(), v, W::ratio_of(4, 9), p);
    } else {
        lemma_regular_reads::<S, W>(v, ring, i - 1, p);
        let before = regular_model::<S, W>(v, ring, i - 1).position;
        let n = ring.neighbors[i - 1];
        let d = ring.diagonals[i - 1];
        lemma_pushed_reads::<S, W>(before, n, W::ratio_of(1, 9), p);
        lemma_pushed_reads::<S, W>(pushed::<S, W>(before, n, W::ratio_of(1, 9)), d, W::ratio_of(1, 36), p);
    }
}

proof fn lemma_extraordinary_reads<S: Scalar, W: Wide<S>>(v: u32, ring: RingModel, i: int, p: spec_fn(u32) -> bool)
    requires
        i <= ring.neighbors.len(),
        i <= ring.diagonals.len(),
        p(v),
        forall|k: int| 0 <= k < ring.neighbors.len() ==> p(#[trigger] ring.neighbors[k]),
        forall|k: int| 0 <= k < ring.diagonals.len() ==> p(#[trigger] ring.diagonals[k]),
    ensures
        reads_only(extraordinary_model::<S, W>(v, ring, i).position, p),
    decreases i,
{
    let valence = ring.diagonals.len() as int;
    if i <= 0 {
        lemma_pushed_reads::<S, S>(no_row(), v, own_share::<S>(valence), p);
    } else {
        lemma_extraordinary_reads::<S, W>(v, ring, i - 1, p);
        let before = extraordinary_model::<S, W>(v, ring, i - 1).position;
        let n = ring.neighbors[i - 1];
        let d = ring.diagonals[i - 1];
        let e = edge_share::<S>(valence);
        lemma_pushed_reads::<S, S>(before, n, e, p);
        lemma_pushed_reads::<S, S>(pushed::<S, S>(before, n, e), d, face_share::<S>(valence), p);
    }
}

proof fn lemma_limit_reads<S: Scalar, W: Wide<S>>(
    v: u32,
    ring: RingModel,
    rule: RuleModel,
    p: spec_fn(u32) -> bool,
)
    requires
        ring_ok(ring),
        rule_ok(ring, rule),
        p(v),
        forall|k: int| 0 <= k < ring.neighbors.len() ==> p(#[trigger] ring.neighbors[k]),
        forall|k: int| 0 <= k < ring.diagonals.len() ==> p(#[trigger] ring.diagonals[k]),
    ensures
        reads_only(sectors_of::<S, W>(v, ring, rule).position, p),
{
    assert(reads_only(identity_row::<S>(v), p));
    match rule {
        RuleModel::Smooth => {
            let valence = ring.diagonals.len() as int;
            lemma_extraordinary_reads::<S, W>(v, ring, valence, p);
            if valence == 4 {
                lemma_regular_reads::<S, W>(v, ring, 4, p);
            }
            assert(sectors_of::<S, W>(v, ring, rule).position == smooth_model::<S, W>(v, ring).position);
        },
        RuleModel::Crease(lead, trail) => {
            let a = ring.neighbors[lead];
            let b = ring.neighbors[trail];
            let r0 = pushed::<S, W>(no_row(), v, W::ratio_of(2, 3));
            lemma_pushed_reads::<S, W>(no_row(), v, W::ratio_of(2, 3), p);
            lemma_pushed_reads::<S, W>(r0, a, W::ratio_of(1, 6), p);
            lemma_pushed_reads::<S, W>(pushed::<S, W>(r0, a, W::ratio_of(1, 6)), b, W::ratio_of(1, 6), p);
            assert(sectors_of::<S, W>(v, ring, rule).position == crease_position::<S, W>(v, a, b));
        },
        RuleModel::Corner(slots) => {
            assert(sectors_of::<S, W>(v, ring, rule).position == identity_row::<S>(v));
        },
    }
}

/// The far end of an edge of a face at `v` is a corner of the face.
proof fn lemma_step_reads<S: Scalar>(mesh: Mesh<S>, adj: Adjacency, v: u32, f: u32, p: spec_fn(u32) -> bool)
    requires
        quads_ok(mesh, adj),
        quads_linked(mesh, adj),
        f < mesh.face_vertex_counts@.len(),
        fan_step(mesh, adj, v, f) is Some,
        forall|c: int| 0 <= c < 4 ==> p(#[trigger] quad_at(mesh, f as int)[c]),
    ensures
        ({
            let step = fan_step(mesh, adj, v, f)->Some_0;
            &&& p(step.diagonal)
            &&& p(other_end(pairs(mesh.edge_vertices@)[step.out_edge as int], v))
            &&& p(other_end(pairs(mesh.edge_vertices@)[step.in_edge as int], v))
        }),
{
    let quad = quad_at(mesh, f as int);
    assert(quad.len() == 4) by {
        reveal(quads_ok);
    }
    lemma_corner_at_vertex(quad, v);
    let j = corner_at_vertex(quad, v)->Some_0;
    reveal(quads_linked);
    let i = (j + 3) % 4;
    let n = next_corner(j, 4);
    assert(pairs(mesh.edge_vertices@)[adj.face_edges@[4 * f + j] as int] == edge_key_of(quad[j], quad[n]));
    assert(next_corner(i, 4) == j);
    assert(pairs(mesh.edge_vertices@)[adj.face_edges@[4 * f + i] as int] == edge_key_of(quad[i], quad[j]));
    assert(p(quad[j]) && p(quad[n]) && p(quad[i]) && p(quad[(j + 2) % 4]));
}

/// The ring of a vertex is made of corners of the faces around it.
proof fn lemma_ring_reads<S: Scalar>(
    mesh: Mesh<S>,
    adj: Adjacency,
    v: u32,
    p: spec_fn(u32) -> bool,
)
    requires
        quads_ok(mesh, adj),
        quads_linked(mesh, adj),
        v < mesh.vertex_count,
        ring_of(mesh, adj, v) is Ok,
        forall|f: u32, c: int|
            faces_at(adj, v as int).contains(f) && 0 <= c < 4 ==> p(#[trigger] quad_at(mesh, f as int)[c]),
    ensures
        forall|k: int|
            0 <= k < ring_of(mesh, adj, v)->Ok_0.neighbors.len() ==> p(
                #[trigger] ring_of(mesh, adj, v)->Ok_0.neighbors[k],
            ),
        forall|k: int|
            0 <= k < ring_of(mesh, adj, v)->Ok_0.diagonals.len() ==> p(
                #[trigger] ring_of(mesh, adj, v)->Ok_0.diagonals[k],
            ),
{
    let list = faces_at(adj, v as int);
    let steps = fan_steps(mesh, adj, v, list);
    let boundary = adj.vertex_is_boundary@[v as int];
    let start = fan_start(steps, adj.edge_is_boundary@, boundary)->Some_0;
    let taken = fan_walk(steps, start, steps.len() as int)->Some_0;
    let ring = ring_of(mesh, adj, v)->Ok_0;
    let edges = pairs(mesh.edge_vertices@);
    lemma_walk_len(steps, start, steps.len() as int);
    lemma_walk_range(steps, start, steps.len() as int);
    assert forall|i: int| 0 <= i < steps.len() implies p((#[trigger] steps[i]).diagonal) && p(
        other_end(edges[steps[i].out_edge as int], v),
    ) && p(other_end(edges[steps[i].in_edge as int], v)) by {
        let f = list[i];
        assert(list.contains(f));
        assert(fan_step(mesh, adj, v, list[i]) is Some);
        assert(f < mesh.face_vertex_counts@.len()) by {
            reveal(quads_ok);
            let o = adj.vertex_face_offsets@;
            assert(o[v as int] <= o[v + 1]);
            assert(o[v + 1] <= o[o.len() - 1]);
            assert(list[i] == adj.vertex_faces@[o[v as int] + i]);
        }
        assert forall|c: int| 0 <= c < 4 implies p(#[trigger] quad_at(mesh, f as int)[c]) by {}
        lemma_step_reads(mesh, adj, v, f, p);
    }
    assert(p(other_end(edges[start as int], v))) by {
        if boundary {
            let i = choose|i: int| is_leading_step(steps, adj.edge_is_boundary@, i);
            assert(is_leading_step(steps, adj.edge_is_boundary@, i));
            assert(p(other_end(edges[steps[i].out_edge as int], v)));
        } else {
            assert(p(other_end(edges[steps[0].out_edge as int], v)));
        }
    }
    assert forall|k: int| 0 <= k < ring.neighbors.len() implies p(#[trigger] ring.neighbors[k]) by {
        if k > 0 {
            assert(0 <= taken[k - 1] < steps.len());
            assert(p(other_end(edges[steps[taken[k - 1]].in_edge as int], v)));
        }
    }
    assert forall|k: int| 0 <= k < ring.diagonals.len() implies p(#[trigger] ring.diagonals[k]) by {
        assert(0 <= taken[k] < steps.len());
        assert(p(steps[taken[k]].diagonal));
    }
}

/// A corner of a face of the support is among the corners of the support.
proof fn lemma_in_support<S>(mesh: Mesh<S>, support: Seq<u32>, f: u32, c: int)
    requires
        support.contains(f),
        0 <= c < 4,
        quad_at(mesh, f as int).len() == 4,
    ensures
        support_corners(mesh, support).contains(quad_at(mesh, f as int)[c]),
{
    let rows = support.map_values(|f: u32| quad_at(mesh, f as int));
    let i = support.index_of(f);
    assert(rows[i] == quad_at(mesh, f as int));
    lemma_flat_at(rows, i, c);
    assert(flat(rows)[row_start(rows, i) + c] == quad_at(mesh, f as int)[c]);
}

/// The limit at a corner of a quad reads the corners of its support only.
proof fn lemma_corner_reads<S: Scalar, W: Wide<S>>(
    mesh: Mesh<S>,
    adj: Adjacency,
    options: SchemeOptions,
    face: u32,
    corner: int,
    support: Seq<u32>,
)
    requires
        eval_ready(mesh, adj),
        face < mesh.face_vertex_counts@.len(),
        0 <= corner < 4,
        is_support(mesh, adj, face as int, support),
        corner_sector_of::<S, W>(mesh, adj, options, face, corner) is Ok,
    ensures
        reads_only(
            corner_sector_of::<S, W>(mesh, adj, options, face, corner)->Ok_0.0,
            |i: u32| support_corners(mesh, support).contains(i),
        ),
{
    let p = |i: u32| support_corners(mesh, support).contains(i);
    let v = quad_at(mesh, face as int)[corner];
    assert(v < mesh.vertex_count) by {
        reveal(quads_ok);
        assert(v == mesh.face_vertex_indices@[4 * face + corner]);
    }
    let ring = ring_of(mesh, adj, v)->Ok_0;
    let rule = rule_of(mesh, adj, options, v, ring);
    lemma_ring_ok(mesh, adj, options, v);
    assert forall|f: u32, c: int| faces_at(adj, v as int).contains(f) && 0 <= c < 4 implies p(
        #[trigger] quad_at(mesh, f as int)[c],
    ) by {
        assert(touches(mesh, adj, face as int, f));
        assert(support.contains(f));
        assert(quad_at(mesh, f as int).len() == 4) by {
            reveal(quads_ok);
            let o = adj.vertex_face_offsets@;
            let list = faces_at(adj, v as int);
            let i = list.index_of(f);
            assert(o[v as int] <= o[v + 1]);
            assert(o[v + 1] <= o[o.len() - 1]);
            assert(list[i] == adj.vertex_faces@[o[v as int] + i]);
        }
        lemma_in_support(mesh, support, f, c);
    }
    lemma_ring_reads(mesh, adj, v, p);
    ring_contents(mesh, adj, v);
    ring_shape(mesh, adj, v);
    assert(p(v)) by {
        let f = faces_at(adj, v as int)[0];
        assert(faces_at(adj, v as int).contains(f));
        assert(fan_step(mesh, adj, v, f) is Some);
        lemma_corner_at_vertex(quad_at(mesh, f as int), v);
        let j = corner_at_vertex(quad_at(mesh, f as int), v)->Some_0;
        assert(quad_at(mesh, f as int)[j] == v);
        assert(quad_at(mesh, f as int).len() == 4) by {
            reveal(quads_ok);
            let o = adj.vertex_face_offsets@;
            assert(o[v as int] <= o[v + 1]);
            assert(o[v + 1] <= o[o.len() - 1]);
            assert(f == adj.vertex_faces@[o[v as int] + 0]);
        }
        assert(p(quad_at(mesh, f as int)[j]));
    }
    lemma_limit_reads::<S, W>(v, ring, rule, p);
}

// ---------------------------------------------------------------------------
// Boxes
// ---------------------------------------------------------------------------
/// Every limit point of a quad lies in the box of the quad, unless arithmetic rounds.
/// Where a quad is cut out, the boundary is interpolated: with the natural boundary a
/// vertex with one face moves away from its face, and may leave the box.
pub proof fn quads_stay_in_their_box<S: Metric, W: Wide<S>>(
    val: spec_fn(S) -> real,
    wal: spec_fn(W) -> real,
    mesh: Mesh<S>,
    adj: Adjacency,
    options: SchemeOptions,
    positions: Seq<[S; 3]>,
    face: u32,
    uv: (W, W),
    left: nat,
    s: SampleModel<S, W>,
    b: BoxModel<S>,
    c: int,
)
    requires
        reads_both::<S, W>(val, wal),
        orders_exactly(val),
        orders_exactly(wal),
        bounds_exactly(val),
        options.boundary_interpolation != BoundaryInterpolation::Natural || regular_quad(mesh, adj, face as int)
            || snap_target_of(mesh, adj, options, face, uv) is Some,
        eval_ready(mesh, adj),
        grids_of(mesh, adj, mesh.face_vertex_counts@.len() as int) is Ok,
        face < mesh.face_vertex_counts@.len(),
        in_square(wal, uv),
        0 <= c < 3,
        sampled::<S, W>(mesh, adj, options, positions, face, uv, left, Ok(s)),
        is_face_box(mesh, adj, positions, face as int, b),
    ensures
        val(b.min[c]) <= val(s.p[c]) <= val(b.max[c]),
{
    let points = choose|points: Seq<u32>| #[trigger]
        spans(mesh, adj, face as int, points) && b == box_of(points, positions, points.len() as int);
    let lo = val(b.min[c]);
    let hi = val(b.max[c]);
    lemma_corner_range(uv);
    let snap = snap_target_of(mesh, adj, options, face, uv);
    let corner = match snap {
        Some(corner) => corner,
        None => nearest_corner_of(uv),
    };
    assert forall|i: u32| #[trigger] points.contains(i) implies lo <= val(positions[i as int]@[c]) <= hi by {
        let k = points.index_of(i);
        boxes_hold_their_points(val, points, positions, points.len() as int, k, c);
    }
    if regular_quad(mesh, adj, face as int) {
        reveal(sampled);
        patch_of_quad(mesh, adj, face as int);
        assert forall|k: int| 0 <= k < 16 implies lo <= val(positions[(#[trigger] points[k]) as int]@[c]) <= hi by {
            assert(points.contains(points[k]));
        }
        lemma_patch_between::<S, W>(val, wal, points, uv, positions, c, lo, hi);
    } else {
        let support = choose|support: Seq<u32>| #[trigger]
            is_support(mesh, adj, face as int, support) && points == support_corners(mesh, support);
        if snap is Some || left == 0 {
            reveal(sampled);
            let row = corner_sector_of::<S, W>(mesh, adj, options, face, corner)->Ok_0.0;
            lemma_corner_reads::<S, W>(mesh, adj, options, face, corner, support);
            assert forall|k: int| 0 <= k < row.len() implies lo <= val(positions[(#[trigger] row[k]).0 as int]@[c])
                <= hi by {
                assert(points.contains(row[k].0));
            }
            lemma_corner_between::<S, W>(val, wal, mesh, adj, options, positions, face, corner, s, c, lo, hi);
        } else {
            let (node, inner) = lemma_sampled_node::<S, W>(mesh, adj, options, positions, face, uv, left, s);
            node_is_ok(mesh, adj, options, positions, face, node);
            let k = quadrant_of(uv);
            lemma_node_quadrant(node, mesh.vertex_count as int, k);
            lemma_node_vertices(mesh, adj, options, positions, face, node, support);
            assert forall|i: int| 0 <= i < node.sub_vertices@.len() implies lo <= val(
                positions[(#[trigger] node.sub_vertices@[i]) as int]@[c],
            ) <= hi by {
                assert(points.contains(node.sub_vertices@[i]));
            }
            lemma_node_between(val, mesh, adj, options, positions, face, node, c, lo, hi);
            places_stay_in_their_quadrant::<W>(wal, node.children@[k].turn as int, uv);
            limits_stay_between_the_points::<S, W>(
                val,
                wal,
                node.refined.topology,
                node.refined.adjacency,
                options,
                node.positions@,
                node.children@[k].face,
                node_frame::<S, W>(node, k).inside(uv),
                (left - 1) as nat,
                inner->Ok_0,
                c,
                lo,
                hi,
            );
        }
    }
}

/// The vertices of a node are corners of the support of its quad.
proof fn lemma_node_vertices<S: Scalar>(
    mesh: Mesh<S>,
    adj: Adjacency,
    options: SchemeOptions,
    positions: Seq<[S; 3]>,
    face: u32,
    node: IsolationNode<S>,
    support: Seq<u32>,
)
    requires
        is_node(mesh, adj, options, positions, face, node),
        is_support(mesh, adj, face as int, support),
    ensures
        forall|i: int|
            0 <= i < node.sub_vertices@.len() ==> support_corners(mesh, support).contains(
                #[trigger] node.sub_vertices@[i],
            ),
{
    reveal(is_node);
    let cut = choose|cut: Cutout<S>| #[trigger]
        is_cutout(mesh, adj, face as int, cut) && node.sub_vertices@ == cut.vertices@;
    lemma_same_support(mesh, adj, mesh, adj, face as int, cut.support@, support);
    lemma_distinct(support_corners(mesh, support));
    assert forall|i: int| 0 <= i < node.sub_vertices@.len() implies support_corners(mesh, support).contains(
        #[trigger] node.sub_vertices@[i],
    ) by {
        assert(distinct(support_corners(mesh, support)).contains(node.sub_vertices@[i]));
    }
}

} // verus!
