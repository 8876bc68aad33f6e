//! Limit points are weighted means of refined points, where arithmetic does not
//! round.

use crate::connectivity::{distinct, lemma_distinct};
use crate::error::KernelError;
use crate::hashing::strictly_ascending;
use crate::base::level_ok;
use crate::isolation::{
    eval_ready, is_cutout, is_node, node_is_ok, node_ok, refined_cutout, refines_cutout, single_step, Cutout, IsolationNode,
};
use crate::limit::{corner_rows_fit, lemma_ring_ok, limit_ready, rule_of, sectors_of, RuleModel};
use crate::limit_eval::{
    collected, corner_weights, exact_corner_of, keys_of, lemma_collected_below, lemma_lifted_below, lemma_node_quadrant,
    lifted, lifted_entries, merged_row, nearest_corner_of, node_frame,
    patch_weights, quadrant_of, same_number, snap_target_of, sum_for, total_for, weighed, widened_row,
};
use crate::masks::{
    crease_position, edge_share, extraordinary_model, face_share, is_zero_of, no_row, own_share, pushed,
    regular_model, smooth_model,
};
use crate::options::{Scheme, SchemeOptions, UniformRefine};
use crate::patch::{basis_of, cube_of, grid_of, grids_of, patch_of_quad, regular_quad, square_of};
use crate::refiner::{level_rows, result_of, Refinement, Refiner};
use crate::ring::{quad_at, quads_ok, ring_of, RingModel};
use crate::rows::flat;
use crate::scalar::{one_of, zero_of, Scalar, Wide};
use crate::stencil::{row_below, rows_below, written_from};
use crate::topology::{all_below, Adjacency, Mesh};
use crate::weights::{
    lemma_identity, lemma_one, lemma_single, lemma_total_merged, reads_exactly, total, weights_sum_to_one,
};
use vstd::prelude::*;

verus! {

/// Numbers compare as their readings do.
pub open spec fn compares_exactly<S: Scalar>(val: spec_fn(S) -> real) -> bool {
    forall|a: S, b: S| #[trigger] S::at_most_of(a, b) <==> val(a) <= val(b)
}

/// Exact readings of weights and of the numbers they are worked out in, which
/// agree with each other.
pub open spec fn reads_both<S: Scalar, W: Wide<S>>(val: spec_fn(S) -> real, wal: spec_fn(W) -> real) -> bool {
    &&& reads_exactly(val)
    &&& reads_exactly(wal)
    &&& compares_exactly(val)
    &&& compares_exactly(wal)
    &&& forall|s: S| wal(#[trigger] W::widen_of(s)) == val(s)
    &&& forall|w: W| val(#[trigger] W::narrow_of(w)) == wal(w)
}

// ---------------------------------------------------------------------------
// Limit rows
// ---------------------------------------------------------------------------
pub(crate) proof fn lemma_pushed<S: Scalar, W: Wide<S>>(
    val: spec_fn(S) -> real,
    wal: spec_fn(W) -> real,
    row: Seq<(u32, S)>,
    i: u32,
    w: W,
)
    requires
        reads_exactly(val),
        reads_exactly(wal),
        compares_exactly(wal),
        forall|w: W| val(#[trigger] W::narrow_of(w)) == wal(w),
    ensures
        total(val, pushed::<S, W>(row, i, w)) == total(val, row) + wal(w),
{
    lemma_one::<S>(val);
    lemma_one::<W>(wal);
    let n = W::narrow_of(w);
    assert(val(n) == wal(w));
    if is_zero_of(w) {
        assert(W::at_most_of(w, zero_of()) && W::at_most_of(zero_of(), w));
        assert(wal(w) == 0 as real);
    } else {
        lemma_single(val, i, n);
        lemma_total_merged(val, row, seq![(i, n)], one_of());
        assert((1 as real) * val(n) == val(n)) by (nonlinear_arith);
    }
}

proof fn lemma_narrow_self<S: Scalar>(val: spec_fn(S) -> real)
    ensures
        forall|w: S| val(#[trigger] <S as Wide<S>>::narrow_of(w)) == val(w),
{
}

proof fn lemma_crease_position<S: Scalar, W: Wide<S>>(
    val: spec_fn(S) -> real,
    wal: spec_fn(W) -> real,
    v: u32,
    a: u32,
    b: u32,
)
    requires
        reads_both::<S, W>(val, wal),
    ensures
        total(val, crease_position::<S, W>(v, a, b)) == 1 as real,
{
    let two = W::ratio_of(2, 3);
    let sixth = W::ratio_of(1, 6);
    let r0 = pushed::<S, W>(no_row(), v, two);
    let r1 = pushed::<S, W>(r0, a, sixth);
    lemma_pushed::<S, W>(val, wal, no_row(), v, two);
    lemma_pushed::<S, W>(val, wal, r0, a, sixth);
    lemma_pushed::<S, W>(val, wal, r1, b, sixth);
    assert(wal(two) == (2int as real) / (3int as real));
    assert(wal(sixth) == (1int as real) / (6int as real));
}

proof fn lemma_regular<S: Scalar, W: Wide<S>>(
    val: spec_fn(S) -> real,
    wal: spec_fn(W) -> real,
    v: u32,
    ring: RingModel,
    i: int,
)
    requires
        reads_both::<S, W>(val, wal),
        0 <= i,
    ensures
        total(val, regular_model::<S, W>(v, ring, i).position) == (4int as real) / (9int as real) + (i as real) * ((
        1int as real) / (9int as real) + (1int as real) / (36int as real)),
    decreases i,
{
    let x = (1int as real) / (9int as real) + (1int as real) / (36int as real);
    if i == 0 {
        lemma_pushed::<S, W>(val, wal, no_row(), v, W::ratio_of(4, 9));
        assert((0int as real) * x == 0 as real) by (nonlinear_arith);
    } else {
        lemma_regular::<S, W>(val, wal, v, ring, i - 1);
        let before = regular_model::<S, W>(v, ring, i - 1).position;
        let n = ring.neighbors[i - 1];
        let d = ring.diagonals[i - 1];
        lemma_pushed::<S, W>(val, wal, before, n, W::ratio_of(1, 9));
        lemma_pushed::<S, W>(val, wal, pushed::<S, W>(before, n, W::ratio_of(1, 9)), d, W::ratio_of(1, 36));
        assert((i as real) == ((i - 1) as real) + (1 as real));
        assert((((i - 1) as real) + (1 as real)) * x == ((i - 1) as real) * x + x) by (nonlinear_arith);
    }
}

proof fn lemma_extraordinary<S: Scalar, W: Wide<S>>(
    val: spec_fn(S) -> real,
    wal: spec_fn(W) -> real,
    v: u32,
    ring: RingModel,
    i: int,
)
    requires
        reads_both::<S, W>(val, wal),
        0 <= i,
    ensures
        ({
            let valence = ring.diagonals.len() as int;
            total(val, extraordinary_model::<S, W>(v, ring, i).position) == val(own_share::<S>(valence)) + (i as real)
                * (val(edge_share::<S>(valence)) + val(face_share::<S>(valence)))
        }),
    decreases i,
{
    let valence = ring.diagonals.len() as int;
    let e = edge_share::<S>(valence);
    let f = face_share::<S>(valence);
    let x = val(e) + val(f);
    lemma_narrow_self::<S>(val);
    if i == 0 {
        lemma_pushed::<S, S>(val, val, no_row(), v, own_share::<S>(valence));
        assert((0int as real) * x == 0 as real) by (nonlinear_arith);
    } else {
        lemma_extraordinary::<S, W>(val, wal, v, ring, i - 1);
        let before = extraordinary_model::<S, W>(v, ring, i - 1).position;
        let n = ring.neighbors[i - 1];
        let d = ring.diagonals[i - 1];
        lemma_pushed::<S, S>(val, val, before, n, e);
        lemma_pushed::<S, S>(val, val, pushed::<S, S>(before, n, e), d, f);
        assert((i as real) == ((i - 1) as real) + (1 as real));
        assert((((i - 1) as real) + (1 as real)) * x == ((i - 1) as real) * x + x) by (nonlinear_arith);
    }
}

proof fn lemma_smooth<S: Scalar, W: Wide<S>>(
    val: spec_fn(S) -> real,
    wal: spec_fn(W) -> real,
    v: u32,
    ring: RingModel,
)
    requires
        reads_both::<S, W>(val, wal),
        0 < ring.diagonals.len() <= u32::MAX,
    ensures
        total(val, smooth_model::<S, W>(v, ring).position) == 1 as real,
{
    let valence = ring.diagonals.len() as int;
    lemma_identity::<S>(val, v);
    lemma_one::<S>(val);
    if valence == 4 {
        lemma_regular::<S, W>(val, wal, v, ring, 4);
    } else if valence != 2 {
        lemma_extraordinary::<S, W>(val, wal, v, ring, valence);
        let n = S::ratio_of(valence as u32, 1);
        let e = edge_share::<S>(valence);
        let f = face_share::<S>(valence);
        assert(val(n) == (valence as real) / (1int as real));
        assert(val(S::plus_of(e, f)) == val(e) + val(f));
        assert(val(S::times_of(n, S::plus_of(e, f))) == val(n) * (val(e) + val(f)));
        assert(own_share::<S>(valence) == S::minus_of(one_of(), S::times_of(n, S::plus_of(e, f))));
        assert(val(own_share::<S>(valence)) == 1 as real - val(n) * (val(e) + val(f)));
    }
}

/// The limit point of a vertex is a weighted mean of refined points.
pub proof fn limit_weights_sum_to_one<S: Scalar, W: Wide<S>>(
    val: spec_fn(S) -> real,
    wal: spec_fn(W) -> real,
    v: u32,
    ring: RingModel,
    rule: RuleModel,
)
    requires
        reads_both::<S, W>(val, wal),
        0 < ring.diagonals.len() <= u32::MAX,
    ensures
        total(val, sectors_of::<S, W>(v, ring, rule).position) == 1 as real,
{
    lemma_identity::<S>(val, v);
    match rule {
        RuleModel::Smooth => {
            lemma_smooth::<S, W>(val, wal, v, ring);
        },
        RuleModel::Crease(lead, trail) => {
            lemma_crease_position::<S, W>(val, wal, v, ring.neighbors[lead], ring.neighbors[trail]);
        },
        RuleModel::Corner(_) => {},
    }
}

// ---------------------------------------------------------------------------
// Patches
// ---------------------------------------------------------------------------
/// The four basis functions, and that they sum up to one.
pub(crate) proof fn lemma_basis<W: Scalar>(wal: spec_fn(W) -> real, t: W)
    requires
        reads_exactly(wal),
    ensures
        ({
            let b = basis_of(t);
            let x = wal(t);
            let y = 1 as real - x;
            &&& b.len() == 4
            &&& wal(b[0]) + wal(b[1]) + wal(b[2]) + wal(b[3]) == 1 as real
            &&& wal(b[0]) == (y * y * y) / (6 as real)
            &&& wal(b[1]) == ((3 as real) * x * x * x - (6 as real) * x * x + (4 as real)) / (6 as real)
            &&& wal(b[2]) == (-(3 as real) * x * x * x + (3 as real) * x * x + (3 as real) * x + (1 as real)) / (
            6 as real)
            &&& wal(b[3]) == (x * x * x) / (6 as real)
        }),
{
    lemma_one::<W>(wal);
    let six = W::ratio_of(6, 1);
    let three = W::ratio_of(3, 1);
    let four = W::ratio_of(4, 1);
    assert(wal(six) == (6int as real) / (1int as real));
    assert(wal(three) == (3int as real) / (1int as real));
    assert(wal(four) == (4int as real) / (1int as real));
    let s = W::minus_of(one_of(), t);
    let x = wal(t);
    let y = wal(s);
    assert(y == 1 as real - x);
    let b = basis_of(t);
    let s2 = W::times_of(s, s);
    let s3 = W::times_of(s2, s);
    assert(wal(s2) == y * y);
    assert(wal(s3) == y * y * y);
    assert(wal(b[0]) == (y * y * y) / (6 as real));
    assert(wal(W::times_of(three, t)) == (3 as real) * x);
    assert(wal(W::times_of(W::times_of(three, t), t)) == (3 as real) * x * x);
    assert(wal(cube_of(three, t)) == (3 as real) * x * x * x);
    assert(wal(W::times_of(six, t)) == (6 as real) * x);
    assert(wal(square_of(six, t)) == (6 as real) * x * x);
    assert(wal(square_of(three, t)) == (3 as real) * x * x);
    let minus = W::negated_of(three);
    assert(wal(minus) == -(3 as real));
    assert(wal(W::times_of(minus, t)) == -(3 as real) * x);
    assert(wal(W::times_of(W::times_of(minus, t), t)) == -(3 as real) * x * x);
    assert(wal(cube_of(minus, t)) == -(3 as real) * x * x * x);
    assert(wal(b[1]) == ((3 as real) * x * x * x - (6 as real) * x * x + (4 as real)) / (6 as real));
    assert(wal(b[2]) == (-(3 as real) * x * x * x + (3 as real) * x * x + (3 as real) * x + (1 as real)) / (6 as real));
    assert(wal(W::times_of(t, t)) == x * x);
    assert(wal(W::times_of(W::times_of(t, t), t)) == x * x * x);
    assert(wal(b[3]) == (x * x * x) / (6 as real));
    lemma_cubes(x, y);
}

proof fn lemma_cubes(x: real, y: real)
    requires
        y == 1 as real - x,
    ensures
        (y * y * y) / (6 as real) + ((3 as real) * x * x * x - (6 as real) * x * x + (4 as real)) / (6 as real) + (-(
        3 as real) * x * x * x + (3 as real) * x * x + (3 as real) * x + (1 as real)) / (6 as real) + (x * x * x) / (
        6 as real) == 1 as real,
{
    let a = x * x;
    let b = x * x * x;
    assert((3 as real) * x * x * x == (3 as real) * b) by (nonlinear_arith)
        requires
            b == x * x * x,
    ;
    assert(-(3 as real) * x * x * x == -(3 as real) * b) by (nonlinear_arith)
        requires
            b == x * x * x,
    ;
    assert((6 as real) * x * x == (6 as real) * a) by (nonlinear_arith)
        requires
            a == x * x,
    ;
    assert((3 as real) * x * x == (3 as real) * a) by (nonlinear_arith)
        requires
            a == x * x,
    ;
    assert(y * y * y == (1 as real) - (3 as real) * x + (3 as real) * a - b) by (nonlinear_arith)
        requires
            y == 1 as real - x,
            a == x * x,
            b == x * x * x,
    ;
}

proof fn lemma_take_next<W>(wal: spec_fn(W) -> real, row: Seq<(u32, W)>, k: int)
    requires
        0 <= k < row.len(),
    ensures
        total(wal, row.take(k + 1)) == total(wal, row.take(k)) + wal(row[k].1),
{
    assert(row.take(k + 1).drop_last() =~= row.take(k));
}

/// Four entries with a common factor.
proof fn lemma_strip<S: Scalar, W: Wide<S>>(
    wal: spec_fn(W) -> real,
    points: Seq<u32>,
    uv: (W, W),
    j: int,
)
    requires
        reads_exactly(wal),
        0 <= j < 4,
    ensures
        ({
            let row = patch_weights::<S, W>(points, uv);
            total(wal, row.take(4 * j + 4)) == total(wal, row.take(4 * j)) + wal(
                basis_of(W::widen_of(W::narrow_of(uv.1)))[j],
            )
        }),
{
    let row = patch_weights::<S, W>(points, uv);
    let u = basis_of(W::widen_of(W::narrow_of(uv.0)));
    let v = basis_of(W::widen_of(W::narrow_of(uv.1)));
    lemma_basis(wal, W::widen_of(W::narrow_of(uv.0)));
    lemma_take_next(wal, row, 4 * j);
    lemma_take_next(wal, row, 4 * j + 1);
    lemma_take_next(wal, row, 4 * j + 2);
    lemma_take_next(wal, row, 4 * j + 3);
    let b = wal(v[j]);
    let (u0, u1, u2, u3) = (wal(u[0]), wal(u[1]), wal(u[2]), wal(u[3]));
    assert((4 * j) % 4 == 0 && (4 * j) / 4 == j);
    assert((4 * j + 1) % 4 == 1 && (4 * j + 1) / 4 == j);
    assert((4 * j + 2) % 4 == 2 && (4 * j + 2) / 4 == j);
    assert((4 * j + 3) % 4 == 3 && (4 * j + 3) / 4 == j);
    assert(wal(row[4 * j].1) == u0 * b);
    assert(wal(row[4 * j + 1].1) == u1 * b);
    assert(wal(row[4 * j + 2].1) == u2 * b);
    assert(wal(row[4 * j + 3].1) == u3 * b);
    assert(u0 * b + u1 * b + u2 * b + u3 * b == b) by (nonlinear_arith)
        requires
            u0 + u1 + u2 + u3 == 1 as real,
    ;
}

/// The weights of the control points of a patch sum up to one.
pub proof fn patch_weights_sum_to_one<S: Scalar, W: Wide<S>>(wal: spec_fn(W) -> real, points: Seq<u32>, uv: (W, W))
    requires
        reads_exactly(wal),
    ensures
        total(wal, patch_weights::<S, W>(points, uv)) == 1 as real,
{
    let row = patch_weights::<S, W>(points, uv);
    lemma_basis(wal, W::widen_of(W::narrow_of(uv.1)));
    lemma_strip::<S, W>(wal, points, uv, 0);
    lemma_strip::<S, W>(wal, points, uv, 1);
    lemma_strip::<S, W>(wal, points, uv, 2);
    lemma_strip::<S, W>(wal, points, uv, 3);
    assert(row.take(0).len() == 0);
    assert(row.take(16) =~= row);
}

// ---------------------------------------------------------------------------
// Values of rows
// ---------------------------------------------------------------------------
/// What a row gives of a number for each index.
pub open spec fn value<W>(wal: spec_fn(W) -> real, x: spec_fn(u32) -> real, row: Seq<(u32, W)>) -> real
    decreases row.len(),
{
    if row.len() == 0 {
        0 as real
    } else {
        value(wal, x, row.drop_last()) + wal(row.last().1) * x(row.last().0)
    }
}

proof fn lemma_value_of_one<W>(wal: spec_fn(W) -> real, x: spec_fn(u32) -> real, row: Seq<(u32, W)>)
    requires
        forall|k: int| 0 <= k < row.len() ==> x((#[trigger] row[k]).0) == 1 as real,
    ensures
        value(wal, x, row) == total(wal, row),
    decreases row.len(),
{
    if row.len() > 0 {
        let front = row.drop_last();
        assert forall|k: int| 0 <= k < front.len() implies x((#[trigger] front[k]).0) == 1 as real by {
            assert(row[k] == front[k]);
        }
        lemma_value_of_one(wal, x, front);
        assert(x(row[row.len() - 1].0) == 1 as real);
        let w = wal(row.last().1);
        assert(w * (1 as real) == w) by (nonlinear_arith);
    }
}

proof fn lemma_value_joined<W>(
    wal: spec_fn(W) -> real,
    x: spec_fn(u32) -> real,
    a: Seq<(u32, W)>,
    b: Seq<(u32, W)>,
)
    ensures
        value(wal, x, a + b) == value(wal, x, a) + value(wal, x, b),
    decreases b.len(),
{
    if b.len() == 0 {
        assert(a + b =~= a);
    } else {
        assert((a + b).drop_last() =~= a + b.drop_last());
        lemma_value_joined(wal, x, a, b.drop_last());
    }
}

/// A stencil row of a node, scaled and carried over.
pub open spec fn carried<S: Scalar, W: Wide<S>>(row: Seq<(u32, S)>, vertices: Seq<u32>, w: W) -> Seq<(u32, W)> {
    row.map_values(|e: (u32, S)| (vertices[e.0 as int], W::times_of(w, W::widen_of(e.1))))
}

proof fn lemma_value_carried<S: Scalar, W: Wide<S>>(
    val: spec_fn(S) -> real,
    wal: spec_fn(W) -> real,
    x: spec_fn(u32) -> real,
    row: Seq<(u32, S)>,
    vertices: Seq<u32>,
    w: W,
)
    requires
        reads_both::<S, W>(val, wal),
    ensures
        value(wal, x, carried::<S, W>(row, vertices, w)) == wal(w) * value(
            val,
            |i: u32| x(vertices[i as int]),
            row,
        ),
    decreases row.len(),
{
    let y = |i: u32| x(vertices[i as int]);
    let part = carried::<S, W>(row, vertices, w);
    if row.len() == 0 {
        assert(wal(w) * (0 as real) == 0 as real) by (nonlinear_arith);
    } else {
        let front = row.drop_last();
        lemma_value_carried::<S, W>(val, wal, x, front, vertices, w);
        assert(part.drop_last() =~= carried::<S, W>(front, vertices, w));
        let (i, c) = row.last();
        assert(part.last() == (vertices[i as int], W::times_of(w, W::widen_of(c))));
        let a = wal(w);
        let b = val(c);
        let z = y(i);
        let rest = value(val, y, front);
        assert(wal(W::times_of(w, W::widen_of(c))) == a * b);
        assert(a * (rest + b * z) == a * rest + (a * b) * z) by (nonlinear_arith);
    }
}

/// The value of lifted entries is that of the row, with each refined vertex
/// valued by its stencil.
pub(crate) proof fn lemma_value_lifted<S: Scalar, W: Wide<S>>(
    val: spec_fn(S) -> real,
    wal: spec_fn(W) -> real,
    x: spec_fn(u32) -> real,
    z: spec_fn(u32) -> real,
    row: Seq<(u32, W)>,
    rows: Seq<Seq<(u32, S)>>,
    vertices: Seq<u32>,
    k: int,
)
    requires
        reads_both::<S, W>(val, wal),
        0 <= k <= row.len(),
        forall|e: int|
            0 <= e < k ==> z((#[trigger] row[e]).0) == value(
                val,
                |i: u32| x(vertices[i as int]),
                rows[row[e].0 as int],
            ),
    ensures
        value(wal, x, lifted_entries(row, rows, vertices, k)) == value(wal, z, row.take(k)),
    decreases k,
{
    if k == 0 {
        assert(row.take(0).len() == 0);
    } else {
        lemma_value_lifted::<S, W>(val, wal, x, z, row, rows, vertices, k - 1);
        let before = lifted_entries(row, rows, vertices, k - 1);
        let (j, w) = row[k - 1];
        let part = carried::<S, W>(rows[j as int], vertices, w);
        assert(lifted_entries(row, rows, vertices, k) =~= before + part);
        lemma_value_joined(wal, x, before, part);
        lemma_value_carried::<S, W>(val, wal, x, rows[j as int], vertices, w);
        assert(row.take(k).drop_last() =~= row.take(k - 1));
        assert(row.take(k).last() == row[k - 1]);
        assert(z(row[k - 1].0) == value(val, |i: u32| x(vertices[i as int]), rows[row[k - 1].0 as int]));
    }
}

// ---------------------------------------------------------------------------
// Sums over lists of indices
// ---------------------------------------------------------------------------
spec fn sum_over(f: spec_fn(u32) -> real, list: Seq<u32>) -> real
    decreases list.len(),
{
    if list.len() == 0 {
        0 as real
    } else {
        sum_over(f, list.drop_last()) + f(list.last())
    }
}

proof fn lemma_sum_remove(f: spec_fn(u32) -> real, list: Seq<u32>, p: int)
    requires
        0 <= p < list.len(),
    ensures
        sum_over(f, list) == sum_over(f, list.remove(p)) + f(list[p]),
    decreases list.len(),
{
    if p == list.len() - 1 {
        assert(list.remove(p) =~= list.drop_last());
    } else {
        lemma_sum_remove(f, list.drop_last(), p);
        assert(list.remove(p).drop_last() =~= list.drop_last().remove(p));
        assert(list.remove(p).last() == list.last());
    }
}

/// Lists without repetition, one part of the other, with nothing outside.
proof fn lemma_sum_part(f: spec_fn(u32) -> real, part: Seq<u32>, all: Seq<u32>)
    requires
        part.no_duplicates(),
        all.no_duplicates(),
        forall|x: u32| #[trigger] part.contains(x) ==> all.contains(x),
        forall|x: u32| all.contains(x) && !(#[trigger] part.contains(x)) ==> f(x) == 0 as real,
    ensures
        sum_over(f, part) == sum_over(f, all),
    decreases all.len(),
{
    if all.len() == 0 {
        if part.len() > 0 {
            assert(part.contains(part[0]));
        }
    } else {
        let last = all.last();
        let front = all.drop_last();
        assert(all.contains(last));
        if part.contains(last) {
            let p = part.index_of(last);
            let rest = part.remove(p);
            lemma_sum_remove(f, part, p);
            assert forall|x: u32| #[trigger] rest.contains(x) <==> part.contains(x) && x != last by {
                lemma_removed(part, p, x);
            }
            assert(rest.no_duplicates());
            assert forall|x: u32| #[trigger] rest.contains(x) implies front.contains(x) by {
                assert(part.contains(x));
                assert(all.contains(x));
                let q = all.index_of(x);
                assert(front[q] == x);
            }
            assert forall|x: u32| front.contains(x) && !(#[trigger] rest.contains(x)) implies f(x) == 0 as real by {
                let q = front.index_of(x);
                assert(all[q] == x);
                assert(x != last);
                assert(!part.contains(x));
            }
            lemma_sum_part(f, rest, front);
        } else {
            assert(f(last) == 0 as real);
            assert forall|x: u32| #[trigger] part.contains(x) implies front.contains(x) by {
                assert(all.contains(x));
                let q = all.index_of(x);
                assert(front[q] == x);
            }
            assert forall|x: u32| front.contains(x) && !(#[trigger] part.contains(x)) implies f(x) == 0 as real by {
                let q = front.index_of(x);
                assert(all[q] == x);
            }
            lemma_sum_part(f, part, front);
        }
    }
}

proof fn lemma_removed(list: Seq<u32>, p: int, x: u32)
    requires
        list.no_duplicates(),
        0 <= p < list.len(),
    ensures
        list.remove(p).contains(x) <==> list.contains(x) && x != list[p],
{
    let rest = list.remove(p);
    if rest.contains(x) {
        let q = rest.index_of(x);
        if q < p {
            assert(list[q] == x);
        } else {
            assert(list[q + 1] == x);
        }
    }
    if list.contains(x) && x != list[p] {
        let q = list.index_of(x);
        if q < p {
            assert(rest[q] == x);
        } else {
            assert(rest[q - 1] == x);
        }
    }
}

/// What the entries give, sorted by index.
proof fn lemma_sum_by_key<W: Scalar>(
    wal: spec_fn(W) -> real,
    x: spec_fn(u32) -> real,
    entries: Seq<(u32, W)>,
    keys: Seq<u32>,
    k: int,
)
    requires
        reads_exactly(wal),
        0 <= k <= entries.len(),
        keys.no_duplicates(),
        forall|e: int| 0 <= e < entries.len() ==> keys.contains((#[trigger] entries[e]).0),
    ensures
        sum_over(|i: u32| wal(sum_for(entries, i, k)) * x(i), keys) == value(wal, x, entries.take(k)),
    decreases k,
{
    let f = |i: u32| wal(sum_for(entries, i, k)) * x(i);
    lemma_one::<W>(wal);
    if k == 0 {
        assert(entries.take(0).len() == 0);
        assert forall|i: u32| #[trigger] f(i) == 0 as real by {
            assert((0 as real) * x(i) == 0 as real) by (nonlinear_arith);
        }
        lemma_sum_nothing(f, keys);
    } else {
        let g = |i: u32| wal(sum_for(entries, i, k - 1)) * x(i);
        lemma_sum_by_key(wal, x, entries, keys, k - 1);
        let (i, w) = entries[k - 1];
        assert(keys.contains(entries[k - 1].0));
        let p = keys.index_of(i);
        lemma_sum_remove(f, keys, p);
        lemma_sum_remove(g, keys, p);
        let rest = keys.remove(p);
        assert forall|q: int| 0 <= q < rest.len() implies f(#[trigger] rest[q]) == g(rest[q]) by {
            assert(rest.contains(rest[q]));
            lemma_removed(keys, p, rest[q]);
        }
        lemma_sum_same(f, g, rest);
        let a = wal(sum_for(entries, i, k - 1));
        let b = wal(w);
        let z = x(i);
        assert(wal(sum_for(entries, i, k)) == a + b);
        assert((a + b) * z == a * z + b * z) by (nonlinear_arith);
        assert(entries.take(k).drop_last() =~= entries.take(k - 1));
        assert(entries.take(k).last() == entries[k - 1]);
    }
}

proof fn lemma_sum_nothing(f: spec_fn(u32) -> real, list: Seq<u32>)
    requires
        forall|i: u32| #[trigger] f(i) == 0 as real,
    ensures
        sum_over(f, list) == 0 as real,
    decreases list.len(),
{
    if list.len() > 0 {
        lemma_sum_nothing(f, list.drop_last());
    }
}

proof fn lemma_sum_same(f: spec_fn(u32) -> real, g: spec_fn(u32) -> real, list: Seq<u32>)
    requires
        forall|q: int| 0 <= q < list.len() ==> f(#[trigger] list[q]) == g(list[q]),
    ensures
        sum_over(f, list) == sum_over(g, list),
    decreases list.len(),
{
    if list.len() > 0 {
        let front = list.drop_last();
        assert forall|q: int| 0 <= q < front.len() implies f(#[trigger] front[q]) == g(front[q]) by {
            assert(list[q] == front[q]);
        }
        lemma_sum_same(f, g, front);
        assert(f(list[list.len() - 1]) == g(list[list.len() - 1]));
    }
}

/// The value of a row is a sum over its indices.
proof fn lemma_value_by_key<W>(
    wal: spec_fn(W) -> real,
    x: spec_fn(u32) -> real,
    f: spec_fn(u32) -> real,
    row: Seq<(u32, W)>,
)
    requires
        forall|i: int| 0 <= i < row.len() ==> f((#[trigger] row[i]).0) == wal(row[i].1) * x(row[i].0),
    ensures
        value(wal, x, row) == sum_over(f, keys_of(row)),
    decreases row.len(),
{
    let keys = keys_of(row);
    if row.len() > 0 {
        let front = row.drop_last();
        assert forall|i: int| 0 <= i < front.len() implies f((#[trigger] front[i]).0) == wal(front[i].1) * x(
            front[i].0,
        ) by {
            assert(row[i] == front[i]);
        }
        lemma_value_by_key(wal, x, f, front);
        assert(keys.drop_last() =~= keys_of(front));
        assert(f(row[row.len() - 1].0) == wal(row[row.len() - 1].1) * x(row[row.len() - 1].0));
    }
}

proof fn lemma_ascending_distinct(list: Seq<u32>)
    requires
        strictly_ascending(list),
    ensures
        list.no_duplicates(),
{
    assert forall|i: int, j: int| 0 <= i < list.len() && 0 <= j < list.len() && i != j implies list[i] != list[j] by {
        if i < j {
            assert(list[i] < list[j]);
        } else {
            assert(list[j] < list[i]);
        }
    }
}

/// To collect a row changes nothing of its value.
pub(crate) proof fn lemma_value_collected<W: Scalar>(
    wal: spec_fn(W) -> real,
    x: spec_fn(u32) -> real,
    entries: Seq<(u32, W)>,
    out: Seq<(u32, W)>,
)
    requires
        reads_exactly(wal),
        collected(entries, out),
    ensures
        value(wal, x, out) == value(wal, x, entries),
{
    let n = entries.len() as int;
    let keys = keys_of(out);
    let f = |i: u32| wal(sum_for(entries, i, n)) * x(i);
    lemma_ascending_distinct(keys);
    assert forall|e: int| 0 <= e < entries.len() implies keys.contains((#[trigger] entries[e]).0) by {
        assert(keys_of(entries)[e] == entries[e].0);
        assert(keys_of(entries).contains(entries[e].0));
    }
    lemma_sum_by_key(wal, x, entries, keys, n);
    assert(entries.take(n) =~= entries);
    assert forall|i: int| 0 <= i < out.len() implies f((#[trigger] out[i]).0) == wal(out[i].1) * x(out[i].0) by {
        assert(out[i].1 == total_for(entries, out[i].0));
    }
    lemma_value_by_key(wal, x, f, out);
}

/// To merge a row for the caller changes nothing of its value.
pub(crate) proof fn lemma_value_merged<S: Scalar, W: Wide<S>>(
    val: spec_fn(S) -> real,
    wal: spec_fn(W) -> real,
    x: spec_fn(u32) -> real,
    entries: Seq<(u32, W)>,
    out: Seq<(u32, S)>,
)
    requires
        reads_both::<S, W>(val, wal),
        merged_row::<S, W>(entries, out),
    ensures
        value(val, x, out) == value(wal, x, entries),
{
    let n = entries.len() as int;
    let part = keys_of(out);
    let all = distinct(keys_of(entries));
    let f = |i: u32| wal(sum_for(entries, i, n)) * x(i);
    lemma_ascending_distinct(part);
    lemma_distinct(keys_of(entries));
    lemma_one::<W>(wal);
    assert forall|e: int| 0 <= e < entries.len() implies all.contains((#[trigger] entries[e]).0) by {
        assert(keys_of(entries)[e] == entries[e].0);
        assert(keys_of(entries).contains(entries[e].0));
    }
    lemma_sum_by_key(wal, x, entries, all, n);
    assert(entries.take(n) =~= entries);
    assert forall|i: int| 0 <= i < out.len() implies f((#[trigger] out[i]).0) == val(out[i].1) * x(out[i].0) by {
        assert(out[i].1 == W::narrow_of(total_for(entries, out[i].0)));
        assert(val(out[i].1) == wal(total_for(entries, out[i].0)));
    }
    lemma_value_by_key(val, x, f, out);
    assert forall|i: u32| all.contains(i) && !(#[trigger] part.contains(i)) implies f(i) == 0 as real by {
        assert(keys_of(entries).contains(i));
        assert(same_number(total_for(entries, i), zero_of()));
        let t = total_for(entries, i);
        assert(W::at_most_of(t, zero_of()) && W::at_most_of(zero_of(), t));
        assert(wal(t) == 0 as real);
        assert((0 as real) * x(i) == 0 as real) by (nonlinear_arith);
    }
    lemma_sum_part(f, part, all);
}

// ---------------------------------------------------------------------------
// Weights anywhere on a quad
// ---------------------------------------------------------------------------
/// The stencils of a node are weighted means.
pub(crate) proof fn lemma_node_rows<S: Scalar>(
    val: spec_fn(S) -> real,
    mesh: Mesh<S>,
    adj: Adjacency,
    options: SchemeOptions,
    positions: Seq<[S; 3]>,
    face: u32,
    node: IsolationNode<S>,
    j: int,
)
    requires
        reads_exactly(val),
        is_node(mesh, adj, options, positions, face, node),
        0 <= j < node.refined.level_stencils@[0]@.len(),
    ensures
        total(val, node.refined.level_stencils@[0]@[j]) == 1 as real,
{
    reveal(is_node);
    let cut = choose|cut: Cutout<S>| #[trigger]
        is_cutout(mesh, adj, face as int, cut) && refined_cutout(cut, options, node.refined);
    let (refiner, req, refinement) = choose|refiner: Refiner<S>, req: UniformRefine<S>, refinement: Refinement<S>|
        refines_cutout(refiner, cut, options) && single_step(req) && #[trigger] refiner.refined_to(req, refinement)
            && result_of(refinement, node.refined);
    let levels = refinement.chain_of();
    let rows = level_rows(Scheme::CatmullClark, options, levels[0]);
    let table = node.refined.level_stencils@[0];
    assert(written_from(table, level_rows(refinement.scheme_of(), refinement.options_of(), levels[0])));
    assert(table.indices@.len() == flat(rows).len());
    assert(table@ == rows);
    assert(level_ok(Scheme::CatmullClark, levels[0]));
    weights_sum_to_one(val, Scheme::CatmullClark, options, levels[0], j);
}

pub(crate) proof fn lemma_widened<S: Scalar, W: Wide<S>>(
    val: spec_fn(S) -> real,
    wal: spec_fn(W) -> real,
    x: spec_fn(u32) -> real,
    row: Seq<(u32, S)>,
)
    requires
        reads_both::<S, W>(val, wal),
    ensures
        total(wal, widened_row::<S, W>(row)) == total(val, row),
        value(wal, x, widened_row::<S, W>(row)) == value(val, x, row),
    decreases row.len(),
{
    if row.len() > 0 {
        let front = row.drop_last();
        lemma_widened::<S, W>(val, wal, x, front);
        let w = widened_row::<S, W>(row);
        assert(w.drop_last() =~= widened_row::<S, W>(front));
        assert(w.last() == (row.last().0, W::widen_of(row.last().1)));
    }
}

proof fn lemma_corner_unity<S: Scalar, W: Wide<S>>(
    val: spec_fn(S) -> real,
    wal: spec_fn(W) -> real,
    mesh: Mesh<S>,
    adj: Adjacency,
    options: SchemeOptions,
    face: u32,
    corner: int,
    row: Seq<(u32, W)>,
)
    requires
        reads_both::<S, W>(val, wal),
        limit_ready(mesh, adj),
        face < mesh.face_vertex_counts@.len(),
        0 <= corner < 4,
        corner_weights::<S, W>(mesh, adj, options, face, corner) == Ok::<_, KernelError>(row),
    ensures
        total(wal, row) == 1 as real,
        row_below(row, mesh.vertex_count as nat),
{
    let v = quad_at(mesh, face as int)[corner];
    assert(v < mesh.vertex_count) by {
        reveal(quads_ok);
        assert(v == mesh.face_vertex_indices@[4 * face + corner]);
    }
    let ring = ring_of(mesh, adj, v)->Ok_0;
    lemma_ring_ok(mesh, adj, options, v);
    let rule = rule_of(mesh, adj, options, v, ring);
    limit_weights_sum_to_one::<S, W>(val, wal, v, ring, rule);
    let position = sectors_of::<S, W>(v, ring, rule).position;
    lemma_widened::<S, W>(val, wal, |i: u32| 1 as real, position);
    corner_rows_fit::<S, W>(mesh, adj, options, face, corner);
    assert(row == widened_row::<S, W>(position));
    assert forall|k: int| 0 <= k < row.len() implies (#[trigger] row[k]).0 < mesh.vertex_count by {
        assert(position[k].0 < mesh.vertex_count);
    }
}

pub(crate) proof fn lemma_corner_range<W: Scalar>(uv: (W, W))
    ensures
        0 <= nearest_corner_of(uv) < 4,
        0 <= quadrant_of(uv) < 4,
        exact_corner_of(uv) is Some ==> 0 <= exact_corner_of(uv)->Some_0 < 4,
{
}

/// The weights of a limit point, before and after they are merged, sum up to
/// one.
pub proof fn weights_partition_unity<S: Scalar, W: Wide<S>>(
    val: spec_fn(S) -> real,
    wal: spec_fn(W) -> real,
    mesh: Mesh<S>,
    adj: Adjacency,
    options: SchemeOptions,
    positions: Seq<[S; 3]>,
    face: u32,
    uv: (W, W),
    left: nat,
    row: Seq<(u32, W)>,
)
    requires
        reads_both::<S, W>(val, wal),
        eval_ready(mesh, adj),
        grids_of(mesh, adj, mesh.face_vertex_counts@.len() as int) is Ok,
        face < mesh.face_vertex_counts@.len(),
        weighed::<S, W>(mesh, adj, options, positions, face, uv, left, Ok(row)),
    ensures
        total(wal, row) == 1 as real,
        row_below(row, mesh.vertex_count as nat),
        forall|out: Seq<(u32, S)>| #[trigger] merged_row::<S, W>(row, out) ==> total(val, out) == 1 as real,
    decreases left,
{
    lemma_corner_range(uv);
    let one = |i: u32| 1 as real;
    if regular_quad(mesh, adj, face as int) {
        reveal(weighed);
        let points = grid_of(mesh, adj, face as int, 4)->Ok_0;
        patch_of_quad(mesh, adj, face as int);
        patch_weights_sum_to_one::<S, W>(wal, points, uv);
        assert(row == patch_weights::<S, W>(points, uv));
        assert forall|k: int| 0 <= k < row.len() implies (#[trigger] row[k]).0 < mesh.vertex_count by {
            assert(points[k] < mesh.vertex_count);
        }
    } else if snap_target_of(mesh, adj, options, face, uv) is Some {
        reveal(weighed);
        let corner = snap_target_of(mesh, adj, options, face, uv)->Some_0;
        lemma_corner_unity::<S, W>(val, wal, mesh, adj, options, face, corner, row);
    } else if left == 0 {
        reveal(weighed);
        lemma_corner_unity::<S, W>(val, wal, mesh, adj, options, face, nearest_corner_of(uv), row);
    } else {
        let (node, inner) = lemma_weighed_node::<S, W>(mesh, adj, options, positions, face, uv, left, row);
        let k = quadrant_of(uv);
        node_is_ok(mesh, adj, options, positions, face, node);
        lemma_node_quadrant(node, mesh.vertex_count as int, k);
        weights_partition_unity::<S, W>(
            val,
            wal,
            node.refined.topology,
            node.refined.adjacency,
            options,
            node.positions@,
            node.children@[k].face,
            node_frame::<S, W>(node, k).inside(uv),
            (left - 1) as nat,
            inner,
        );
        let rows = node.refined.level_stencils@[0]@;
        let vertices = node.sub_vertices@;
        assert(rows.len() == node.refined.topology.vertex_count && rows_below(rows, vertices.len()) && all_below(
            vertices,
            mesh.vertex_count as int,
        )) by {
            reveal(node_ok);
        }
        let entries = lifted_entries(inner, rows, vertices, inner.len() as int);
        assert forall|e: int| 0 <= e < inner.len() implies one((#[trigger] inner[e]).0) == value(
            val,
            |i: u32| one(vertices[i as int]),
            rows[inner[e].0 as int],
        ) by {
            let j = inner[e].0 as int;
            assert(inner[e].0 < rows.len());
            lemma_node_rows(val, mesh, adj, options, positions, face, node, j);
            lemma_value_of_one(val, |i: u32| one(vertices[i as int]), rows[j]);
        }
        lemma_value_lifted::<S, W>(val, wal, one, one, inner, rows, vertices, inner.len() as int);
        assert(inner.take(inner.len() as int) =~= inner);
        lemma_value_of_one(wal, one, inner);
        lemma_value_collected(wal, one, entries, row);
        lemma_value_of_one(wal, one, row);
        lemma_lifted_below::<S, W>(inner, rows, vertices, inner.len() as int, mesh.vertex_count as int);
        lemma_collected_below(entries, row, mesh.vertex_count as nat);
    }
    assert forall|out: Seq<(u32, S)>| #[trigger] merged_row::<S, W>(row, out) implies total(val, out)
        == 1 as real by {
        lemma_value_merged::<S, W>(val, wal, one, row, out);
        lemma_value_of_one(wal, one, row);
        lemma_value_of_one(val, one, out);
    }
}

/// The node that weights were found by way of.
pub(crate) proof fn lemma_weighed_node<S: Scalar, W: Wide<S>>(
    mesh: Mesh<S>,
    adj: Adjacency,
    options: SchemeOptions,
    positions: Seq<[S; 3]>,
    face: u32,
    uv: (W, W),
    left: nat,
    row: Seq<(u32, W)>,
) -> (r: (IsolationNode<S>, Seq<(u32, W)>))
    requires
        weighed::<S, W>(mesh, adj, options, positions, face, uv, left, Ok(row)),
        !regular_quad(mesh, adj, face as int),
        snap_target_of(mesh, adj, options, face, uv) is None,
        left > 0,
    ensures
        is_node(mesh, adj, options, positions, face, r.0),
        weighed::<S, W>(
            r.0.refined.topology,
            r.0.refined.adjacency,
            options,
            r.0.positions@,
            r.0.children@[quadrant_of(uv)].face,
            node_frame::<S, W>(r.0, quadrant_of(uv)).inside(uv),
            (left - 1) as nat,
            Ok(r.1),
        ),
        collected(
            lifted_entries(r.1, r.0.refined.level_stencils@[0]@, r.0.sub_vertices@, r.1.len() as int),
            row,
        ),
{
    reveal(weighed);
    let out: Result<Seq<(u32, W)>, KernelError> = Ok(row);
    let (node, inner) = choose|node: IsolationNode<S>, inner: Result<Seq<(u32, W)>, KernelError>| #[trigger]
        is_node(mesh, adj, options, positions, face, node) && weighed::<S, W>(
            node.refined.topology,
            node.refined.adjacency,
            options,
            node.positions@,
            node.children@[quadrant_of(uv)].face,
            node_frame::<S, W>(node, quadrant_of(uv)).inside(uv),
            (left - 1) as nat,
            inner,
        ) && #[trigger] lifted::<S, W>(node, inner, out);
    (node, inner->Ok_0)
}

} // verus!
