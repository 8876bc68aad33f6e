//! Normals and signs of closest points, in plain numbers.

use crate::closest_point::{
    across_of, corner_directions, edge_normal_is, edge_place, face_normal_is, fan_normal_is, finished, near_end_of, normal_of,
    pseudonormal_is, reports, seen, side_of, supposed, wedge_added, wedge_normal_of, ClosestPoint, Offer,
};
use crate::error::KernelError;
use crate::frames::{corner_directions_follow_the_edges, way};
use crate::limit::place_of;
use crate::limit_eval::{corner_place, LimitEvaluator, SampleModel};
use crate::means::orders_exactly;
use crate::metric::{
    bounded_of, cross_of, difference_of, dot_of, length_of, nothing_of, sum_of, unit_of, wedge_of, Metric,
};
use crate::nearest::roots_exactly;
use crate::points::{product_of_difference, product_of_sum, product_of_three, product_with_one, quotient_times};
use crate::ring::{faces_at, quad_at};
use crate::scalar::{one_of, zero_of, Scalar, Wide};
use crate::unity::{compares_exactly, reads_both};
use crate::weights::{lemma_one, reads_exactly};
use vstd::prelude::*;

verus! {

/// The numbers that a vector stands for.
pub open spec fn reading<W>(wal: spec_fn(W) -> real, a: Seq<W>) -> (real, real, real) {
    (wal(a[0]), wal(a[1]), wal(a[2]))
}

pub open spec fn dot3(a: (real, real, real), b: (real, real, real)) -> real {
    a.0 * b.0 + a.1 * b.1 + a.2 * b.2
}

pub open spec fn cross3(a: (real, real, real), b: (real, real, real)) -> (real, real, real) {
    (a.1 * b.2 - a.2 * b.1, a.2 * b.0 - a.0 * b.2, a.0 * b.1 - a.1 * b.0)
}

pub open spec fn plus3(a: (real, real, real), b: (real, real, real)) -> (real, real, real) {
    (a.0 + b.0, a.1 + b.1, a.2 + b.2)
}

pub open spec fn times3(k: real, a: (real, real, real)) -> (real, real, real) {
    (k * a.0, k * a.1, k * a.2)
}

pub open spec fn zero3() -> (real, real, real) {
    (0 as real, 0 as real, 0 as real)
}

/// `n` has the direction of `a` and length one, or is nought.
pub open spec fn is_unit_along(n: (real, real, real), a: (real, real, real)) -> bool {
    n == zero3() || (dot3(n, n) == 1 as real && exists|k: real| k > 0 as real && n == #[trigger] times3(k, a))
}

/// Arithmetic, comparisons and roots do what they do with real numbers.
pub open spec fn measures_exactly<W: Metric>(wal: spec_fn(W) -> real) -> bool {
    &&& reads_exactly(wal)
    &&& compares_exactly(wal)
    &&& orders_exactly(wal)
    &&& roots_exactly(wal)
}

// ---------------------------------------------------------------------------
// Vectors
// ---------------------------------------------------------------------------
pub(crate) proof fn lemma_dot<W: Scalar>(wal: spec_fn(W) -> real, a: Seq<W>, b: Seq<W>)
    requires
        reads_exactly(wal),
    ensures
        wal(dot_of(a, b)) == dot3(reading(wal, a), reading(wal, b)),
{
    let x = W::times_of(a[0], b[0]);
    let y = W::times_of(a[1], b[1]);
    let z = W::times_of(a[2], b[2]);
    assert(wal(x) == wal(a[0]) * wal(b[0]));
    assert(wal(y) == wal(a[1]) * wal(b[1]));
    assert(wal(z) == wal(a[2]) * wal(b[2]));
    assert(wal(W::plus_of(x, y)) == wal(x) + wal(y));
}

proof fn lemma_cross<W: Scalar>(wal: spec_fn(W) -> real, a: Seq<W>, b: Seq<W>)
    requires
        reads_exactly(wal),
    ensures
        reading(wal, cross_of(a, b)) == cross3(reading(wal, a), reading(wal, b)),
{
    assert(wal(W::times_of(a[1], b[2])) == wal(a[1]) * wal(b[2]));
    assert(wal(W::times_of(a[2], b[1])) == wal(a[2]) * wal(b[1]));
    assert(wal(W::times_of(a[2], b[0])) == wal(a[2]) * wal(b[0]));
    assert(wal(W::times_of(a[0], b[2])) == wal(a[0]) * wal(b[2]));
    assert(wal(W::times_of(a[0], b[1])) == wal(a[0]) * wal(b[1]));
    assert(wal(W::times_of(a[1], b[0])) == wal(a[1]) * wal(b[0]));
}

proof fn square_is_not_negative(a: real)
    ensures
        a * a >= 0 as real,
{
    assert(a * a >= 0 as real) by (nonlinear_arith);
}

proof fn square_of_product(k: real, a: real)
    ensures
        (k * a) * (k * a) == (k * k) * (a * a),
{
    assert((k * a) * (k * a) == (k * k) * (a * a)) by (nonlinear_arith);
}

proof fn squares_of_scaled(k: real, a: real, b: real, c: real)
    ensures
        (k * a) * (k * a) + (k * b) * (k * b) + (k * c) * (k * c) == (k * k) * (a * a + b * b + c * c),
{
    square_of_product(k, a);
    square_of_product(k, b);
    square_of_product(k, c);
    product_of_sum(k * k, a * a, b * b);
    product_of_sum(k * k, a * a + b * b, c * c);
}

/// The unit vector of a vector has its direction, or is nought where it is short.
pub proof fn unit_vectors<W: Metric>(wal: spec_fn(W) -> real, a: Seq<W>)
    requires
        measures_exactly(wal),
    ensures
        is_unit_along(reading(wal, unit_of(a)), reading(wal, a)),
        dot3(reading(wal, a), reading(wal, a)) > wal(W::tiny_of(12)) * wal(W::tiny_of(12)) ==> reading(
            wal,
            unit_of(a),
        ) != zero3(),
{
    lemma_one::<W>(wal);
    let v = reading(wal, a);
    lemma_dot(wal, a, a);
    square_is_not_negative(v.0);
    square_is_not_negative(v.1);
    square_is_not_negative(v.2);
    let len = length_of(a);
    let l = wal(len);
    let d = dot3(v, v);
    assert(l >= 0 as real && l * l == d);
    let eps = wal(W::tiny_of(12));
    if W::less_of(W::tiny_of(12), len) {
        let inv = W::over_of(one_of(), len);
        let k = wal(inv);
        assert(l > 0 as real);
        assert(k == (1 as real) / l);
        let u = unit_of(a);
        let (x, y, z) = v;
        assert(wal(W::times_of(a[0], inv)) == x * k);
        assert(wal(W::times_of(a[1], inv)) == y * k);
        assert(wal(W::times_of(a[2], inv)) == z * k);
        product_of_three(x, k, 1 as real);
        product_of_three(y, k, 1 as real);
        product_of_three(z, k, 1 as real);
        assert(reading(wal, u) == times3(k, v));
        squares_of_scaled(k, x, y, z);
        lemma_inverse(k, l);
        square_of_product(k, l);
        product_with_one(k * l, k * l);
        assert(dot3(times3(k, v), times3(k, v)) == 1 as real);
        assert(is_unit_along(times3(k, v), v));
    } else {
        assert(l <= eps);
        if d > eps * eps {
            squares_keep_order(l, eps);
        }
        assert(reading(wal, nothing_of::<W>()) == zero3());
    }
}

proof fn times_nought(k: real, z: real)
    requires
        z == 0 as real,
    ensures
        k * z == 0 as real,
        z * k == 0 as real,
{
    assert(k * z == 0 as real) by (nonlinear_arith)
        requires
            z == 0 as real,
    ;
    assert(z * k == 0 as real) by (nonlinear_arith)
        requires
            z == 0 as real,
    ;
}

proof fn squares_keep_order(a: real, b: real)
    requires
        0 as real <= a <= b,
    ensures
        a * a <= b * b,
{
    assert(a * a <= b * b) by (nonlinear_arith)
        requires
            0 as real <= a <= b,
    ;
}

proof fn lemma_inverse(k: real, l: real)
    requires
        l > 0 as real,
        k == (1 as real) / l,
    ensures
        k > 0 as real,
        k * l == 1 as real,
{
    quotient_times(k, 1 as real, l);
    if k <= 0 as real {
        assert(k * l <= 0 as real) by (nonlinear_arith)
            requires
                l > 0 as real,
                k <= 0 as real,
        ;
    }
}

/// A cross product is at right angles to both its factors.
proof fn crosses_are_at_right_angles(a: (real, real, real), b: (real, real, real))
    ensures
        dot3(cross3(a, b), a) == 0 as real,
        dot3(cross3(a, b), b) == 0 as real,
{
    let (x, y, z) = a;
    let (p, q, r) = b;
    product_of_difference(x, y * r, z * q);
    product_of_difference(y, z * p, x * r);
    product_of_difference(z, x * q, y * p);
    product_of_difference(p, y * r, z * q);
    product_of_difference(q, z * p, x * r);
    product_of_difference(r, x * q, y * p);
    product_of_three(y, r, x);
    product_of_three(z, q, x);
    product_of_three(z, p, y);
    product_of_three(x, r, y);
    product_of_three(x, q, z);
    product_of_three(y, p, z);
    product_of_three(y, r, p);
    product_of_three(z, q, p);
    product_of_three(z, p, q);
    product_of_three(x, r, q);
    product_of_three(x, q, r);
    product_of_three(y, p, r);
}

pub(crate) proof fn scaled_dot(k: real, a: (real, real, real), b: (real, real, real))
    ensures
        dot3(times3(k, a), b) == k * dot3(a, b),
{
    let (x, y, z) = a;
    let (p, q, r) = b;
    product_of_three(k, x, p);
    product_of_three(k, y, q);
    product_of_three(k, z, r);
    product_of_sum(k, x * p, y * q);
    product_of_sum(k, x * p + y * q, z * r);
}

// ---------------------------------------------------------------------------
// Normals of quads
// ---------------------------------------------------------------------------
/// `n` is the normal of a sample: of length one, at right angles to both derivatives,
/// and on the side from which they turn to the left; or nought where they span no area.
pub open spec fn is_normal(n: (real, real, real), du: (real, real, real), dv: (real, real, real)) -> bool {
    n == zero3() || {
        &&& dot3(n, n) == 1 as real
        &&& dot3(n, du) == 0 as real
        &&& dot3(n, dv) == 0 as real
        &&& dot3(n, cross3(du, dv)) > 0 as real
    }
}

/// The normal of a sample is its normal.
pub proof fn samples_have_normals<W: Metric>(wal: spec_fn(W) -> real, s: SampleModel<W, W>)
    requires
        measures_exactly(wal),
    ensures
        is_normal(reading(wal, normal_of(s)), reading(wal, s.du), reading(wal, s.dv)),
{
    let c = cross_of(s.du, s.dv);
    let (a, b) = (reading(wal, s.du), reading(wal, s.dv));
    lemma_cross(wal, s.du, s.dv);
    unit_vectors(wal, c);
    let n = reading(wal, normal_of(s));
    let w = cross3(a, b);
    if n != zero3() {
        let k = choose|k: real| k > 0 as real && n == #[trigger] times3(k, w);
        crosses_are_at_right_angles(a, b);
        scaled_dot(k, w, a);
        scaled_dot(k, w, b);
        scaled_dot(k, w, w);
        times_nought(k, 0 as real);
        let d = dot3(w, w);
        squares_of_scaled(k, w.0, w.1, w.2);
        square_is_not_negative(w.0);
        square_is_not_negative(w.1);
        square_is_not_negative(w.2);
        if d == 0 as real {
            times_nought(k * k, d);
        }
        assert(d > 0 as real);
        lemma_sign_of_product(k, d);
    }
}

/// `n` is the normal of the limit surface of a quad at a place.
pub open spec fn surface_normal<'a, S: Metric, W: Wide<S> + Metric>(
    wal: spec_fn(W) -> real,
    ev: LimitEvaluator<'a, S>,
    face: u32,
    at: (W, W),
    n: (real, real, real),
) -> bool {
    exists|s: SampleModel<W, W>| #[trigger]
        seen::<S, W>(ev, face, at, Ok(s)) && is_normal(n, reading(wal, s.du), reading(wal, s.dv))
}

proof fn lemma_face_normal<'a, S: Metric, W: Wide<S> + Metric>(
    wal: spec_fn(W) -> real,
    ev: LimitEvaluator<'a, S>,
    face: u32,
    at: (W, W),
    out: Seq<W>,
)
    requires
        measures_exactly(wal),
        face_normal_is::<S, W>(ev, face, at, Ok(out)),
    ensures
        surface_normal::<S, W>(wal, ev, face, at, reading(wal, out)),
{
    let r = choose|s: Result<SampleModel<W, W>, KernelError>| #[trigger]
        seen::<S, W>(ev, face, at, s) && Ok::<_, KernelError>(out) == (match s {
            Ok(s) => Ok(normal_of(s)),
            Err(error) => Err(error),
        });
    let s = r->Ok_0;
    samples_have_normals(wal, s);
    assert(seen::<S, W>(ev, face, at, Ok(s)));
}

proof fn square_of_sum(a: real, b: real)
    ensures
        (a + b) * (a + b) == a * a + 2 as real * (a * b) + b * b,
{
    assert((a + b) * (a + b) == a * a + 2 as real * (a * b) + b * b) by (nonlinear_arith);
}

/// The sum of two vectors of length one does not point away from either of them.
proof fn lemma_sum_of_units(a: (real, real, real), b: (real, real, real))
    requires
        a == zero3() || dot3(a, a) == 1 as real,
        b == zero3() || dot3(b, b) == 1 as real,
    ensures
        dot3(plus3(a, b), a) >= 0 as real,
        dot3(plus3(a, b), b) >= 0 as real,
{
    let (x, y, z) = a;
    let (p, q, r) = b;
    square_is_not_negative(x + p);
    square_is_not_negative(y + q);
    square_is_not_negative(z + r);
    square_of_sum(x, p);
    square_of_sum(y, q);
    square_of_sum(z, r);
    product_of_sum(x, x, p);
    product_of_sum(y, y, q);
    product_of_sum(z, z, r);
    product_of_sum(p, x, p);
    product_of_three(x, p, 1 as real);
    product_of_sum(q, y, q);
    product_of_three(y, q, 1 as real);
    product_of_sum(r, z, r);
    product_of_three(z, r, 1 as real);
    if a == zero3() {
        times_nought(p, 0 as real);
        times_nought(q, 0 as real);
        times_nought(r, 0 as real);
        square_is_not_negative(p);
        square_is_not_negative(q);
        square_is_not_negative(r);
    }
    if b == zero3() {
        times_nought(x, 0 as real);
        times_nought(y, 0 as real);
        times_nought(z, 0 as real);
        square_is_not_negative(x);
        square_is_not_negative(y);
        square_is_not_negative(z);
    }
}

/// On an edge the normal is the sum of the normals of the quads on its two sides, so it
/// points away from neither; on an edge of one quad it is the normal of the quad.
pub proof fn edges_have_the_sum_of_two_normals<'a, S: Metric, W: Wide<S> + Metric>(
    wal: spec_fn(W) -> real,
    ev: LimitEvaluator<'a, S>,
    face: u32,
    slot: int,
    x: W,
    out: Seq<W>,
) -> (r: ((real, real, real), (real, real, real)))
    requires
        measures_exactly(wal),
        edge_normal_is::<S, W>(ev, face, slot, x, Ok(out)),
    ensures
        surface_normal::<S, W>(wal, ev, face, edge_place(slot, x), r.0),
        match across_of::<S, W>(ev, face, slot, x) {
            None => r.1 == zero3(),
            Some((other, at)) => surface_normal::<S, W>(wal, ev, other, at, r.1),
        },
        reading(wal, out) == plus3(r.0, r.1),
        dot3(reading(wal, out), r.0) >= 0 as real,
        dot3(reading(wal, out), r.1) >= 0 as real,
{
    let own = choose|own: Result<Seq<W>, KernelError>| #[trigger]
        face_normal_is::<S, W>(ev, face, edge_place(slot, x), own) && match own {
            Err(error) => Ok::<Seq<W>, KernelError>(out) == Err::<Seq<W>, _>(error),
            Ok(n) => match across_of::<S, W>(ev, face, slot, x) {
                None => Ok::<Seq<W>, KernelError>(out) == Ok::<_, KernelError>(sum_of(n, nothing_of::<W>())),
                Some((other, at)) => exists|next: Result<Seq<W>, KernelError>| #[trigger]
                    face_normal_is::<S, W>(ev, other, at, next) && Ok::<Seq<W>, KernelError>(out) == (match next {
                        Ok(t) => Ok(sum_of(n, t)),
                        Err(error) => Err(error),
                    }),
            },
        };
    let n = own->Ok_0;
    lemma_one::<W>(wal);
    lemma_face_normal::<S, W>(wal, ev, face, edge_place(slot, x), n);
    let a = reading(wal, n);
    let b = match across_of::<S, W>(ev, face, slot, x) {
        None => zero3(),
        Some((other, at)) => {
            let next = choose|next: Result<Seq<W>, KernelError>| #[trigger]
                face_normal_is::<S, W>(ev, other, at, next) && Ok::<Seq<W>, KernelError>(out) == (match next {
                    Ok(t) => Ok(sum_of(n, t)),
                    Err(error) => Err(error),
                });
            lemma_face_normal::<S, W>(wal, ev, other, at, next->Ok_0);
            reading(wal, next->Ok_0)
        },
    };
    lemma_sum_of_units(a, b);
    (a, b)
}

/// Where both quads at an edge have the same normal, it is the normal there.
pub proof fn flat_edges_keep_their_normal<W: Metric>(wal: spec_fn(W) -> real, out: Seq<W>, n: (real, real, real))
    requires
        measures_exactly(wal),
        dot3(n, n) == 1 as real,
        reading(wal, out) == plus3(n, n),
        4 as real > wal(W::tiny_of(12)) * wal(W::tiny_of(12)),
    ensures
        reading(wal, unit_of(out)) == n,
{
    unit_vectors(wal, out);
    let (x, y, z) = n;
    let v = reading(wal, out);
    square_of_sum(x, x);
    square_of_sum(y, y);
    square_of_sum(z, z);
    assert(dot3(v, v) == 4 as real);
    let u = reading(wal, unit_of(out));
    assert(u != zero3());
    let k = choose|k: real| k > 0 as real && u == #[trigger] times3(k, v);
    squares_of_scaled(k, v.0, v.1, v.2);
    assert((k * k) * (4 as real) == 1 as real);
    half_from_square(k);
    half_of_twice(k, x);
    half_of_twice(k, y);
    half_of_twice(k, z);
}

proof fn half_from_square(k: real)
    requires
        k > 0 as real,
        (k * k) * (4 as real) == 1 as real,
    ensures
        k == (1 as real) / (2 as real),
{
    if k > (1 as real) / (2 as real) {
        assert(k * k > (1 as real) / (4 as real)) by (nonlinear_arith)
            requires
                k > (1 as real) / (2 as real),
        ;
    } else if k < (1 as real) / (2 as real) {
        assert(k * k < (1 as real) / (4 as real)) by (nonlinear_arith)
            requires
                k < (1 as real) / (2 as real),
                k > 0 as real,
        ;
    }
}

proof fn half_of_twice(k: real, x: real)
    requires
        k == (1 as real) / (2 as real),
    ensures
        k * (x + x) == x,
{
    assert(k * (x + x) == x) by (nonlinear_arith)
        requires
            k == (1 as real) / (2 as real),
    ;
}

// ---------------------------------------------------------------------------
// Corners
// ---------------------------------------------------------------------------
/// The angle between two directions has their dot product over their lengths as its
/// cosine, as far as that is one. Where one of them is too short to tell, it is a right
/// angle. The result is the cosine and the two lengths.
pub proof fn wedges_are_angles<W: Metric>(wal: spec_fn(W) -> real, a: Seq<W>, b: Seq<W>) -> (r: (W, real, real))
    requires
        measures_exactly(wal),
    ensures
        wedge_of(a, b) == W::arc_cos_of(r.0),
        r.1 >= 0 as real,
        r.2 >= 0 as real,
        r.1 * r.1 == dot3(reading(wal, a), reading(wal, a)),
        r.2 * r.2 == dot3(reading(wal, b), reading(wal, b)),
        ({
            let eps = wal(W::tiny_of(12));
            let d = dot3(reading(wal, a), reading(wal, b));
            let t = wal(r.0);
            let pq = r.1 * r.2;
            if r.1 > eps && r.2 > eps {
                if d > pq {
                    t == 1 as real
                } else if d < -pq {
                    t == -(1 as real)
                } else {
                    t * pq == d
                }
            } else {
                t == 0 as real
            }
        }),
{
    lemma_one::<W>(wal);
    lemma_dot(wal, a, a);
    lemma_dot(wal, b, b);
    lemma_dot(wal, a, b);
    let (v, w) = (reading(wal, a), reading(wal, b));
    square_is_not_negative(v.0);
    square_is_not_negative(v.1);
    square_is_not_negative(v.2);
    square_is_not_negative(w.0);
    square_is_not_negative(w.1);
    square_is_not_negative(w.2);
    let (la, lb) = (length_of(a), length_of(b));
    let (p, q) = (wal(la), wal(lb));
    assert(p >= 0 as real && p * p == dot3(v, v));
    assert(q >= 0 as real && q * q == dot3(w, w));
    if W::less_of(W::tiny_of(12), la) && W::less_of(W::tiny_of(12), lb) {
        let both = W::times_of(la, lb);
        let pq = p * q;
        assert(wal(both) == pq);
        lemma_sign_of_product(p, q);
        let ratio = W::over_of(dot_of(a, b), both);
        let d = dot3(v, w);
        let k = wal(ratio);
        assert(k == d / pq);
        lemma_quotient(k, d, pq);
        let low = W::negated_of(one_of::<W>());
        assert(wal(low) == -(1 as real));
        let t = bounded_of(ratio, low, one_of());
        (t, p, q)
    } else {
        (zero_of::<W>(), p, q)
    }
}

proof fn lemma_quotient(k: real, d: real, m: real)
    requires
        m > 0 as real,
        k == d / m,
    ensures
        k * m == d,
        d > m <==> k > 1 as real,
        d < -m <==> k < -(1 as real),
{
    quotient_times(k, d, m);
    let a = k - 1 as real;
    let b = k + 1 as real;
    product_of_difference(m, k, 1 as real);
    product_of_sum(m, k, 1 as real);
    product_with_one(1 as real, m);
    lemma_sign_of_product(a, m);
    lemma_sign_of_product(b, m);
}

pub(crate) proof fn lemma_sign_of_product(a: real, m: real)
    requires
        m > 0 as real,
    ensures
        a > 0 as real <==> a * m > 0 as real,
        a < 0 as real <==> a * m < 0 as real,
{
    if a > 0 as real {
        assert(a * m > 0 as real) by (nonlinear_arith)
            requires
                a > 0 as real,
                m > 0 as real,
        ;
    } else if a < 0 as real {
        assert(a * m < 0 as real) by (nonlinear_arith)
            requires
                a < 0 as real,
                m > 0 as real,
        ;
    } else {
        assert(a * m == 0 as real) by (nonlinear_arith)
            requires
                a == 0 as real,
        ;
    }
}

/// Angles are not negative.
pub open spec fn angles_exactly<W: Metric>(wal: spec_fn(W) -> real) -> bool {
    forall|t: W| wal(#[trigger] W::arc_cos_of(t)) >= 0 as real
}

/// The weighted normal of a quad at a corner is its normal, by an angle that is not
/// negative.
proof fn lemma_wedge<W: Metric>(wal: spec_fn(W) -> real, k: int, s: SampleModel<W, W>) -> (r: (real, (real, real, real)))
    requires
        measures_exactly(wal),
        angles_exactly(wal),
    ensures
        r.0 >= 0 as real,
        is_normal(r.1, reading(wal, s.du), reading(wal, s.dv)),
        reading(wal, wedge_normal_of(k, s)) == times3(r.0, r.1),
{
    samples_have_normals(wal, s);
    let (next, previous) = corner_directions(k, s.du, s.dv);
    let w = wedge_of(next, previous);
    let n = normal_of(s);
    let (x, y, z) = reading(wal, n);
    let a = wal(w);
    assert(a >= 0 as real);
    assert(wal(W::times_of(n[0], w)) == x * a);
    assert(wal(W::times_of(n[1], w)) == y * a);
    assert(wal(W::times_of(n[2], w)) == z * a);
    product_of_three(x, a, 1 as real);
    product_of_three(y, a, 1 as real);
    product_of_three(z, a, 1 as real);
    (a, (x, y, z))
}

/// Every quad at vertex `v` has its normal there on the side of `h`.
pub open spec fn fan_faces<'a, S: Metric, W: Wide<S> + Metric>(
    wal: spec_fn(W) -> real,
    ev: LimitEvaluator<'a, S>,
    v: u32,
    h: (real, real, real),
) -> bool {
    forall|i: int, n: (real, real, real)|
        #![trigger faces_at(ev.adj(), v as int)[i], dot3(n, h)]
        0 <= i < faces_at(ev.adj(), v as int).len() && ({
            let f = faces_at(ev.adj(), v as int)[i];
            match place_of(quad_at(ev.mesh(), f as int), v) {
                Some(k) => surface_normal::<S, W>(wal, ev, f, corner_place::<W>(k), n),
                None => false,
            }
        }) ==> dot3(n, h) >= 0 as real
}

/// At a corner the normal points to every side that the normals of all quads there point
/// to.
pub proof fn corners_have_a_normal_among_those_of_their_quads<'a, S: Metric, W: Wide<S> + Metric>(
    wal: spec_fn(W) -> real,
    ev: LimitEvaluator<'a, S>,
    v: u32,
    m: int,
    out: Seq<W>,
    h: (real, real, real),
)
    requires
        measures_exactly(wal),
        angles_exactly(wal),
        0 <= m <= faces_at(ev.adj(), v as int).len(),
        fan_normal_is::<S, W>(ev, v, m, Ok(out)),
        fan_faces::<S, W>(wal, ev, v, h),
    ensures
        dot3(reading(wal, out), h) >= 0 as real,
    decreases m,
{
    lemma_one::<W>(wal);
    let (p, q, r) = h;
    if m <= 0 {
        times_nought(p, 0 as real);
        times_nought(q, 0 as real);
        times_nought(r, 0 as real);
    } else {
        let f = faces_at(ev.adj(), v as int)[m - 1];
        let result = Ok::<Seq<W>, KernelError>(out);
        let before = choose|before: Result<Seq<W>, KernelError>| #[trigger]
            supposed(before) && fan_normal_is::<S, W>(ev, v, m - 1, before) && match before {
                Err(error) => result == Err::<Seq<W>, _>(error),
                Ok(acc) => match place_of(quad_at(ev.mesh(), f as int), v) {
                    None => result == Err::<Seq<W>, _>(
                        KernelError::InvalidTopology("vertex fan face does not contain the fan vertex"),
                    ),
                    Some(k) => wedge_added::<S, W>(ev, f, k, acc, result),
                },
            };
        let acc = before->Ok_0;
        corners_have_a_normal_among_those_of_their_quads::<S, W>(wal, ev, v, m - 1, acc, h);
        let k = place_of(quad_at(ev.mesh(), f as int), v)->Some_0;
        let s = lemma_wedge_sample::<S, W>(ev, f, k, acc, out);
        let (w, n) = lemma_wedge(wal, k, s);
        assert(surface_normal::<S, W>(wal, ev, f, corner_place::<W>(k), n));
        assert(faces_at(ev.adj(), v as int)[m - 1] == f);
        let d = dot3(n, h);
        assert(d >= 0 as real);
        scaled_dot(w, n, h);
        not_negative(w, d);
        sum_dot(reading(wal, acc), times3(w, n), h);
    }
}

proof fn not_negative(a: real, b: real)
    requires
        a >= 0 as real,
        b >= 0 as real,
    ensures
        a * b >= 0 as real,
{
    assert(a * b >= 0 as real) by (nonlinear_arith)
        requires
            a >= 0 as real,
            b >= 0 as real,
    ;
}

pub(crate) proof fn sum_dot(a: (real, real, real), b: (real, real, real), h: (real, real, real))
    ensures
        dot3(plus3(a, b), h) == dot3(a, h) + dot3(b, h),
{
    let (x, y, z) = a;
    let (p, q, r) = b;
    let (i, j, k) = h;
    product_of_sum(i, x, p);
    product_of_sum(j, y, q);
    product_of_sum(k, z, r);
}

proof fn lemma_wedge_sample<'a, S: Metric, W: Wide<S> + Metric>(
    ev: LimitEvaluator<'a, S>,
    f: u32,
    k: int,
    acc: Seq<W>,
    out: Seq<W>,
) -> (s: SampleModel<W, W>)
    requires
        wedge_added::<S, W>(ev, f, k, acc, Ok(out)),
    ensures
        seen::<S, W>(ev, f, corner_place::<W>(k), Ok(s)),
        out == sum_of(acc, wedge_normal_of(k, s)),
{
    let r = choose|s: Result<SampleModel<W, W>, KernelError>| #[trigger]
        seen::<S, W>(ev, f, corner_place::<W>(k), s) && Ok::<Seq<W>, KernelError>(out) == (match s {
            Ok(s) => Ok(sum_of(acc, wedge_normal_of(k, s))),
            Err(error) => Err(error),
        });
    r->Ok_0
}

/// At a corner each quad adds its normal by its angle there: the angle between the ways to
/// the next corner and to the one before. The result is the sample of the quad, the cosine
/// of the angle and the lengths of the two ways.
pub proof fn corners_weigh_normals_by_angle<'a, S: Metric, W: Wide<S> + Metric>(
    wal: spec_fn(W) -> real,
    ev: LimitEvaluator<'a, S>,
    f: u32,
    k: int,
    acc: Seq<W>,
    out: Seq<W>,
) -> (r: (SampleModel<W, W>, (real, real, real), (W, real, real)))
    requires
        measures_exactly(wal),
        0 <= k < 4,
        wedge_added::<S, W>(ev, f, k, acc, Ok(out)),
    ensures
        seen::<S, W>(ev, f, corner_place::<W>(k), Ok(r.0)),
        is_normal(r.1, reading(wal, r.0.du), reading(wal, r.0.dv)),
        reading(wal, out) == plus3(reading(wal, acc), times3(wal(W::arc_cos_of(r.2.0)), r.1)),
        ({
            let (du, dv) = (reading(wal, r.0.du), reading(wal, r.0.dv));
            let next = (way(k, (k + 1) % 4, du.0, dv.0), way(k, (k + 1) % 4, du.1, dv.1), way(
                k,
                (k + 1) % 4,
                du.2,
                dv.2,
            ));
            let last = (way(k, (k + 3) % 4, du.0, dv.0), way(k, (k + 3) % 4, du.1, dv.1), way(
                k,
                (k + 3) % 4,
                du.2,
                dv.2,
            ));
            let eps = wal(W::tiny_of(12));
            let (t, p, q) = r.2;
            let d = dot3(next, last);
            &&& p >= 0 as real && p * p == dot3(next, next)
            &&& q >= 0 as real && q * q == dot3(last, last)
            &&& if p > eps && q > eps {
                if d > p * q {
                    wal(t) == 1 as real
                } else if d < -(p * q) {
                    wal(t) == -(1 as real)
                } else {
                    wal(t) * (p * q) == d
                }
            } else {
                wal(t) == 0 as real
            }
        }),
{
    let s = lemma_wedge_sample::<S, W>(ev, f, k, acc, out);
    samples_have_normals(wal, s);
    let (next, last) = corner_directions(k, s.du, s.dv);
    corner_directions_follow_the_edges::<W>(wal, k, s.du, s.dv, 0);
    corner_directions_follow_the_edges::<W>(wal, k, s.du, s.dv, 1);
    corner_directions_follow_the_edges::<W>(wal, k, s.du, s.dv, 2);
    let r = wedges_are_angles(wal, next, last);
    let w = wedge_of(next, last);
    let n = normal_of(s);
    let (x, y, z) = reading(wal, n);
    let a = wal(w);
    assert(wal(W::times_of(n[0], w)) == x * a);
    assert(wal(W::times_of(n[1], w)) == y * a);
    assert(wal(W::times_of(n[2], w)) == z * a);
    product_of_three(x, a, 1 as real);
    product_of_three(y, a, 1 as real);
    product_of_three(z, a, 1 as real);
    (s, (x, y, z), r)
}

// ---------------------------------------------------------------------------
// Results
// ---------------------------------------------------------------------------
/// The normal of a result is the unit vector of what the surface has at the place: inside
/// a quad its normal, on an edge the sum of two, at a corner a sum over the fan.
pub proof fn results_have_the_normal_of_their_place<'a, S: Metric, W: Wide<S> + Metric>(
    val: spec_fn(S) -> real,
    wal: spec_fn(W) -> real,
    ev: LimitEvaluator<'a, S>,
    q: Seq<W>,
    closed: bool,
    best: Offer<W>,
    point: ClosestPoint<S>,
) -> (pseudo: Seq<W>)
    requires
        reads_both::<S, W>(val, wal),
        measures_exactly(wal),
        finished::<S, W>(ev, q, closed, best, Ok(point)),
    ensures
        is_unit_along(reading(val, point.normal@), reading(wal, pseudo)),
        ({
            let eps = wal(W::tiny_of(4));
            let (u, v) = (wal(best.uv.0), wal(best.uv.1));
            let rim_u = u <= eps || u >= 1 as real - eps;
            let rim_v = v <= eps || v >= 1 as real - eps;
            &&& !rim_u && !rim_v ==> surface_normal::<S, W>(wal, ev, best.face, best.uv, reading(wal, pseudo))
            &&& rim_u && !rim_v ==> ({
                let far = u > eps;
                let (slot, x) = side_of(true, far, best.uv);
                edge_normal_is::<S, W>(ev, best.face, slot, x, Ok(pseudo))
            })
            &&& rim_v && !rim_u ==> ({
                let far = v > eps;
                let (slot, x) = side_of(false, far, best.uv);
                edge_normal_is::<S, W>(ev, best.face, slot, x, Ok(pseudo))
            })
            &&& rim_u && rim_v ==> ({
                let vertex = quad_at(ev.mesh(), best.face as int)[if u > eps {
                    if v > eps {
                        2int
                    } else {
                        1
                    }
                } else {
                    if v > eps {
                        3
                    } else {
                        0
                    }
                }];
                fan_normal_is::<S, W>(ev, vertex, faces_at(ev.adj(), vertex as int).len() as int, Ok(pseudo))
            })
        }),
        ({
            let away = (wal(q[0]) - wal(best.position[0]), wal(q[1]) - wal(best.position[1]), wal(q[2]) - wal(
                best.position[2],
            ));
            match point.signed_distance {
                None => !closed,
                Some(d) => closed && (if dot3(away, reading(val, point.normal@)) < 0 as real {
                    val(d) == -val(point.distance)
                } else {
                    val(d) == val(point.distance)
                }),
            }
        }),
{
    lemma_one::<W>(wal);
    let r: Result<ClosestPoint<S>, KernelError> = Ok(point);
    let outcome = choose|pseudo: Result<Seq<W>, KernelError>| #[trigger]
        pseudonormal_is::<S, W>(ev, best.face, best.uv, pseudo) && match pseudo {
            Ok(n) => r is Ok && reports::<S, W>(r->Ok_0, q, closed, best, n),
            Err(error) => r == Err::<ClosestPoint<S>, _>(error),
        };
    let pseudo = outcome->Ok_0;
    unit_vectors(wal, pseudo);
    let normal = unit_of(pseudo);
    assert(normal.len() == 3);
    assert(reading(val, point.normal@) == reading(wal, normal)) by {
        assert(point.normal@[0] == W::narrow_of(normal[0]));
        assert(point.normal@[1] == W::narrow_of(normal[1]));
        assert(point.normal@[2] == W::narrow_of(normal[2]));
    }
    let away = difference_of(q, best.position);
    lemma_dot(wal, away, normal);
    assert(reading(wal, away) == (wal(q[0]) - wal(best.position[0]), wal(q[1]) - wal(best.position[1]), wal(q[2]) - wal(
        best.position[2],
    )));
    let one = one_of::<W>();
    assert(wal(W::minus_of(one, W::tiny_of(4))) == 1 as real - wal(W::tiny_of(4)));
    let (a, b) = (near_end_of(best.uv.0), near_end_of(best.uv.1));
    if a is None && b is None {
        lemma_face_normal::<S, W>(wal, ev, best.face, best.uv, pseudo);
    }
    pseudo
}

} // verus!
