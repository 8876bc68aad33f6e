//! Tangents across creases with wide sides, in plain numbers.

use crate::directions::{lemma_none, lemma_pushed_value, lemma_scaled};
use crate::masks::{crease_model, cross_general, cross_scale, no_row, pushed};
use crate::points::{product_of_sum, product_of_three, product_with_one, quotient_times};
use crate::ring::RingModel;
use crate::scalar::{one_of, Scalar, Wide};
use crate::unity::{reads_both, value};
use crate::weights::lemma_one;
use vstd::prelude::*;

verus! {

/// The sum over one side of a crease with `k` faces, up to inner edge `i`: each inner edge
/// by four times the sine of its turn from the crease, and each face by the sines of the
/// two turns beside it. Half a circle is `k` turns.
pub open spec fn side_sum<W: Scalar>(
    wal: spec_fn(W) -> real,
    x: spec_fn(u32) -> real,
    ring: RingModel,
    lead: int,
    k: int,
    i: int,
) -> real
    decreases i,
{
    if i <= 0 {
        wal(W::sin_turn_of(1, (2 * k) as u64)) * x(ring.diagonals[lead])
    } else {
        let here = wal(W::sin_turn_of(i as u64, (2 * k) as u64));
        let next = wal(W::sin_turn_of((i + 1) as u64, (2 * k) as u64));
        side_sum(wal, x, ring, lead, k, i - 1) + (4 as real * here) * x(ring.neighbors[lead + i]) + (here + next) * x(
            ring.diagonals[lead + i],
        )
    }
}

proof fn lemma_side<S: Scalar, W: Wide<S>>(
    val: spec_fn(S) -> real,
    wal: spec_fn(W) -> real,
    x: spec_fn(u32) -> real,
    v: u32,
    ring: RingModel,
    lead: int,
    trail: int,
    i: int,
    r: real,
)
    requires
        reads_both::<S, W>(val, wal),
        lead < trail,
        0 <= i,
        ({
            let k = trail - lead;
            let c = W::cos_turn_of(1, (2 * k) as u64);
            let s = W::sin_turn_of(1, (2 * k) as u64);
            r == wal(W::over_of(W::plus_of(c, one_of()), s))
        }),
    ensures
        ({
            let k = trail - lead;
            let c = wal(W::cos_turn_of(1, (2 * k) as u64));
            let ends = x(ring.neighbors[lead]) + x(ring.neighbors[trail]);
            value(val, x, cross_general::<S, W>(v, ring, lead, trail, i)) == wal(cross_scale::<W>(k)) * (((4 as real * r) * (c
                - 1 as real)) * x(v) + ((-r) * (1 as real + 2 as real * c)) * ends + side_sum::<W>(
                wal,
                x,
                ring,
                lead,
                k,
                i,
            ))
        }),
    decreases i,
{
    lemma_none::<S>(val, x);
    lemma_one::<W>(wal);
    let k = trail - lead;
    let cos = W::cos_turn_of(1, (2 * k) as u64);
    let sin = W::sin_turn_of(1, (2 * k) as u64);
    let scale = cross_scale::<W>(k);
    let (c, s, m) = (wal(cos), wal(sin), wal(scale));
    let (four, two) = (W::ratio_of(4, 1), W::ratio_of(2, 1));
    assert(wal(four) == (4int as real) / (1int as real));
    assert(wal(two) == (2int as real) / (1int as real));
    if i == 0 {
        let big = W::over_of(W::plus_of(cos, one_of()), sin);
        let (p, q) = (ring.neighbors[lead], ring.neighbors[trail]);
        let d = ring.diagonals[lead];
        let (z, a, b) = (x(v), x(p), x(q));
        let quad = W::times_of(four, big);
        assert(wal(quad) == wal(four) * r);
        lemma_scaled(wal(four), r);
        let less = W::minus_of(cos, one_of());
        let inner = W::times_of(quad, less);
        let o = (4 as real * r) * (c - 1 as real);
        assert(wal(inner) == wal(quad) * wal(less));
        assert(wal(inner) == o);
        let own = W::times_of(inner, scale);
        assert(wal(own) == o * m);
        let dbl = W::times_of(two, cos);
        assert(wal(dbl) == wal(two) * c);
        lemma_two(wal(two), c);
        let more = W::plus_of(one_of(), dbl);
        let back = W::negated_of(big);
        let rim = W::times_of(back, more);
        let e = (-r) * (1 as real + 2 as real * c);
        assert(wal(rim) == wal(back) * wal(more));
        assert(wal(rim) == e);
        let end = W::times_of(rim, scale);
        assert(wal(end) == e * m);
        let first = W::times_of(sin, scale);
        assert(wal(first) == s * m);
        let r0 = pushed::<S, W>(no_row(), v, own);
        let r1 = pushed::<S, W>(r0, p, end);
        let r2 = pushed::<S, W>(r1, q, end);
        lemma_pushed_value::<S, W>(val, wal, x, no_row(), v, own);
        lemma_pushed_value::<S, W>(val, wal, x, r0, p, end);
        lemma_pushed_value::<S, W>(val, wal, x, r1, q, end);
        lemma_pushed_value::<S, W>(val, wal, x, r2, d, first);
        product_of_three(o, m, z);
        product_of_three(e, m, a);
        product_of_three(e, m, b);
        product_of_three(s, m, x(d));
        product_of_sum(e, a, b);
        product_of_sum(m, e * a, e * b);
        product_of_sum(m, o * z, e * (a + b));
        product_of_sum(m, o * z + e * (a + b), s * x(d));
    } else {
        lemma_side::<S, W>(val, wal, x, v, ring, lead, trail, i - 1, r);
        let row = cross_general::<S, W>(v, ring, lead, trail, i - 1);
        let sin_i = W::sin_turn_of(i as u64, (2 * k) as u64);
        let sin_next = W::sin_turn_of((i + 1) as u64, (2 * k) as u64);
        let (n, d) = (ring.neighbors[lead + i], ring.diagonals[lead + i]);
        let quad = W::times_of(four, sin_i);
        let edge = W::times_of(quad, scale);
        let both = W::plus_of(sin_i, sin_next);
        let face = W::times_of(both, scale);
        let (h, g) = (wal(sin_i), wal(sin_next));
        assert(wal(quad) == wal(four) * h);
        lemma_scaled(wal(four), h);
        assert(wal(edge) == wal(quad) * m);
        assert(wal(both) == h + g);
        assert(wal(face) == wal(both) * m);
        lemma_pushed_value::<S, W>(val, wal, x, row, n, edge);
        lemma_pushed_value::<S, W>(val, wal, x, pushed::<S, W>(row, n, edge), d, face);
        let (w, u) = (4 as real * h, h + g);
        product_of_three(w, m, x(n));
        product_of_three(u, m, x(d));
        let ends = x(ring.neighbors[lead]) + x(ring.neighbors[trail]);
        let base = ((4 as real * r) * (c - 1 as real)) * x(v) + ((-r) * (1 as real + 2 as real * c)) * ends;
        let t = base + side_sum::<W>(wal, x, ring, lead, k, i - 1);
        product_of_sum(m, t, w * x(n));
        product_of_sum(m, t + w * x(n), u * x(d));
    }
}

proof fn lemma_two(w: real, z: real)
    requires
        w == 2 as real,
    ensures
        w * z == 2 as real * z,
{
    assert(w * z == 2 as real * z) by (nonlinear_arith)
        requires
            w == 2 as real,
    ;
}

/// The tangent across a crease with `k` faces on its side, three or more: with `c` and `s`
/// the cosine and sine of the turn of a face and `r s = c + 1`, `k (3 + c)` times it is the
/// sum over the side, `4 r (c - 1)` of the vertex and `-r (1 + 2 c)` of both ends. The
/// result is `r`.
pub proof fn wide_creases_lead_across<S: Scalar, W: Wide<S>>(
    val: spec_fn(S) -> real,
    wal: spec_fn(W) -> real,
    x: spec_fn(u32) -> real,
    v: u32,
    ring: RingModel,
    lead: int,
    trail: int,
) -> (r: real)
    requires
        reads_both::<S, W>(val, wal),
        lead + 3 <= trail <= lead + u32::MAX,
        wal(W::sin_turn_of(1, (2 * (trail - lead)) as u64)) > 0 as real,
        wal(W::cos_turn_of(1, (2 * (trail - lead)) as u64)) > -(1 as real),
    ensures
        ({
            let k = trail - lead;
            let c = wal(W::cos_turn_of(1, (2 * k) as u64));
            let s = wal(W::sin_turn_of(1, (2 * k) as u64));
            let ends = x(ring.neighbors[lead]) + x(ring.neighbors[trail]);
            &&& r * s == c + 1 as real
            &&& ((k as real) * (3 as real + c)) * value(val, x, crease_model::<S, W>(v, ring, lead, trail).tangent2) == ((
            4 as real * r) * (c - 1 as real)) * x(v) + ((-r) * (1 as real + 2 as real * c)) * ends + side_sum::<W>(
                wal,
                x,
                ring,
                lead,
                k,
                k - 1,
            )
        }),
{
    lemma_one::<W>(wal);
    let k = trail - lead;
    let cos = W::cos_turn_of(1, (2 * k) as u64);
    let sin = W::sin_turn_of(1, (2 * k) as u64);
    let (c, s) = (wal(cos), wal(sin));
    let top = W::plus_of(cos, one_of());
    let big = W::over_of(top, sin);
    let r = wal(big);
    assert(wal(top) == c + 1 as real);
    assert(r == wal(top) / s);
    quotient_times(r, wal(top), s);
    lemma_side::<S, W>(val, wal, x, v, ring, lead, trail, k - 1, r);
    let count = W::ratio_of(k as u32, 1);
    let three = W::ratio_of(3, 1);
    let n = k as real;
    assert(wal(count) == n / (1int as real));
    assert(wal(three) == (3int as real) / (1int as real));
    let sum = W::plus_of(three, cos);
    assert(wal(sum) == 3 as real + c);
    let whole = W::times_of(count, sum);
    let m = n * (3 as real + c);
    assert(wal(whole) == m);
    crate::normals::lemma_sign_of_product(n, 3 as real + c);
    let scale = wal(cross_scale::<W>(k));
    assert(scale == (1 as real) / m);
    quotient_times(scale, 1 as real, m);
    let ends = x(ring.neighbors[lead]) + x(ring.neighbors[trail]);
    let t = ((4 as real * r) * (c - 1 as real)) * x(v) + ((-r) * (1 as real + 2 as real * c)) * ends + side_sum::<W>(
        wal,
        x,
        ring,
        lead,
        k,
        k - 1,
    );
    product_of_three(m, scale, t);
    product_of_three(scale, m, t);
    product_with_one(scale * m, t);
    assert(crease_model::<S, W>(v, ring, lead, trail).tangent2 == cross_general::<S, W>(v, ring, lead, trail, k - 1));
    r
}

} // verus!
