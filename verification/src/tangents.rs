//! The tangents of the limit surface do not depend on where the surface lies: the
//! weights of each sum to nought.

use crate::limit::{corner_spans, sectors_of, span_tangents, RuleModel};
use crate::masks::{
    corner_model, crease_model, crease_tangent, cross_bare, cross_general, cross_regular, cross_scale, direction,
    extraordinary_model, face_scale, no_row, pushed, regular_model, regular_weights, smooth_model, tangent_pushed,
    whole,
};
use crate::ring::{rotated_ring, RingModel};
use crate::scalar::{one_of, Scalar, Wide};
use crate::unity::{lemma_pushed, reads_both};
use crate::weights::{lemma_one, reads_exactly, total};
use vstd::prelude::*;

verus! {

/// The sum of the cosines of the first `k` of the `n` equal turns of a circle.
pub open spec fn cosines<W: Scalar>(wal: spec_fn(W) -> real, n: int, k: int) -> real
    decreases k,
{
    if k <= 0 {
        0 as real
    } else {
        cosines(wal, n, k - 1) + wal(W::cos_turn_of((k - 1) as u64, n as u64))
    }
}

/// The cosines of the equal turns of a circle sum to nought, and a full turn has
/// the cosine of none.
pub open spec fn cosines_balance<W: Scalar>(wal: spec_fn(W) -> real) -> bool {
    forall|n: int|
        3 <= n <= u32::MAX ==> #[trigger] cosines(wal, n, n) == 0 as real && wal(W::cos_turn_of(n as u64, n as u64))
            == wal(W::cos_turn_of(0, n as u64))
}

/// The sum of the sines of the first `m` of the `k` equal turns of half a circle.
pub open spec fn sines<W: Scalar>(wal: spec_fn(W) -> real, k: int, m: int) -> real
    decreases m,
{
    if m <= 0 {
        0 as real
    } else {
        sines(wal, k, m - 1) + wal(W::sin_turn_of(m as u64, (2 * k) as u64))
    }
}

/// The sines of the equal turns of half a circle sum to the cotangent of half a
/// turn, and the last of them is nought.
pub open spec fn sines_balance<W: Scalar>(wal: spec_fn(W) -> real) -> bool {
    forall|k: int|
        3 <= k <= u32::MAX ==> {
            let sin = wal(W::sin_turn_of(1, (2 * k) as u64));
            let cos = wal(W::cos_turn_of(1, (2 * k) as u64));
            &&& sin != 0 as real
            &&& wal(W::sin_turn_of(k as u64, (2 * k) as u64)) == 0 as real
            &&& #[trigger] sines(wal, k, k - 1) == (cos + 1 as real) / sin
        }
}

proof fn spread(a: real, b: real, z: real)
    ensures
        (a + b) * z == a * z + b * z,
        z * (a + b) == z * a + z * b,
{
    assert((a + b) * z == a * z + b * z) by (nonlinear_arith);
    assert(z * (a + b) == z * a + z * b) by (nonlinear_arith);
}

proof fn times_four(f: real, a: real)
    requires
        f == 4 as real,
    ensures
        f * a == (4 as real) * a,
{
}

proof fn times_two(f: real, a: real)
    requires
        f == 2 as real,
    ensures
        f * a == (2 as real) * a,
{
}

proof fn times_nought(f: real, z: real)
    requires
        f == 0 as real,
    ensures
        f * z == 0 as real,
        z * f == 0 as real,
{
    assert((0 as real) * z == 0 as real) by (nonlinear_arith);
    assert(z * (0 as real) == 0 as real) by (nonlinear_arith);
}

pub(crate) proof fn lemma_direction<S: Scalar, W: Wide<S>>(val: spec_fn(S) -> real, wal: spec_fn(W) -> real, v: u32, n: u32)
    requires
        reads_both::<S, W>(val, wal),
    ensures
        total(val, direction::<S, W>(v, n)) == 0 as real,
{
    let back = W::negated_of(one_of::<W>());
    lemma_one::<W>(wal);
    lemma_pushed::<S, W>(val, wal, no_row(), v, back);
    lemma_pushed::<S, W>(val, wal, pushed::<S, W>(no_row(), v, back), n, one_of::<W>());
    assert(wal(back) == -wal(one_of::<W>()));
}

proof fn lemma_along<S: Scalar, W: Wide<S>>(val: spec_fn(S) -> real, wal: spec_fn(W) -> real, a: u32, b: u32)
    requires
        reads_both::<S, W>(val, wal),
    ensures
        total(val, crease_tangent::<S, W>(a, b)) == 0 as real,
{
    let half = W::ratio_of(1, 2);
    let back = W::negated_of(half);
    lemma_pushed::<S, W>(val, wal, no_row(), a, half);
    lemma_pushed::<S, W>(val, wal, pushed::<S, W>(no_row(), a, half), b, back);
    assert(wal(back) == -wal(half));
}

proof fn lemma_across_regular<S: Scalar, W: Wide<S>>(
    val: spec_fn(S) -> real,
    wal: spec_fn(W) -> real,
    v: u32,
    ring: RingModel,
    lead: int,
    trail: int,
)
    requires
        reads_both::<S, W>(val, wal),
    ensures
        total(val, cross_regular::<S, W>(v, ring, lead, trail)) == 0 as real,
{
    let sixth = W::ratio_of(1, 6);
    let two = W::ratio_of(4, 6);
    let r0 = pushed::<S, W>(no_row(), v, W::negated_of(two));
    let r1 = pushed::<S, W>(r0, ring.neighbors[lead], W::negated_of(sixth));
    let r2 = pushed::<S, W>(r1, ring.neighbors[lead + 1], two);
    let r3 = pushed::<S, W>(r2, ring.neighbors[trail], W::negated_of(sixth));
    let r4 = pushed::<S, W>(r3, ring.diagonals[lead], sixth);
    lemma_pushed::<S, W>(val, wal, no_row(), v, W::negated_of(two));
    lemma_pushed::<S, W>(val, wal, r0, ring.neighbors[lead], W::negated_of(sixth));
    lemma_pushed::<S, W>(val, wal, r1, ring.neighbors[lead + 1], two);
    lemma_pushed::<S, W>(val, wal, r2, ring.neighbors[trail], W::negated_of(sixth));
    lemma_pushed::<S, W>(val, wal, r3, ring.diagonals[lead], sixth);
    lemma_pushed::<S, W>(val, wal, r4, ring.diagonals[lead + 1], sixth);
    assert(wal(W::negated_of(two)) == -wal(two));
    assert(wal(W::negated_of(sixth)) == -wal(sixth));
}

proof fn lemma_across_bare<S: Scalar, W: Wide<S>>(
    val: spec_fn(S) -> real,
    wal: spec_fn(W) -> real,
    v: u32,
    ring: RingModel,
    lead: int,
    trail: int,
)
    requires
        reads_both::<S, W>(val, wal),
    ensures
        total(val, cross_bare::<S, W>(v, ring, lead, trail)) == 0 as real,
{
    let three = W::ratio_of(3, 1);
    let six = W::negated_of(W::ratio_of(6, 1));
    let r0 = pushed::<S, W>(no_row(), v, six);
    let r1 = pushed::<S, W>(r0, ring.neighbors[lead], three);
    lemma_pushed::<S, W>(val, wal, no_row(), v, six);
    lemma_pushed::<S, W>(val, wal, r0, ring.neighbors[lead], three);
    lemma_pushed::<S, W>(val, wal, r1, ring.neighbors[trail], three);
    assert(wal(six) == -wal(W::ratio_of(6, 1)));
    assert(wal(W::ratio_of(6, 1)) == (6int as real) / (1int as real));
    assert(wal(three) == (3int as real) / (1int as real));
}

/// The weights of the vertex, of the ends and of the first face.
proof fn lemma_across_start<S: Scalar, W: Wide<S>>(
    val: spec_fn(S) -> real,
    wal: spec_fn(W) -> real,
    v: u32,
    ring: RingModel,
    lead: int,
    trail: int,
    r: real,
)
    requires
        reads_both::<S, W>(val, wal),
        wal(W::sin_turn_of(1, (2 * (trail - lead)) as u64)) != 0 as real,
        r == (wal(W::cos_turn_of(1, (2 * (trail - lead)) as u64)) + 1 as real) / wal(
            W::sin_turn_of(1, (2 * (trail - lead)) as u64),
        ),
    ensures
        total(val, cross_general::<S, W>(v, ring, lead, trail, 0)) == (wal(
            W::sin_turn_of(1, (2 * (trail - lead)) as u64),
        ) - (6 as real) * r) * wal(cross_scale::<W>(trail - lead)),
{
    let k = trail - lead;
    let cos = W::cos_turn_of(1, (2 * k) as u64);
    let sin = W::sin_turn_of(1, (2 * k) as u64);
    let scale = cross_scale::<W>(k);
    let ratio = W::over_of(W::plus_of(cos, one_of()), sin);
    let four = W::ratio_of(4, 1);
    let two = W::ratio_of(2, 1);
    let own_a = W::times_of(four, ratio);
    let own_b = W::times_of(own_a, W::minus_of(cos, one_of()));
    let own = W::times_of(own_b, scale);
    let end_a = W::plus_of(one_of(), W::times_of(two, cos));
    let end_b = W::times_of(W::negated_of(ratio), end_a);
    let end = W::times_of(end_b, scale);
    let face = W::times_of(sin, scale);
    let r0 = pushed::<S, W>(no_row(), v, own);
    let r1 = pushed::<S, W>(r0, ring.neighbors[lead], end);
    let r2 = pushed::<S, W>(r1, ring.neighbors[trail], end);
    lemma_pushed::<S, W>(val, wal, no_row(), v, own);
    lemma_pushed::<S, W>(val, wal, r0, ring.neighbors[lead], end);
    lemma_pushed::<S, W>(val, wal, r1, ring.neighbors[trail], end);
    lemma_pushed::<S, W>(val, wal, r2, ring.diagonals[lead], face);
    lemma_one::<W>(wal);
    let c = wal(cos);
    let z = wal(scale);
    let s = wal(sin);
    assert(wal(W::plus_of(cos, one_of())) == c + 1 as real);
    assert(wal(ratio) == r);
    assert(wal(four) == (4int as real) / (1int as real));
    assert(wal(two) == (2int as real) / (1int as real));
    assert(wal(own_a) == wal(four) * r);
    times_four(wal(four), r);
    assert(wal(W::minus_of(cos, one_of())) == c - 1 as real);
    assert(wal(own_b) == wal(own_a) * (c - 1 as real));
    assert(wal(own) == wal(own_b) * z);
    assert(wal(W::times_of(two, cos)) == wal(two) * c);
    times_two(wal(two), c);
    assert(wal(end_a) == 1 as real + (2 as real) * c);
    assert(wal(W::negated_of(ratio)) == -r);
    assert(wal(end_b) == (-r) * wal(end_a));
    assert(wal(end) == wal(end_b) * z);
    assert(wal(face) == s * z);
    lemma_start_factor(c, r);
    let x = wal(own_b);
    let y = wal(end_b);
    assert(x + y + y == -((6 as real) * r));
    spread(x, y, z);
    spread(x + y, y, z);
    spread(x + y + y, s, z);
    assert(x + y + y + s == s - (6 as real) * r);
}

/// What goes to the vertex and to the two ends.
proof fn lemma_start_factor(c: real, r: real)
    ensures
        ((4 as real) * r) * (c - 1 as real) + (-r) * (1 as real + (2 as real) * c) + (-r) * (1 as real + (2 as real)
            * c) == -((6 as real) * r),
{
    let p = r * c;
    assert(((4 as real) * r) * (c - 1 as real) == (4 as real) * (r * c) - (4 as real) * r) by (nonlinear_arith);
    assert((-r) * (1 as real + (2 as real) * c) == -r - (2 as real) * (r * c)) by (nonlinear_arith);
}

/// The weights up to inner edge `i`.
proof fn lemma_across_general<S: Scalar, W: Wide<S>>(
    val: spec_fn(S) -> real,
    wal: spec_fn(W) -> real,
    v: u32,
    ring: RingModel,
    lead: int,
    trail: int,
    i: int,
    r: real,
)
    requires
        reads_both::<S, W>(val, wal),
        0 <= i,
        wal(W::sin_turn_of(1, (2 * (trail - lead)) as u64)) != 0 as real,
        r == (wal(W::cos_turn_of(1, (2 * (trail - lead)) as u64)) + 1 as real) / wal(
            W::sin_turn_of(1, (2 * (trail - lead)) as u64),
        ),
    ensures
        total(val, cross_general::<S, W>(v, ring, lead, trail, i)) == ((6 as real) * sines(wal, trail - lead, i) + wal(
            W::sin_turn_of((i + 1) as u64, (2 * (trail - lead)) as u64),
        ) - (6 as real) * r) * wal(cross_scale::<W>(trail - lead)),
    decreases i,
{
    let k = trail - lead;
    let z = wal(cross_scale::<W>(k));
    if i == 0 {
        lemma_across_start::<S, W>(val, wal, v, ring, lead, trail, r);
        assert(sines(wal, k, 0) == 0 as real);
    } else {
        lemma_across_general::<S, W>(val, wal, v, ring, lead, trail, i - 1, r);
        let before = cross_general::<S, W>(v, ring, lead, trail, i - 1);
        let sin_i = W::sin_turn_of(i as u64, (2 * k) as u64);
        let sin_next = W::sin_turn_of((i + 1) as u64, (2 * k) as u64);
        let scale = cross_scale::<W>(k);
        let four = W::ratio_of(4, 1);
        let edge_a = W::times_of(four, sin_i);
        let edge = W::times_of(edge_a, scale);
        let face_a = W::plus_of(sin_i, sin_next);
        let face = W::times_of(face_a, scale);
        let r0 = pushed::<S, W>(before, ring.neighbors[lead + i], edge);
        lemma_pushed::<S, W>(val, wal, before, ring.neighbors[lead + i], edge);
        lemma_pushed::<S, W>(val, wal, r0, ring.diagonals[lead + i], face);
        let a = wal(sin_i);
        let b = wal(sin_next);
        assert(wal(four) == (4int as real) / (1int as real));
        assert(wal(edge_a) == wal(four) * a);
        times_four(wal(four), a);
        assert(wal(edge) == wal(edge_a) * z);
        assert(wal(face_a) == a + b);
        assert(wal(face) == wal(face_a) * z);
        let t = sines(wal, k, i - 1);
        assert(sines(wal, k, i) == t + a);
        let x = (6 as real) * t + a - (6 as real) * r;
        let y = (4 as real) * a;
        assert(total(val, before) == x * z);
        spread(x, y, z);
        spread(x + y, a + b, z);
        assert(x + y + (a + b) == (6 as real) * (t + a) + b - (6 as real) * r);
    }
}

proof fn lemma_crease_tangents<S: Scalar, W: Wide<S>>(
    val: spec_fn(S) -> real,
    wal: spec_fn(W) -> real,
    v: u32,
    ring: RingModel,
    lead: int,
    trail: int,
)
    requires
        reads_both::<S, W>(val, wal),
        sines_balance(wal),
        trail - lead <= u32::MAX,
    ensures
        total(val, crease_model::<S, W>(v, ring, lead, trail).tangent1) == 0 as real,
        total(val, crease_model::<S, W>(v, ring, lead, trail).tangent2) == 0 as real,
{
    let k = trail - lead;
    lemma_along::<S, W>(val, wal, ring.neighbors[lead], ring.neighbors[trail]);
    if k == 2 {
        lemma_across_regular::<S, W>(val, wal, v, ring, lead, trail);
    } else if k > 2 {
        let x = sines(wal, k, k - 1);
        let r = (wal(W::cos_turn_of(1, (2 * k) as u64)) + 1 as real) / wal(W::sin_turn_of(1, (2 * k) as u64));
        assert(x == r);
        lemma_across_general::<S, W>(val, wal, v, ring, lead, trail, k - 1, r);
        let z = wal(cross_scale::<W>(k));
        assert(wal(W::sin_turn_of(k as u64, (2 * k) as u64)) == 0 as real);
        let f = (6 as real) * x + 0 as real - (6 as real) * r;
        times_nought(f, z);
    } else {
        lemma_across_bare::<S, W>(val, wal, v, ring, lead, trail);
    }
}

proof fn lemma_whole<W: Scalar>(wal: spec_fn(W) -> real, k: int)
    requires
        reads_exactly(wal),
        -4 <= k <= 4,
    ensures
        wal(whole::<W>(k)) == k as real,
{
    lemma_one::<W>(wal);
    if k > 0 {
        assert(wal(W::ratio_of(k as u32, 1)) == (k as real) / (1int as real));
    } else if k < 0 {
        let m = W::ratio_of((-k) as u32, 1);
        assert(wal(m) == ((-k) as real) / (1int as real));
        assert(wal(W::negated_of(m)) == -wal(m));
    }
}

/// The sums of the regular weights up to edge `i`.
spec fn regular_sums(i: int) -> (int, int)
    decreases i,
{
    if i <= 0 {
        (0, 0)
    } else {
        let (a, b) = regular_sums(i - 1);
        let (e1, f1, e2, f2) = regular_weights(i - 1);
        (a + e1 + f1, b + e2 + f2)
    }
}

proof fn lemma_regular_tangents<S: Scalar, W: Wide<S>>(
    val: spec_fn(S) -> real,
    wal: spec_fn(W) -> real,
    v: u32,
    ring: RingModel,
    i: int,
)
    requires
        reads_both::<S, W>(val, wal),
        0 <= i,
    ensures
        total(val, regular_model::<S, W>(v, ring, i).tangent1) == regular_sums(i).0 as real,
        total(val, regular_model::<S, W>(v, ring, i).tangent2) == regular_sums(i).1 as real,
    decreases i,
{
    if i > 0 {
        lemma_regular_tangents::<S, W>(val, wal, v, ring, i - 1);
        let before = regular_model::<S, W>(v, ring, i - 1);
        let n = ring.neighbors[i - 1];
        let d = ring.diagonals[i - 1];
        let (e1, f1, e2, f2) = regular_weights(i - 1);
        lemma_whole::<W>(wal, e1);
        lemma_whole::<W>(wal, f1);
        lemma_whole::<W>(wal, e2);
        lemma_whole::<W>(wal, f2);
        lemma_pushed::<S, W>(val, wal, before.tangent1, n, whole::<W>(e1));
        lemma_pushed::<S, W>(val, wal, pushed::<S, W>(before.tangent1, n, whole::<W>(e1)), d, whole::<W>(f1));
        lemma_pushed::<S, W>(val, wal, before.tangent2, n, whole::<W>(e2));
        lemma_pushed::<S, W>(val, wal, pushed::<S, W>(before.tangent2, n, whole::<W>(e2)), d, whole::<W>(f2));
    }
}

/// What the weights of edge and face number `j` add to a tangent.
proof fn lemma_tangent_pushed<S: Scalar, W: Wide<S>>(
    val: spec_fn(S) -> real,
    wal: spec_fn(W) -> real,
    row: Seq<(u32, S)>,
    valence: int,
    j: int,
    n: u32,
    d: u32,
)
    requires
        reads_both::<S, W>(val, wal),
    ensures
        ({
            let a = wal(W::cos_turn_of(j as u64, valence as u64));
            let b = wal(W::cos_turn_of((j + 1) as u64, valence as u64));
            total(val, tangent_pushed::<S, W>(row, valence, j, n, d)) == total(val, row) + (4 as real) * a + wal(
                face_scale::<W>(valence),
            ) * (a + b)
        }),
{
    let cos = W::cos_turn_of(j as u64, valence as u64);
    let cos_next = W::cos_turn_of((j + 1) as u64, valence as u64);
    let four = W::ratio_of(4, 1);
    let edge = W::times_of(four, cos);
    let scale = face_scale::<W>(valence);
    let both = W::plus_of(cos, cos_next);
    let face = W::times_of(scale, both);
    lemma_pushed::<S, W>(val, wal, row, n, edge);
    lemma_pushed::<S, W>(val, wal, pushed::<S, W>(row, n, edge), d, face);
    assert(wal(four) == (4int as real) / (1int as real));
    assert(wal(edge) == wal(four) * wal(cos));
    times_four(wal(four), wal(cos));
    assert(wal(both) == wal(cos) + wal(cos_next));
    assert(wal(face) == wal(scale) * wal(both));
}

/// The weights of the first tangent of an extraordinary vertex up to edge `i`.
proof fn lemma_extraordinary_first<S: Scalar, W: Wide<S>>(
    val: spec_fn(S) -> real,
    wal: spec_fn(W) -> real,
    v: u32,
    ring: RingModel,
    i: int,
)
    requires
        reads_both::<S, W>(val, wal),
        0 <= i,
    ensures
        ({
            let n = ring.diagonals.len() as int;
            total(val, extraordinary_model::<S, W>(v, ring, i).tangent1) == (4 as real) * cosines(wal, n, i) + wal(
                face_scale::<W>(n),
            ) * (cosines(wal, n, i) + (cosines(wal, n, i + 1) - wal(W::cos_turn_of(0, n as u64))))
        }),
    decreases i,
{
    let n = ring.diagonals.len() as int;
    let z = wal(face_scale::<W>(n));
    let first = wal(W::cos_turn_of(0, n as u64));
    if i == 0 {
        assert(cosines(wal, n, 0) == 0 as real);
        assert(cosines(wal, n, 1) == cosines(wal, n, 0) + first);
        times_nought(0 as real + (cosines(wal, n, 1) - first), z);
    } else {
        lemma_extraordinary_first::<S, W>(val, wal, v, ring, i - 1);
        let before = extraordinary_model::<S, W>(v, ring, i - 1);
        lemma_tangent_pushed::<S, W>(
            val,
            wal,
            before.tangent1,
            n,
            i - 1,
            ring.neighbors[i - 1],
            ring.diagonals[i - 1],
        );
        let c = cosines(wal, n, i - 1);
        let x = wal(W::cos_turn_of((i - 1) as u64, n as u64));
        let y = wal(W::cos_turn_of(i as u64, n as u64));
        assert(cosines(wal, n, i) == c + x);
        assert(cosines(wal, n, i + 1) == c + x + y);
        spread(c + (c + x - first), x + y, z);
        assert(c + (c + x - first) + (x + y) == (c + x) + (c + x + y - first));
    }
}

/// The weights of the second tangent of an extraordinary vertex up to edge `i`.
proof fn lemma_extraordinary_second<S: Scalar, W: Wide<S>>(
    val: spec_fn(S) -> real,
    wal: spec_fn(W) -> real,
    v: u32,
    ring: RingModel,
    i: int,
)
    requires
        reads_both::<S, W>(val, wal),
        1 <= i,
    ensures
        ({
            let n = ring.diagonals.len() as int;
            let last = wal(W::cos_turn_of((n - 1) as u64, n as u64));
            let round = wal(W::cos_turn_of(n as u64, n as u64));
            let c = cosines(wal, n, i - 1) + last;
            total(val, extraordinary_model::<S, W>(v, ring, i).tangent2) == (4 as real) * c + wal(face_scale::<W>(n)) * (c
                + (cosines(wal, n, i) - wal(W::cos_turn_of(0, n as u64)) + round))
        }),
    decreases i,
{
    let n = ring.diagonals.len() as int;
    let z = wal(face_scale::<W>(n));
    let first = wal(W::cos_turn_of(0, n as u64));
    let last = wal(W::cos_turn_of((n - 1) as u64, n as u64));
    let round = wal(W::cos_turn_of(n as u64, n as u64));
    let before = extraordinary_model::<S, W>(v, ring, i - 1);
    let a = ring.neighbors[i - 1];
    let d = ring.diagonals[i - 1];
    if i == 1 {
        assert(before.tangent2 == no_row::<S>());
        assert(total(val, no_row::<S>()) == 0 as real);
        lemma_tangent_pushed::<S, W>(val, wal, before.tangent2, n, n - 1, a, d);
        assert(cosines(wal, n, 0) == 0 as real);
        assert(cosines(wal, n, 1) == cosines(wal, n, 0) + first);
        assert(last + round == 0 as real + last + (cosines(wal, n, 1) - first + round));
    } else {
        lemma_extraordinary_second::<S, W>(val, wal, v, ring, i - 1);
        lemma_tangent_pushed::<S, W>(val, wal, before.tangent2, n, i - 2, a, d);
        let e = cosines(wal, n, i - 2);
        let u = wal(W::cos_turn_of((i - 2) as u64, n as u64));
        let x = wal(W::cos_turn_of((i - 1) as u64, n as u64));
        assert(cosines(wal, n, i - 1) == e + u);
        assert(cosines(wal, n, i) == e + u + x);
        let c = e + last;
        let f = c + (e + u - first + round);
        spread(f, u + x, z);
        assert(f + (u + x) == (e + u + last) + (e + u + x - first + round));
    }
}

proof fn lemma_smooth_tangents<S: Scalar, W: Wide<S>>(
    val: spec_fn(S) -> real,
    wal: spec_fn(W) -> real,
    v: u32,
    ring: RingModel,
)
    requires
        reads_both::<S, W>(val, wal),
        cosines_balance(wal),
        2 <= ring.diagonals.len() <= u32::MAX,
    ensures
        total(val, smooth_model::<S, W>(v, ring).tangent1) == 0 as real,
        total(val, smooth_model::<S, W>(v, ring).tangent2) == 0 as real,
{
    let n = ring.diagonals.len() as int;
    if n == 2 {
        lemma_direction::<S, W>(val, wal, v, ring.neighbors[0]);
        lemma_direction::<S, W>(val, wal, v, ring.neighbors[1]);
    } else if n == 4 {
        lemma_regular_tangents::<S, W>(val, wal, v, ring, 4);
        lemma_regular_sums();
    } else {
        lemma_extraordinary_first::<S, W>(val, wal, v, ring, n);
        lemma_extraordinary_second::<S, W>(val, wal, v, ring, n);
        let z = wal(face_scale::<W>(n));
        let first = wal(W::cos_turn_of(0, n as u64));
        let last = wal(W::cos_turn_of((n - 1) as u64, n as u64));
        let round = wal(W::cos_turn_of(n as u64, n as u64));
        assert(cosines(wal, n, n) == 0 as real);
        assert(round == first);
        assert(cosines(wal, n, n + 1) == cosines(wal, n, n) + round);
        assert(cosines(wal, n, n) == cosines(wal, n, n - 1) + last);
        times_nought(cosines(wal, n, n) + (cosines(wal, n, n + 1) - first), z);
        let c = cosines(wal, n, n - 1) + last;
        times_nought(c + (cosines(wal, n, n) - first + round), z);
    }
}

proof fn lemma_regular_sums()
    ensures
        regular_sums(4) == (0int, 0int),
{
    reveal_with_fuel(regular_sums, 5);
}

/// The weights of each tangent of the limit surface sum to nought.
pub proof fn tangent_weights_sum_to_nought<S: Scalar, W: Wide<S>>(
    val: spec_fn(S) -> real,
    wal: spec_fn(W) -> real,
    v: u32,
    ring: RingModel,
    rule: RuleModel,
    k: int,
)
    requires
        reads_both::<S, W>(val, wal),
        cosines_balance(wal),
        sines_balance(wal),
        match rule {
            RuleModel::Smooth => 2 <= ring.diagonals.len() <= u32::MAX,
            RuleModel::Crease(lead, trail) => trail - lead <= u32::MAX && ring.faces.len() - (trail - lead) <= u32::MAX,
            RuleModel::Corner(slots) => forall|i: int|
                0 <= i < corner_spans(slots, ring.edges.len() as int, ring.boundary).len() ==> {
                    let s = #[trigger] corner_spans(slots, ring.edges.len() as int, ring.boundary)[i];
                    s.1 - s.0 <= u32::MAX
                },
        },
        0 <= k < sectors_of::<S, W>(v, ring, rule).tangents.len(),
    ensures
        total(val, sectors_of::<S, W>(v, ring, rule).tangents[k].0) == 0 as real,
        total(val, sectors_of::<S, W>(v, ring, rule).tangents[k].1) == 0 as real,
{
    match rule {
        RuleModel::Smooth => {
            lemma_smooth_tangents::<S, W>(val, wal, v, ring);
        },
        RuleModel::Crease(lead, trail) => {
            lemma_crease_tangents::<S, W>(val, wal, v, ring, lead, trail);
            let fan = ring.faces.len() as int;
            lemma_crease_tangents::<S, W>(val, wal, v, rotated_ring(ring, trail), 0, fan - (trail - lead));
        },
        RuleModel::Corner(slots) => {
            if slots.len() < 2 {
                lemma_direction::<S, W>(val, wal, v, ring.neighbors[0]);
                lemma_direction::<S, W>(val, wal, v, ring.neighbors[1]);
                assert(sectors_of::<S, W>(v, ring, rule).tangents[k] == (
                    corner_model::<S, W>(v, ring).tangent1,
                    corner_model::<S, W>(v, ring).tangent2,
                ));
            } else {
                let s = corner_spans(slots, ring.edges.len() as int, ring.boundary)[k];
                lemma_crease_tangents::<S, W>(val, wal, v, ring, s.0, s.1);
                lemma_crease_tangents::<S, W>(val, wal, v, rotated_ring(ring, s.0), 0, s.1 - s.0);
                assert(sectors_of::<S, W>(v, ring, rule).tangents[k] == span_tangents::<S, W>(v, ring, s.0, s.1));
            }
        },
    }
}

} // verus!
