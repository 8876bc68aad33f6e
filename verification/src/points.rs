//! Where refined points lie, in plain numbers.

use crate::hashing::EdgeKey;
use crate::means::{lemma_value_of_merged, orders_exactly};
use crate::rules::{blended_edge_row, cornered_row, creases_at, corner_at, face_row, faces_merged, midpoint_row};
use crate::scalar::{one_of, zero_of, Scalar};
use crate::sharpness::{
    auto_corner_of, blend_of, chosen, clamped, counted, crease_row, decremented, fading, fading_with_corner,
    flagged_neighbors, parent_share, positive, rule_row, sharp_list, sharp_neighbors, sharp_row, sum_of, vertex_rule,
};
use crate::stencil::{identity_row, merged, mixed};
use crate::unity::{compares_exactly, value};
use crate::weights::{lemma_one, reads_exactly};
use vstd::prelude::*;

verus! {

/// Arithmetic, comparisons and maxima do what they do with real numbers.
pub open spec fn computes_exactly<S: Scalar>(val: spec_fn(S) -> real) -> bool {
    &&& reads_exactly(val)
    &&& compares_exactly(val)
    &&& orders_exactly(val)
    &&& forall|a: S, b: S| #[trigger]
        val(S::larger_of(a, b)) == (if val(a) >= val(b) {
            val(a)
        } else {
            val(b)
        })
}

// ---------------------------------------------------------------------------
// Products
// ---------------------------------------------------------------------------
pub(crate) proof fn product_of_sum(a: real, b: real, c: real)
    ensures
        a * (b + c) == a * b + a * c,
        (b + c) * a == b * a + c * a,
{
    assert(a * (b + c) == a * b + a * c) by (nonlinear_arith);
    assert((b + c) * a == b * a + c * a) by (nonlinear_arith);
}

pub(crate) proof fn product_of_difference(a: real, b: real, c: real)
    ensures
        a * (b - c) == a * b - a * c,
        (b - c) * a == b * a - c * a,
{
    assert(a * (b - c) == a * b - a * c) by (nonlinear_arith);
    assert((b - c) * a == b * a - c * a) by (nonlinear_arith);
}

/// Three factors in any order.
pub(crate) proof fn product_of_three(a: real, b: real, c: real)
    ensures
        (a * b) * c == a * (b * c),
        (a * b) * c == (b * a) * c,
        (a * b) * c == (a * c) * b,
        (a * b) * c == (c * b) * a,
        (a * b) * c == b * (a * c),
        a * b == b * a,
{
    assert((a * b) * c == a * (b * c)) by (nonlinear_arith);
    assert((a * b) * c == (b * a) * c) by (nonlinear_arith);
    assert((a * b) * c == (a * c) * b) by (nonlinear_arith);
    assert((a * b) * c == (c * b) * a) by (nonlinear_arith);
    assert((a * b) * c == b * (a * c)) by (nonlinear_arith);
    assert(a * b == b * a) by (nonlinear_arith);
}

pub(crate) proof fn product_with_one(k: real, z: real)
    requires
        k == 1 as real,
    ensures
        k * z == z,
        z * k == z,
{
    assert(k * z == z) by (nonlinear_arith)
        requires
            k == 1 as real,
    ;
    assert(z * k == z) by (nonlinear_arith)
        requires
            k == 1 as real,
    ;
}

pub(crate) proof fn quotient_times(q: real, a: real, r: real)
    requires
        r > 0 as real,
        q == a / r,
    ensures
        q * r == a,
{
    assert(q * r == a) by (nonlinear_arith)
        requires
            q == a / r,
            r > 0 as real,
    ;
}

// ---------------------------------------------------------------------------
// Lists of vertices
// ---------------------------------------------------------------------------
/// The sum over a list of vertices.
pub open spec fn sum_at(x: spec_fn(u32) -> real, list: Seq<u32>) -> real
    decreases list.len(),
{
    if list.len() == 0 {
        0 as real
    } else {
        sum_at(x, list.drop_last()) + x(list.last())
    }
}

/// The mean over a list of vertices.
pub open spec fn mean_at(x: spec_fn(u32) -> real, list: Seq<u32>) -> real {
    sum_at(x, list) / (list.len() as int as real)
}

/// The sum of the centroids of a list of faces.
pub open spec fn centroids_at(x: spec_fn(u32) -> real, faces: Seq<Seq<u32>>, list: Seq<u32>) -> real
    decreases list.len(),
{
    if list.len() == 0 {
        0 as real
    } else {
        centroids_at(x, faces, list.drop_last()) + mean_at(x, faces[list.last() as int])
    }
}

/// The vertex that an edge leads to from `v`.
pub open spec fn across(edge: EdgeKey, v: u32) -> u32 {
    if edge.0 == v {
        edge.1
    } else {
        edge.0
    }
}

/// The vertices that edges lead to from `v`.
pub open spec fn reached(list: Seq<u32>, edges: Seq<EdgeKey>, v: u32) -> Seq<u32> {
    list.map_values(|e: u32| across(edges[e as int], v))
}

/// The entries of a list that a flag is set for, in order.
pub open spec fn picked(list: Seq<u32>, flags: Seq<bool>) -> Seq<u32>
    decreases list.len(),
{
    if list.len() == 0 {
        Seq::empty()
    } else if flags[list.last() as int] {
        picked(list.drop_last(), flags).push(list.last())
    } else {
        picked(list.drop_last(), flags)
    }
}

pub(crate) proof fn lemma_picked(list: Seq<u32>, flags: Seq<bool>)
    ensures
        chosen(list, flags) == picked(list, flags),
    decreases list.len(),
{
    if list.len() > 0 {
        lemma_picked(list.drop_last(), flags);
    } else {
        assert(chosen(list, flags) =~= picked(list, flags));
    }
}

pub(crate) proof fn lemma_flagged(list: Seq<u32>, edges: Seq<EdgeKey>, flags: Seq<bool>, v: u32)
    ensures
        flagged_neighbors(list, edges, flags, v) == reached(picked(list, flags), edges, v),
{
    lemma_picked(list, flags);
    assert(flagged_neighbors(list, edges, flags, v) =~= reached(picked(list, flags), edges, v));
}

// ---------------------------------------------------------------------------
// Values of short rows
// ---------------------------------------------------------------------------
pub(crate) proof fn lemma_one_entry<S>(val: spec_fn(S) -> real, x: spec_fn(u32) -> real, a: (u32, S))
    ensures
        value(val, x, seq![a]) == val(a.1) * x(a.0),
{
    assert(seq![a].drop_last() =~= Seq::<(u32, S)>::empty());
    assert(value(val, x, seq![a].drop_last()) == 0 as real);
}

pub(crate) proof fn lemma_two_entries<S>(val: spec_fn(S) -> real, x: spec_fn(u32) -> real, a: (u32, S), b: (u32, S))
    ensures
        value(val, x, seq![a, b]) == val(a.1) * x(a.0) + val(b.1) * x(b.0),
{
    lemma_one_entry(val, x, a);
    assert(seq![a, b].drop_last() =~= seq![a]);
}

pub(crate) proof fn lemma_three_entries<S>(
    val: spec_fn(S) -> real,
    x: spec_fn(u32) -> real,
    a: (u32, S),
    b: (u32, S),
    c: (u32, S),
)
    ensures
        value(val, x, seq![a, b, c]) == val(a.1) * x(a.0) + val(b.1) * x(b.0) + val(c.1) * x(c.0),
{
    lemma_two_entries(val, x, a, b);
    assert(seq![a, b, c].drop_last() =~= seq![a, b]);
}

pub(crate) proof fn lemma_identity_value<S: Scalar>(val: spec_fn(S) -> real, x: spec_fn(u32) -> real, v: u32)
    requires
        reads_exactly(val),
    ensures
        value(val, x, identity_row::<S>(v)) == x(v),
{
    lemma_one::<S>(val);
    lemma_one_entry(val, x, (v, one_of::<S>()));
    let z = x(v);
    assert((1 as real) * z == z) by (nonlinear_arith);
    assert(identity_row::<S>(v) =~= seq![(v, one_of::<S>())]);
}

/// One value for all entries of a row.
proof fn lemma_even_value<S>(
    val: spec_fn(S) -> real,
    x: spec_fn(u32) -> real,
    row: Seq<(u32, S)>,
    list: Seq<u32>,
    w: S,
)
    requires
        row.len() == list.len(),
        forall|k: int| 0 <= k < row.len() ==> #[trigger] row[k] == (list[k], w),
    ensures
        value(val, x, row) == val(w) * sum_at(x, list),
    decreases row.len(),
{
    let r = val(w);
    if row.len() == 0 {
        assert(r * (0 as real) == 0 as real) by (nonlinear_arith);
    } else {
        let front = row.drop_last();
        let rest = list.drop_last();
        assert forall|k: int| 0 <= k < front.len() implies #[trigger] front[k] == (rest[k], w) by {
            assert(front[k] == row[k]);
        }
        lemma_even_value(val, x, front, rest, w);
        assert(row[row.len() - 1] == (list[list.len() - 1], w));
        let a = sum_at(x, rest);
        let z = x(list.last());
        assert(r * (a + z) == r * a + r * z) by (nonlinear_arith);
    }
}

pub(crate) proof fn lemma_face_value<S: Scalar>(val: spec_fn(S) -> real, x: spec_fn(u32) -> real, face: Seq<u32>)
    requires
        reads_exactly(val),
        0 < face.len() <= u32::MAX,
    ensures
        value(val, x, face_row::<S>(face)) == mean_at(x, face),
{
    let w = S::ratio_of(1, face.len() as u32);
    lemma_even_value(val, x, face_row::<S>(face), face, w);
    let n = face.len() as int as real;
    let s = sum_at(x, face);
    let r = val(w);
    assert(r == (1int as real) / n);
    assert(r * s == s / n) by (nonlinear_arith)
        requires
            r == (1 as real) / n,
            n > 0 as real,
    ;
}

pub(crate) proof fn lemma_midpoint_value<S: Scalar>(val: spec_fn(S) -> real, x: spec_fn(u32) -> real, edge: EdgeKey)
    requires
        reads_exactly(val),
    ensures
        value(val, x, midpoint_row::<S>(edge)) == (x(edge.0) + x(edge.1)) / (2 as real),
{
    let w = S::ratio_of(1, 2);
    lemma_two_entries(val, x, (edge.0, w), (edge.1, w));
    let r = val(w);
    let a = x(edge.0);
    let b = x(edge.1);
    assert(r == (1int as real) / (2int as real));
    assert(r * a + r * b == (a + b) / (2 as real)) by (nonlinear_arith)
        requires
            r == (1 as real) / (2 as real),
    ;
}

pub(crate) proof fn lemma_mixed_value<S: Scalar>(
    val: spec_fn(S) -> real,
    x: spec_fn(u32) -> real,
    a: Seq<(u32, S)>,
    b: Seq<(u32, S)>,
    share: S,
)
    requires
        reads_exactly(val),
    ensures
        value(val, x, mixed(a, b, share)) == (1 as real - val(share)) * value(val, x, a) + val(share) * value(val, x, b),
{
    lemma_one::<S>(val);
    let rest = S::minus_of(one_of(), share);
    lemma_value_of_merged(val, x, Seq::empty(), a, rest);
    lemma_value_of_merged(val, x, merged(Seq::empty(), a, rest), b, share);
    assert(val(rest) == 1 as real - val(share));
}

proof fn lemma_mix_ends(a: real, b: real)
    ensures
        (1 as real - 0 as real) * a + (0 as real) * b == a,
        (1 as real - 1 as real) * a + (1 as real) * b == b,
{
    assert((1 as real - 0 as real) * a + (0 as real) * b == a) by (nonlinear_arith);
    assert((1 as real - 1 as real) * a + (1 as real) * b == b) by (nonlinear_arith);
}

proof fn lemma_mix_same(p: real, a: real)
    ensures
        (1 as real - p) * a + p * a == a,
{
    assert((1 as real - p) * a + p * a == a) by (nonlinear_arith);
}

pub(crate) proof fn lemma_faces_value<S: Scalar>(
    val: spec_fn(S) -> real,
    x: spec_fn(u32) -> real,
    base: Seq<(u32, S)>,
    list: Seq<u32>,
    faces: Seq<Seq<u32>>,
    w: S,
)
    requires
        reads_exactly(val),
        forall|k: int| 0 <= k < list.len() ==> 0 < faces[#[trigger] list[k] as int].len() <= u32::MAX,
    ensures
        value(val, x, faces_merged(base, list, faces, w)) == value(val, x, base) + val(w) * centroids_at(x, faces, list),
    decreases list.len(),
{
    let r = val(w);
    if list.len() == 0 {
        assert(r * (0 as real) == 0 as real) by (nonlinear_arith);
    } else {
        let front = list.drop_last();
        assert forall|k: int| 0 <= k < front.len() implies 0 < faces[#[trigger] front[k] as int].len()
            <= u32::MAX by {
            assert(front[k] == list[k]);
        }
        lemma_faces_value(val, x, base, front, faces, w);
        let face = faces[list.last() as int];
        assert(0 < faces[list[list.len() - 1] as int].len() <= u32::MAX);
        lemma_face_value::<S>(val, x, face);
        lemma_value_of_merged(val, x, faces_merged(base, front, faces, w), face_row::<S>(face), w);
        let a = centroids_at(x, faces, front);
        let m = mean_at(x, face);
        assert(r * (a + m) == r * a + r * m) by (nonlinear_arith);
    }
}

// ---------------------------------------------------------------------------
// Sharpness
// ---------------------------------------------------------------------------
/// `t`, held between nought and one.
pub open spec fn unit_held(t: real) -> real {
    if t < 0 as real {
        0 as real
    } else if t > 1 as real {
        1 as real
    } else {
        t
    }
}

/// Where the edges of a list whose crease is above `over` lead from `v`, in order.
pub open spec fn sharp_ends<S>(
    val: spec_fn(S) -> real,
    list: Seq<u32>,
    edges: Seq<EdgeKey>,
    creases: Seq<S>,
    v: u32,
    over: real,
) -> Seq<u32>
    decreases list.len(),
{
    if list.len() == 0 {
        Seq::empty()
    } else {
        let front = sharp_ends(val, list.drop_last(), edges, creases, v, over);
        let e = list.last() as int;
        if val(creases[e]) > over {
            front.push(across(edges[e], v))
        } else {
            front
        }
    }
}

/// The creases of a list that are sharp now and smooth at the next level: how many, and
/// their sum.
pub open spec fn fading_at<S>(val: spec_fn(S) -> real, list: Seq<u32>, creases: Seq<S>) -> (int, real)
    decreases list.len(),
{
    if list.len() == 0 {
        (0, 0 as real)
    } else {
        let (n, s) = fading_at(val, list.drop_last(), creases);
        let c = val(creases[list.last() as int]);
        if (0 as real) < c && c <= 1 as real {
            (n + 1, s + c)
        } else {
            (n, s)
        }
    }
}

/// A corner, or a vertex with three or more sharp edges, stays; a vertex with two goes
/// three quarters of the way of a cubic spline along them; any other one is smooth.
pub open spec fn ruled_point(x: spec_fn(u32) -> real, v: u32, smooth: real, corner: bool, ends: Seq<u32>) -> real {
    if corner || ends.len() >= 3 {
        x(v)
    } else if ends.len() == 2 {
        (6 as real * x(v) + x(ends[0]) + x(ends[1])) / (8 as real)
    } else {
        smooth
    }
}

/// A vertex by the rule of its sharpness now and by that of the next level. What fades
/// between the two gives the share of the rule of now: the mean of the fading creases.
pub open spec fn sharp_point<S>(
    val: spec_fn(S) -> real,
    x: spec_fn(u32) -> real,
    v: u32,
    smooth: real,
    corner: real,
    list: Seq<u32>,
    edges: Seq<EdgeKey>,
    creases: Seq<S>,
) -> real {
    let now = ruled_point(x, v, smooth, corner > 0 as real, sharp_ends(val, list, edges, creases, v, 0 as real));
    let next = ruled_point(x, v, smooth, corner > 1 as real, sharp_ends(val, list, edges, creases, v, 1 as real));
    let (n, s) = fading_at(val, list, creases);
    let (count, sum) = if (0 as real) < corner && corner <= 1 as real {
        (n + 1, s + corner)
    } else {
        (n, s)
    };
    let share = if count == 0 {
        0 as real
    } else {
        unit_held(sum / (count as real))
    };
    (1 as real - share) * next + share * now
}

proof fn lemma_signs<S: Scalar>(val: spec_fn(S) -> real, c: S)
    requires
        computes_exactly(val),
    ensures
        positive(c) <==> val(c) > 0 as real,
        positive(decremented(c)) <==> val(c) > 1 as real,
        S::at_most_of(decremented(c), zero_of()) <==> val(c) <= 1 as real,
        val(blend_of(c)) == unit_held(val(c)),
        val(clamped(c)) == unit_held(val(c)),
{
    lemma_one::<S>(val);
    assert(val(S::ratio_of(10, 1)) == (10int as real) / (1int as real));
    let less = S::minus_of(c, one_of());
    assert(val(less) == val(c) - 1 as real);
}

proof fn lemma_sharp_lists<S: Scalar>(
    val: spec_fn(S) -> real,
    list: Seq<u32>,
    edges: Seq<EdgeKey>,
    creases: Seq<S>,
    v: u32,
)
    requires
        computes_exactly(val),
    ensures
        ({
            let n = sharp_neighbors(list, edges, creases, v);
            &&& sharp_list(n, false) == sharp_ends(val, list, edges, creases, v, 0 as real)
            &&& sharp_list(n, true) == sharp_ends(val, list, edges, creases, v, 1 as real)
            &&& fading(n).len() == fading_at(val, list, creases).0
            &&& val(sum_of(fading(n))) == fading_at(val, list, creases).1
            &&& fading(n).len() <= list.len()
        }),
    decreases list.len(),
{
    let n = sharp_neighbors(list, edges, creases, v);
    lemma_one::<S>(val);
    if list.len() == 0 {
        assert(sharp_list(n, false) =~= sharp_ends(val, list, edges, creases, v, 0 as real));
        assert(sharp_list(n, true) =~= sharp_ends(val, list, edges, creases, v, 1 as real));
    } else {
        let front = list.drop_last();
        lemma_sharp_lists(val, front, edges, creases, v);
        let e = list.last() as int;
        let c = creases[e];
        lemma_signs(val, c);
        let before = sharp_neighbors(front, edges, creases, v);
        if positive(c) {
            let entry = (across(edges[e], v), c);
            assert(n == before.push(entry));
            assert(n.drop_last() =~= before);
            if S::at_most_of(decremented(c), zero_of()) {
                assert(fading(n) == fading(before).push(c));
                assert(fading(n).drop_last() =~= fading(before));
            }
        }
    }
}

proof fn lemma_sum_first<S: Scalar>(val: spec_fn(S) -> real, c: S, items: Seq<S>)
    requires
        reads_exactly(val),
    ensures
        val(sum_of(seq![c] + items)) == val(c) + val(sum_of(items)),
    decreases items.len(),
{
    lemma_one::<S>(val);
    if items.len() == 0 {
        assert(seq![c] + items =~= seq![c]);
        assert(seq![c].drop_last() =~= Seq::<S>::empty());
        assert(sum_of(Seq::<S>::empty()) == zero_of::<S>());
    } else {
        lemma_sum_first(val, c, items.drop_last());
        assert((seq![c] + items).drop_last() =~= seq![c] + items.drop_last());
    }
}

/// Fewer edges are sharp at the next level; where none is lost they are the same.
proof fn lemma_ends_shrink<S>(
    val: spec_fn(S) -> real,
    list: Seq<u32>,
    edges: Seq<EdgeKey>,
    creases: Seq<S>,
    v: u32,
)
    ensures
        ({
            let a = sharp_ends(val, list, edges, creases, v, 0 as real);
            let b = sharp_ends(val, list, edges, creases, v, 1 as real);
            b.len() <= a.len() && (b.len() == a.len() ==> a == b)
        }),
    decreases list.len(),
{
    if list.len() > 0 {
        lemma_ends_shrink(val, list.drop_last(), edges, creases, v);
    }
}

proof fn lemma_ruled_value<S: Scalar>(
    val: spec_fn(S) -> real,
    x: spec_fn(u32) -> real,
    corner: bool,
    v: u32,
    smooth: Seq<(u32, S)>,
    ends: Seq<u32>,
)
    requires
        reads_exactly(val),
    ensures
        value(val, x, rule_row(vertex_rule(corner, ends.len()), v, smooth, identity_row::<S>(v), ends)) == ruled_point(
            x,
            v,
            value(val, x, smooth),
            corner,
            ends,
        ),
{
    lemma_identity_value::<S>(val, x, v);
    if !corner && ends.len() == 2 {
        let six = S::ratio_of(6, 8);
        let e = S::ratio_of(1, 8);
        assert(crease_row::<S>(v, ends.first(), ends.last()) =~= seq![(v, six), (ends[0], e), (ends[1], e)]);
        lemma_three_entries(val, x, (v, six), (ends[0], e), (ends[1], e));
        let p = val(six);
        let q = val(e);
        let a = x(v);
        let b = x(ends[0]);
        let c = x(ends[1]);
        assert(p == (6int as real) / (8int as real));
        assert(q == (1int as real) / (8int as real));
        assert(p * a + q * b + q * c == (6 as real * a + b + c) / (8 as real)) by (nonlinear_arith)
            requires
                p == (6 as real) / (8 as real),
                q == (1 as real) / (8 as real),
        ;
    }
}

/// The row of a vertex with sharp edges gives the point of its sharpness.
pub(crate) proof fn lemma_sharp_value<S: Scalar>(
    val: spec_fn(S) -> real,
    x: spec_fn(u32) -> real,
    v: u32,
    smooth: Seq<(u32, S)>,
    corner: S,
    list: Seq<u32>,
    edges: Seq<EdgeKey>,
    creases: Seq<S>,
)
    requires
        computes_exactly(val),
        list.len() < u32::MAX,
    ensures
        value(
            val,
            x,
            sharp_row(v, smooth, identity_row::<S>(v), corner, sharp_neighbors(list, edges, creases, v)),
        ) == sharp_point(val, x, v, value(val, x, smooth), val(corner), list, edges, creases),
{
    let n = sharp_neighbors(list, edges, creases, v);
    let original = identity_row::<S>(v);
    lemma_sharp_lists(val, list, edges, creases, v);
    lemma_ends_shrink(val, list, edges, creases, v);
    lemma_signs(val, corner);
    let now = sharp_list(n, false);
    let next = sharp_list(n, true);
    let sv = value(val, x, smooth);
    let parent_rule = vertex_rule(positive(corner), now.len());
    let child_rule = vertex_rule(positive(decremented(corner)), next.len());
    lemma_ruled_value(val, x, positive(corner), v, smooth, now);
    lemma_ruled_value(val, x, positive(decremented(corner)), v, smooth, next);
    let a = rule_row(child_rule, v, smooth, original, next);
    let b = rule_row(parent_rule, v, smooth, original, now);
    let share = parent_share(corner, n);
    lemma_mixed_value(val, x, a, b, share);
    let f = fading_with_corner(corner, n);
    lemma_sum_first(val, corner, fading(n));
    lemma_one::<S>(val);
    let (k, s) = fading_at(val, list, creases);
    let (count, sum) = if (0 as real) < val(corner) && val(corner) <= 1 as real {
        (k + 1, s + val(corner))
    } else {
        (k, s)
    };
    assert(f.len() == count && val(sum_of(f)) == sum);
    if count > 0 {
        let m = S::ratio_of(f.len() as u32, 1);
        assert(val(m) == (count as real) / (1int as real));
        lemma_signs(val, S::over_of(sum_of(f), m));
    }
    let p = val(share);
    let va = value(val, x, a);
    let vb = value(val, x, b);
    if child_rule == parent_rule {
        assert(va == vb);
        lemma_mix_same(p, va);
    }
}

/// A smooth point drawn towards a corner by its sharpness.
pub open spec fn cornered_point(x: spec_fn(u32) -> real, smooth: real, v: u32, corner: real) -> real {
    let share = unit_held(corner);
    (1 as real - share) * smooth + share * x(v)
}

pub(crate) proof fn lemma_cornered_value<S: Scalar>(
    val: spec_fn(S) -> real,
    x: spec_fn(u32) -> real,
    smooth: Seq<(u32, S)>,
    v: u32,
    corner: S,
)
    requires
        computes_exactly(val),
    ensures
        value(val, x, cornered_row(smooth, v, corner)) == cornered_point(x, value(val, x, smooth), v, val(corner)),
        value(val, x, mixed(smooth, identity_row::<S>(v), clamped(corner))) == cornered_point(
            x,
            value(val, x, smooth),
            v,
            val(corner),
        ),
{
    lemma_signs(val, corner);
    lemma_identity_value::<S>(val, x, v);
    lemma_mixed_value(val, x, smooth, identity_row::<S>(v), blend_of(corner));
    lemma_mixed_value(val, x, smooth, identity_row::<S>(v), clamped(corner));
    lemma_mix_ends(value(val, x, smooth), x(v));
}

/// The point of an edge, drawn from its smooth point towards its middle by its crease.
pub open spec fn creased_point(x: spec_fn(u32) -> real, smooth: real, edge: EdgeKey, crease: real) -> real {
    let share = unit_held(crease);
    (1 as real - share) * smooth + share * ((x(edge.0) + x(edge.1)) / (2 as real))
}

pub(crate) proof fn lemma_creased_value<S: Scalar>(
    val: spec_fn(S) -> real,
    x: spec_fn(u32) -> real,
    smooth: Seq<(u32, S)>,
    edge: EdgeKey,
    crease: S,
)
    requires
        computes_exactly(val),
    ensures
        value(val, x, blended_edge_row(smooth, midpoint_row::<S>(edge), blend_of(crease))) == creased_point(
            x,
            value(val, x, smooth),
            edge,
            val(crease),
        ),
        value(val, x, blended_edge_row(smooth, midpoint_row::<S>(edge), clamped(crease))) == creased_point(
            x,
            value(val, x, smooth),
            edge,
            val(crease),
        ),
{
    lemma_signs(val, crease);
    lemma_one::<S>(val);
    lemma_midpoint_value::<S>(val, x, edge);
    lemma_mixed_value(val, x, smooth, midpoint_row::<S>(edge), blend_of(crease));
    lemma_mixed_value(val, x, smooth, midpoint_row::<S>(edge), clamped(crease));
    lemma_mix_ends(value(val, x, smooth), (x(edge.0) + x(edge.1)) / (2 as real));
}

/// The creases of a list that count towards a corner: how many, and their sum.
pub open spec fn counted_at<S: Scalar>(val: spec_fn(S) -> real, list: Seq<u32>, creases: Seq<S>) -> (int, real)
    decreases list.len(),
{
    if list.len() == 0 {
        (0, 0 as real)
    } else {
        let (n, s) = counted_at(val, list.drop_last(), creases);
        let c = creases[list.last() as int];
        if S::finite_of(c) && val(c) > (1 as real) / (100 as real) {
            (n + 1, s + val(c))
        } else {
            (n, s)
        }
    }
}

/// The sharpness of a vertex: its own, or the mean of its creases if three or more
/// count and corners come from creases.
pub open spec fn corner_sharpness<S: Scalar>(
    val: spec_fn(S) -> real,
    own: real,
    auto: bool,
    list: Seq<u32>,
    creases: Seq<S>,
) -> real {
    let (n, s) = counted_at(val, list, creases);
    let made = if auto && n >= 3 {
        s / (n as real)
    } else {
        0 as real
    };
    if own >= made {
        own
    } else {
        made
    }
}

pub(crate) proof fn lemma_counted<S: Scalar>(val: spec_fn(S) -> real, list: Seq<u32>, creases: Seq<S>)
    requires
        computes_exactly(val),
    ensures
        ({
            let c = counted(creases_at(list, creases));
            &&& c.len() == counted_at(val, list, creases).0
            &&& val(sum_of(c)) == counted_at(val, list, creases).1
            &&& c.len() <= list.len()
        }),
    decreases list.len(),
{
    lemma_one::<S>(val);
    let all = creases_at(list, creases);
    if list.len() > 0 {
        lemma_counted(val, list.drop_last(), creases);
        assert(all.drop_last() =~= creases_at(list.drop_last(), creases));
        let c = creases[list.last() as int];
        assert(all.last() == c);
        assert(val(S::ratio_of(1, 100)) == (1int as real) / (100int as real));
        let front = counted(all.drop_last());
        if S::finite_of(c) && S::less_of(S::ratio_of(1, 100), c) {
            assert(counted(all) == front.push(c));
            assert(front.push(c).drop_last() =~= front);
        }
    }
}

pub(crate) proof fn lemma_corner_sharpness<S: Scalar>(
    val: spec_fn(S) -> real,
    explicit: S,
    auto: bool,
    list: Seq<u32>,
    creases: Seq<S>,
)
    requires
        computes_exactly(val),
        list.len() <= u32::MAX,
    ensures
        val(corner_at(explicit, auto, list, creases)) == corner_sharpness(val, val(explicit), auto, list, creases),
        val(auto_corner_of(creases_at(list, creases))) == corner_sharpness(val, 0 as real, true, list, creases)
            || counted_at(val, list, creases).1 < 0 as real,
{
    lemma_counted(val, list, creases);
    lemma_one::<S>(val);
    let c = counted(creases_at(list, creases));
    if c.len() >= 3 {
        let m = S::ratio_of(c.len() as u32, 1);
        let n = c.len() as int as real;
        assert(val(m) == n / (1int as real));
        let s = val(sum_of(c));
        assert(val(S::over_of(sum_of(c), m)) == s / n);
        if s >= 0 as real {
            assert(s / n >= 0 as real) by (nonlinear_arith)
                requires
                    s >= 0 as real,
                    n > 0 as real,
            ;
        }
    }
}

pub(crate) proof fn lemma_sharp_count<S: Scalar>(
    val: spec_fn(S) -> real,
    list: Seq<u32>,
    edges: Seq<EdgeKey>,
    creases: Seq<S>,
    v: u32,
)
    requires
        computes_exactly(val),
    ensures
        sharp_neighbors(list, edges, creases, v).len() == sharp_ends(val, list, edges, creases, v, 0 as real).len(),
    decreases list.len(),
{
    if list.len() > 0 {
        lemma_sharp_count(val, list.drop_last(), edges, creases, v);
        lemma_signs(val, creases[list.last() as int]);
    }
}

} // verus!
