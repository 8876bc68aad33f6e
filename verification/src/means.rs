//! Refined points and limit points are means: their weights never turn a sign.

use crate::catmull_clark::stencils as cc;
use crate::hashing::EdgeKey;
use crate::level::{all_true, LevelData};
use crate::limit::{sectors_of, RuleModel};
use crate::masks::{
    crease_position, edge_share, extraordinary_model, face_share, no_row, own_share, pushed, regular_model,
    smooth_model,
};
use crate::options::{BoundaryInterpolation, SchemeOptions, TriangleSubdivisionRule};
use crate::parity::lemma_value_accumulated;
use crate::ring::RingModel;
use crate::rules::{cornered_row, face_row, faces_merged, midpoint_row};
use crate::scalar::{one_of, Scalar, Wide};
use crate::sharpness::{
    blend_of, chosen, clamped, crease_row, flagged_neighbors, lemma_chosen, other_end, parent_share, positive,
    rule_row, sharp_list, sharp_neighbors, sharp_row, vertex_rule,
};
use crate::stencil::{identity_row, merged, mixed};
use crate::topology::all_below;
use crate::unity::{reads_both, value};
use crate::weights::{lemma_one, reads_exactly, total};
use vstd::prelude::*;

verus! {

/// Comparing numbers compares what they stand for.
pub open spec fn orders_exactly<S: Scalar>(val: spec_fn(S) -> real) -> bool {
    forall|a: S, b: S| #[trigger] S::less_of(a, b) <==> val(a) < val(b)
}

/// No number is negative.
pub open spec fn never_negative(x: spec_fn(u32) -> real) -> bool {
    forall|i: u32| #[trigger] x(i) >= 0 as real
}

/// A row gives no negative number of numbers of which none is.
#[verifier::opaque]
pub open spec fn keeps_sign<S>(val: spec_fn(S) -> real, row: Seq<(u32, S)>) -> bool {
    forall|x: spec_fn(u32) -> real| never_negative(x) ==> #[trigger] value(val, x, row) >= 0 as real
}

proof fn product(a: real, b: real)
    requires
        a >= 0 as real,
        b >= 0 as real,
    ensures
        a * b >= 0 as real,
{
    assert(a * b >= 0 as real) by (nonlinear_arith)
        requires
            a >= 0 as real,
            b >= 0 as real,
    ;
}

proof fn spread(w: real, a: real, b: real)
    ensures
        w * (a + b) == w * a + w * b,
{
    assert(w * (a + b) == w * a + w * b) by (nonlinear_arith);
}

/// What a merged row gives.
pub(crate) proof fn lemma_value_of_merged<S: Scalar>(
    val: spec_fn(S) -> real,
    x: spec_fn(u32) -> real,
    row: Seq<(u32, S)>,
    src: Seq<(u32, S)>,
    w: S,
)
    requires
        reads_exactly(val),
    ensures
        value(val, x, merged(row, src, w)) == value(val, x, row) + val(w) * value(val, x, src),
    decreases src.len(),
{
    let r = val(w);
    if src.len() == 0 {
        assert(r * (0 as real) == 0 as real) by (nonlinear_arith);
    } else {
        let front = src.drop_last();
        let (i, u) = src.last();
        lemma_value_of_merged(val, x, row, front, w);
        lemma_value_accumulated(val, x, merged(row, front, w), i, S::times_of(w, u));
        let a = value(val, x, front);
        let b = val(u);
        let z = x(i);
        assert(val(S::times_of(w, u)) == r * b);
        assert(r * (a + b * z) == r * a + (r * b) * z) by (nonlinear_arith);
    }
}

proof fn lemma_signs_merged<S: Scalar>(
    val: spec_fn(S) -> real,
    row: Seq<(u32, S)>,
    src: Seq<(u32, S)>,
    w: S,
)
    requires
        reads_exactly(val),
        keeps_sign(val, row),
        keeps_sign(val, src),
        val(w) >= 0 as real,
    ensures
        keeps_sign(val, merged(row, src, w)),
{
    reveal(keeps_sign);
    assert forall|x: spec_fn(u32) -> real| never_negative(x) implies #[trigger] value(val, x, merged(row, src, w))
        >= 0 as real by {
        lemma_value_of_merged(val, x, row, src, w);
        assert(value(val, x, row) >= 0 as real);
        assert(value(val, x, src) >= 0 as real);
        product(val(w), value(val, x, src));
    }
}

/// A row without negative weights.
proof fn lemma_signs_of_weights<S>(val: spec_fn(S) -> real, row: Seq<(u32, S)>)
    requires
        forall|k: int| 0 <= k < row.len() ==> val((#[trigger] row[k]).1) >= 0 as real,
    ensures
        keeps_sign(val, row),
    decreases row.len(),
{
    reveal(keeps_sign);
    if row.len() > 0 {
        let front = row.drop_last();
        assert forall|k: int| 0 <= k < front.len() implies val((#[trigger] front[k]).1) >= 0 as real by {
            assert(front[k] == row[k]);
        }
        lemma_signs_of_weights(val, front);
        let e = row[row.len() - 1];
        assert(val(e.1) >= 0 as real);
        assert forall|x: spec_fn(u32) -> real| never_negative(x) implies #[trigger] value(val, x, row) >= 0 as real by {
            assert(value(val, x, front) >= 0 as real);
            assert(x(e.0) >= 0 as real);
            product(val(e.1), x(e.0));
        }
    }
}

proof fn lemma_signs_mixed<S: Scalar>(
    val: spec_fn(S) -> real,
    a: Seq<(u32, S)>,
    b: Seq<(u32, S)>,
    share: S,
)
    requires
        reads_exactly(val),
        keeps_sign(val, a),
        keeps_sign(val, b),
        0 as real <= val(share) <= 1 as real,
    ensures
        keeps_sign(val, mixed(a, b, share)),
{
    lemma_one::<S>(val);
    let rest = S::minus_of(one_of(), share);
    assert(val(rest) == 1 as real - val(share));
    lemma_signs_of_weights(val, Seq::<(u32, S)>::empty());
    lemma_signs_merged(val, Seq::empty(), a, rest);
    lemma_signs_merged(val, merged(Seq::empty(), a, rest), b, share);
}

proof fn lemma_signs_identity<S: Scalar>(val: spec_fn(S) -> real, v: u32)
    requires
        reads_exactly(val),
    ensures
        keeps_sign(val, identity_row::<S>(v)),
{
    lemma_one::<S>(val);
    let row = identity_row::<S>(v);
    assert forall|k: int| 0 <= k < row.len() implies val((#[trigger] row[k]).1) >= 0 as real by {}
    lemma_signs_of_weights(val, row);
}

proof fn lemma_ratio<S: Scalar>(val: spec_fn(S) -> real, p: u32, q: u32)
    requires
        reads_exactly(val),
        q > 0,
    ensures
        val(S::ratio_of(p, q)) >= 0 as real,
{
    let a = p as int as real;
    let b = q as int as real;
    assert(a / b >= 0 as real) by (nonlinear_arith)
        requires
            a >= 0 as real,
            b > 0 as real,
    ;
}

// ---------------------------------------------------------------------------
// Catmull-Clark points
// ---------------------------------------------------------------------------
proof fn lemma_signs_face<S: Scalar>(val: spec_fn(S) -> real, face: Seq<u32>)
    requires
        reads_exactly(val),
        0 < face.len() <= u32::MAX,
    ensures
        keeps_sign(val, face_row::<S>(face)),
{
    lemma_ratio::<S>(val, 1, face.len() as u32);
    lemma_signs_of_weights(val, face_row::<S>(face));
}

proof fn lemma_signs_midpoint<S: Scalar>(val: spec_fn(S) -> real, edge: EdgeKey)
    requires
        reads_exactly(val),
    ensures
        keeps_sign(val, midpoint_row::<S>(edge)),
{
    lemma_ratio::<S>(val, 1, 2);
    lemma_signs_of_weights(val, midpoint_row::<S>(edge));
}

proof fn lemma_tri_weights<S: Scalar>(val: spec_fn(S) -> real, a: nat, b: nat)
    requires
        reads_exactly(val),
    ensures
        val(cc::smooth_tri_weights::<S>(a, b).0) >= 0 as real,
        val(cc::smooth_tri_weights::<S>(a, b).1) >= 0 as real,
{
    lemma_one::<S>(val);
    let half = S::ratio_of(1, 2);
    let two = S::ratio_of(2, 1);
    let x = cc::tri_weight::<S>(a);
    let y = cc::tri_weight::<S>(b);
    assert(val(half) == (1int as real) / (2int as real));
    assert(val(two) == (2int as real) / (1int as real));
    assert(val(S::ratio_of(1, 4)) == (1int as real) / (4int as real));
    assert(val(S::ratio_of(47, 100)) == (47int as real) / (100int as real));
    let both = S::plus_of(x, y);
    let face = S::times_of(half, both);
    let twice = S::times_of(two, face);
    let rest = S::minus_of(one_of(), twice);
    let h = val(half);
    let t = val(two);
    let s = val(both);
    assert(s == val(x) + val(y));
    assert(val(face) == h * s);
    assert(h * s == s / (2 as real)) by (nonlinear_arith)
        requires
            h == (1 as real) / (2 as real),
    ;
    let f = val(face);
    assert(val(twice) == t * f);
    assert(t * f == (2 as real) * f) by (nonlinear_arith)
        requires
            t == 2 as real,
    ;
    let r = val(rest);
    assert(r == 1 as real - val(twice));
    assert(val(S::times_of(half, rest)) == h * r);
    product(h, r);
}

proof fn lemma_signs_smooth_edge<S: Scalar>(
    val: spec_fn(S) -> real,
    edge: EdgeKey,
    face_0: Seq<u32>,
    face_1: Seq<u32>,
    selected_0: bool,
    selected_1: bool,
    rule: TriangleSubdivisionRule,
)
    requires
        reads_exactly(val),
        0 < face_0.len() <= u32::MAX,
        0 < face_1.len() <= u32::MAX,
    ensures
        keeps_sign(val, cc::smooth_edge_row::<S>(edge, face_0, face_1, selected_0, selected_1, rule)),
{
    lemma_signs_face::<S>(val, face_0);
    lemma_signs_face::<S>(val, face_1);
    lemma_signs_midpoint::<S>(val, edge);
    lemma_ratio::<S>(val, 1, 3);
    lemma_ratio::<S>(val, 1, 4);
    lemma_tri_weights::<S>(val, face_0.len(), face_1.len());
    let third = S::ratio_of(1, 3);
    let quarter = S::ratio_of(1, 4);
    if selected_0 && selected_1 {
        let (vw, fw) = match rule {
            TriangleSubdivisionRule::SmoothTriangles => cc::smooth_tri_weights::<S>(face_0.len(), face_1.len()),
            TriangleSubdivisionRule::CatmullClark => (quarter, quarter),
        };
        let start = cc::ends_row(edge, vw);
        lemma_signs_of_weights(val, start);
        lemma_signs_merged(val, start, face_row::<S>(face_0), fw);
        lemma_signs_merged(val, merged(start, face_row::<S>(face_0), fw), face_row::<S>(face_1), fw);
    } else if selected_0 {
        lemma_signs_of_weights(val, cc::ends_row(edge, third));
        lemma_signs_merged(val, cc::ends_row(edge, third), face_row::<S>(face_0), third);
    } else if selected_1 {
        lemma_signs_of_weights(val, cc::ends_row(edge, third));
        lemma_signs_merged(val, cc::ends_row(edge, third), face_row::<S>(face_1), third);
    }
}

proof fn lemma_blend_range<S: Scalar>(val: spec_fn(S) -> real, s: S)
    requires
        reads_exactly(val),
        orders_exactly(val),
    ensures
        0 as real <= val(blend_of(s)) <= 1 as real,
        0 as real <= val(clamped(s)) <= 1 as real,
{
    lemma_one::<S>(val);
}

proof fn lemma_signs_edge<S: Scalar>(val: spec_fn(S) -> real, level: LevelData<S>, options: SchemeOptions, e: int)
    requires
        reads_exactly(val),
        orders_exactly(val),
        level.wf(),
        0 <= e < level.topo.edges().len(),
    ensures
        keeps_sign(val, cc::cc_edge_row(level, options, e)),
{
    let t = level.topo;
    let edge = t.edges()[e];
    let row = t.edge_faces@[e];
    lemma_signs_midpoint::<S>(val, edge);
    if level.edge_has_selected_face@[e] && row.len() >= 2 {
        assert(row[0] < t.faces@.len());
        assert(row[1] < t.faces@.len());
        let f = t.faces@[row[0] as int];
        let g = t.faces@[row[1] as int];
        assert(f.len() >= 3 && g.len() >= 3);
        crate::csr::lemma_row_within_flat(t.faces@, row[0] as int);
        crate::csr::lemma_row_within_flat(t.faces@, row[1] as int);
        let a = level.face_selected@[row[0] as int];
        let b = level.face_selected@[row[1] as int];
        let rule = options.triangle_subdivision_rule;
        lemma_signs_smooth_edge::<S>(val, edge, f, g, a, b, rule);
        let blend = blend_of(level.effective_edge_creases@[e]);
        lemma_blend_range(val, level.effective_edge_creases@[e]);
        lemma_signs_mixed(
            val,
            cc::smooth_edge_row::<S>(edge, f, g, a, b, rule),
            midpoint_row(edge),
            blend,
        );
    }
}

proof fn lemma_signs_faces_merged<S: Scalar>(
    val: spec_fn(S) -> real,
    base: Seq<(u32, S)>,
    list: Seq<u32>,
    faces: Seq<Seq<u32>>,
    weight: S,
)
    requires
        reads_exactly(val),
        keeps_sign(val, base),
        val(weight) >= 0 as real,
        forall|k: int| 0 <= k < list.len() ==> 0 < faces[#[trigger] list[k] as int].len() <= u32::MAX,
    ensures
        keeps_sign(val, faces_merged(base, list, faces, weight)),
    decreases list.len(),
{
    if list.len() > 0 {
        let front = list.drop_last();
        assert forall|k: int| 0 <= k < front.len() implies 0 < faces[#[trigger] front[k] as int].len()
            <= u32::MAX by {
            assert(front[k] == list[k]);
        }
        lemma_signs_faces_merged(val, base, front, faces, weight);
        assert(0 < faces[list[list.len() - 1] as int].len() <= u32::MAX);
        lemma_signs_face::<S>(val, faces[list.last() as int]);
        lemma_signs_merged(
            val,
            faces_merged(base, front, faces, weight),
            face_row::<S>(faces[list.last() as int]),
            weight,
        );
    }
}

/// The midpoints of `m` edges of `v` give at least `m` halves of `v`.
proof fn lemma_midpoints_at_least<S: Scalar>(
    val: spec_fn(S) -> real,
    x: spec_fn(u32) -> real,
    list: Seq<u32>,
    edges: Seq<EdgeKey>,
    v: u32,
)
    requires
        reads_exactly(val),
        never_negative(x),
    ensures
        value(val, x, cc::midpoints_merged::<S>(list, edges, v)) >= ((list.len() as int as real) / (2 as real)) * x(v),
    decreases list.len(),
{
    let z = x(v);
    assert(z >= 0 as real);
    if list.len() == 0 {
        let h = (0int as real) / (2 as real);
        assert(h * z == 0 as real) by (nonlinear_arith)
            requires
                h == 0 as real,
        ;
    } else {
        let half = S::ratio_of(1, 2);
        let front = cc::midpoints_merged::<S>(list.drop_last(), edges, v);
        let other = other_end(edges[list.last() as int], v);
        lemma_midpoints_at_least::<S>(val, x, list.drop_last(), edges, v);
        lemma_one::<S>(val);
        let own = seq![(v, half)];
        let far = seq![(other, half)];
        assert(own.drop_last() =~= Seq::<(u32, S)>::empty());
        assert(far.drop_last() =~= Seq::<(u32, S)>::empty());
        assert(value(val, x, own.drop_last()) == 0 as real);
        assert(value(val, x, far.drop_last()) == 0 as real);
        lemma_value_of_merged(val, x, front, own, one_of());
        lemma_value_of_merged(val, x, merged(front, own, one_of()), far, one_of());
        let a = value(val, x, own);
        let b = value(val, x, far);
        let h = val(half);
        assert(h == (1int as real) / (2int as real));
        assert(a == h * z);
        assert(b == h * x(other));
        assert(x(other) >= 0 as real);
        product(h, x(other));
        assert((1 as real) * a == a) by (nonlinear_arith);
        assert((1 as real) * b == b) by (nonlinear_arith);
        let m = (list.len() - 1) as real;
        assert((list.len() as int as real) == m + 1 as real);
        assert(((m + 1 as real) / (2 as real)) * z == (m / (2 as real)) * z + ((1 as real) / (2 as real)) * z)
            by (nonlinear_arith);
        assert(h * z == ((1 as real) / (2 as real)) * z);
    }
}

/// The shares of a vertex with `r` faces and `m` edges, where `f` comes from the faces
/// and `g` from the midpoints.
proof fn lemma_vertex_shares(r: real, m: real, f: real, g: real, z: real)
    requires
        r >= 2 as real,
        m > 0 as real,
        f >= 0 as real,
        z >= 0 as real,
        g >= (m / (2 as real)) * z,
    ensures
        ((1 as real) / r) * f + (((2 as real) * ((1 as real) / m)) / r) * g + ((r - (3 as real)) / r) * z >= 0 as real,
{
    let t = (1 as real) / m;
    assert(t > 0 as real && t * m == 1 as real) by (nonlinear_arith)
        requires
            m > 0 as real,
            t == (1 as real) / m,
    ;
    let a = (2 as real) * t * g;
    assert(a >= z) by (nonlinear_arith)
        requires
            t > 0 as real,
            t * m == 1 as real,
            g >= (m / (2 as real)) * z,
            a == (2 as real) * t * g,
    ;
    let i = (1 as real) / r;
    assert(i > 0 as real) by (nonlinear_arith)
        requires
            r >= 2 as real,
            i == (1 as real) / r,
    ;
    assert((((2 as real) * t) / r) * g == i * a) by (nonlinear_arith)
        requires
            r >= 2 as real,
            i == (1 as real) / r,
            a == (2 as real) * t * g,
    ;
    let c = r - (3 as real);
    assert((c / r) * z == i * (c * z)) by (nonlinear_arith)
        requires
            r >= 2 as real,
            i == (1 as real) / r,
    ;
    assert(c * z >= -z) by (nonlinear_arith)
        requires
            c >= -(1 as real),
            z >= 0 as real,
    ;
    let s = f + a + c * z;
    product(i, s);
    spread(i, f + a, c * z);
    spread(i, f, a);
}

proof fn lemma_signs_smooth_vertex<S: Scalar>(
    val: spec_fn(S) -> real,
    v: u32,
    faces: Seq<Seq<u32>>,
    edges: Seq<EdgeKey>,
    face_list: Seq<u32>,
    edge_list: Seq<u32>,
)
    requires
        reads_exactly(val),
        2 <= face_list.len() <= u32::MAX,
        0 < edge_list.len() <= u32::MAX,
        forall|k: int| 0 <= k < face_list.len() ==> 0 < faces[#[trigger] face_list[k] as int].len() <= u32::MAX,
    ensures
        keeps_sign(val, cc::smooth_vertex_row::<S>(v, faces, edges, face_list, edge_list)),
{
    let n = S::ratio_of(face_list.len() as u32, 1);
    let inv_n = S::over_of(one_of(), n);
    let inv_m = S::ratio_of(1, edge_list.len() as u32);
    let face_mean = faces_merged(Seq::empty(), face_list, faces, inv_n);
    let mids = cc::midpoints_merged::<S>(edge_list, edges, v);
    let two = S::ratio_of(2, 1);
    let three = S::ratio_of(3, 1);
    let mid_share = S::over_of(S::times_of(two, inv_m), n);
    let own_share = S::over_of(S::minus_of(n, three), n);
    lemma_one::<S>(val);
    let r = face_list.len() as int as real;
    let m = edge_list.len() as int as real;
    assert(val(n) == r / (1int as real));
    assert(val(n) == r);
    assert(val(inv_n) == (1 as real) / r);
    assert(val(inv_m) == (1int as real) / m);
    assert(val(two) == (2int as real) / (1int as real));
    assert(val(three) == (3int as real) / (1int as real));
    assert(val(mid_share) == (val(two) * val(inv_m)) / r);
    assert(val(own_share) == (r - val(three)) / r);
    let i = (1 as real) / r;
    assert(i >= 0 as real) by (nonlinear_arith)
        requires
            r >= 2 as real,
            i == (1 as real) / r,
    ;
    lemma_signs_of_weights(val, Seq::<(u32, S)>::empty());
    lemma_signs_faces_merged(val, Seq::empty(), face_list, faces, inv_n);
    let one_row = merged(Seq::empty(), face_mean, inv_n);
    let two_row = merged(one_row, mids, mid_share);
    let own = identity_row::<S>(v);
    let whole = cc::smooth_vertex_row::<S>(v, faces, edges, face_list, edge_list);
    reveal(keeps_sign);
    assert forall|x: spec_fn(u32) -> real| never_negative(x) implies #[trigger] value(val, x, whole) >= 0 as real by {
        lemma_value_of_merged(val, x, Seq::empty(), face_mean, inv_n);
        lemma_value_of_merged(val, x, one_row, mids, mid_share);
        lemma_value_of_merged(val, x, two_row, own, own_share);
        lemma_midpoints_at_least::<S>(val, x, edge_list, edges, v);
        let f = value(val, x, face_mean);
        let g = value(val, x, mids);
        let z = x(v);
        assert(f >= 0 as real);
        assert(own.drop_last() =~= Seq::<(u32, S)>::empty());
        assert(value(val, x, own.drop_last()) == 0 as real);
        assert(value(val, x, own) == (1 as real) * z);
        assert((1 as real) * z == z) by (nonlinear_arith);
        assert(z >= 0 as real);
        lemma_vertex_shares(r, m, f, g, z);
    }
}

proof fn lemma_signs_rule<S: Scalar>(
    val: spec_fn(S) -> real,
    rule: int,
    v: u32,
    smooth: Seq<(u32, S)>,
    original: Seq<(u32, S)>,
    sharp: Seq<u32>,
)
    requires
        reads_exactly(val),
        keeps_sign(val, smooth),
        keeps_sign(val, original),
    ensures
        keeps_sign(val, rule_row(rule, v, smooth, original, sharp)),
{
    if rule == 2 && sharp.len() >= 2 {
        lemma_ratio::<S>(val, 6, 8);
        lemma_ratio::<S>(val, 1, 8);
        lemma_signs_of_weights(val, crease_row::<S>(v, sharp.first(), sharp.last()));
    }
}

proof fn lemma_signs_sharp<S: Scalar>(
    val: spec_fn(S) -> real,
    v: u32,
    smooth: Seq<(u32, S)>,
    original: Seq<(u32, S)>,
    corner: S,
    neighbors: Seq<(u32, S)>,
)
    requires
        reads_exactly(val),
        orders_exactly(val),
        keeps_sign(val, smooth),
        keeps_sign(val, original),
    ensures
        keeps_sign(val, sharp_row(v, smooth, original, corner, neighbors)),
{
    let now = sharp_list(neighbors, false);
    let next = sharp_list(neighbors, true);
    let parent_rule = vertex_rule(positive(corner), now.len());
    let child_rule = vertex_rule(positive(crate::sharpness::decremented(corner)), next.len());
    lemma_signs_rule(val, parent_rule, v, smooth, original, now);
    lemma_signs_rule(val, child_rule, v, smooth, original, next);
    let f = crate::sharpness::fading_with_corner(corner, neighbors);
    lemma_one::<S>(val);
    lemma_blend_range(
        val,
        S::over_of(crate::sharpness::sum_of(f), S::ratio_of(f.len() as u32, 1)),
    );
    lemma_signs_mixed(
        val,
        rule_row(child_rule, v, smooth, original, next),
        rule_row(parent_rule, v, smooth, original, now),
        parent_share(corner, neighbors),
    );
}

proof fn lemma_signs_cornered<S: Scalar>(val: spec_fn(S) -> real, smooth: Seq<(u32, S)>, v: u32, corner: S)
    requires
        reads_exactly(val),
        orders_exactly(val),
        keeps_sign(val, smooth),
    ensures
        keeps_sign(val, cornered_row(smooth, v, corner)),
{
    lemma_signs_identity::<S>(val, v);
    lemma_blend_range(val, corner);
    lemma_signs_mixed(val, smooth, identity_row::<S>(v), blend_of(corner));
}

/// Where every item is chosen.
proof fn lemma_all_chosen(list: Seq<u32>, flags: Seq<bool>)
    requires
        all_true(flags),
        all_below(list, flags.len() as int),
    ensures
        chosen(list, flags) == list,
    decreases list.len(),
{
    if list.len() > 0 {
        let front = list.drop_last();
        assert forall|k: int| 0 <= k < front.len() implies (#[trigger] front[k]) < flags.len() by {
            assert(list[k] == front[k]);
        }
        lemma_all_chosen(front, flags);
        assert(list[list.len() - 1] < flags.len());
        assert(flags[list.last() as int]);
        assert(list =~= front.push(list.last()));
    } else {
        assert(chosen(list, flags) =~= list);
    }
}

/// No inner vertex of a level has a single face.
pub open spec fn inner_vertices_unfold<S: Scalar>(level: LevelData<S>) -> bool {
    forall|v: int|
        0 <= v < level.n() && !(#[trigger] level.topo.vertex_is_boundary@[v]) ==> level.topo.vertex_faces@[v].len() != 1
}

proof fn lemma_signs_vertex<S: Scalar>(val: spec_fn(S) -> real, level: LevelData<S>, options: SchemeOptions, v: int)
    requires
        reads_exactly(val),
        orders_exactly(val),
        level.wf(),
        all_true(level.face_selected@),
        inner_vertices_unfold(level),
        options.boundary_interpolation != BoundaryInterpolation::Natural,
        0 <= v < level.n(),
    ensures
        keeps_sign(val, cc::cc_vertex_row(level, options, v)),
{
    let t = level.topo;
    let vi = v as u32;
    let original = identity_row::<S>(vi);
    let corner = crate::rules::corner_at(
        level.mesh.vertex_corners@[v],
        options.auto_corner,
        t.vertex_edges@[v],
        t.edge_creases@,
    );
    let face_list = chosen(t.vertex_faces@[v], level.face_selected@);
    let edge_list = chosen(t.vertex_edges@[v], level.edge_has_selected_face@);
    lemma_signs_identity::<S>(val, vi);
    assert(all_below(t.vertex_faces@[v], t.faces@.len() as int));
    assert(all_below(t.vertex_edges@[v], t.edges().len() as int) && t.vertex_edges@[v].len() < u32::MAX);
    lemma_all_chosen(t.vertex_faces@[v], level.face_selected@);
    lemma_chosen(t.vertex_edges@[v], level.edge_has_selected_face@, t.edges().len() as int);
    let neighbors = flagged_neighbors(t.vertex_edges@[v], t.edges(), t.edge_is_boundary@, vi);
    if neighbors.len() >= 2 {
        let row = seq![
            (vi, S::ratio_of(3, 4)),
            (neighbors[0], S::ratio_of(1, 8)),
            (neighbors[1], S::ratio_of(1, 8)),
        ];
        lemma_ratio::<S>(val, 3, 4);
        lemma_ratio::<S>(val, 1, 8);
        lemma_signs_of_weights(val, row);
        lemma_signs_cornered(val, row, vi, corner);
    }
    if !t.vertex_is_boundary@[v] && face_list.len() > 0 && edge_list.len() > 0 {
        crate::csr::lemma_packed_fits(t.vertex_faces);
        crate::csr::lemma_row_within_flat(t.vertex_faces@, v);
        assert forall|k: int| 0 <= k < face_list.len() implies 0 < t.faces@[#[trigger] face_list[k] as int].len()
            <= u32::MAX by {
            assert(face_list[k] < t.faces@.len());
            assert(t.faces@[face_list[k] as int].len() >= 3);
            crate::csr::lemma_row_within_flat(t.faces@, face_list[k] as int);
        }
        lemma_signs_smooth_vertex::<S>(val, vi, t.faces@, t.edges(), face_list, edge_list);
        let smooth = cc::smooth_vertex_row::<S>(vi, t.faces@, t.edges(), face_list, edge_list);
        let sharp = sharp_neighbors(t.vertex_edges@[v], t.edges(), level.effective_edge_creases@, vi);
        lemma_signs_sharp(val, vi, smooth, original, corner, sharp);
        lemma_signs_cornered(val, smooth, vi, corner);
    }
}

/// The points of a full Catmull-Clark refinement are means of the points before it:
/// no row turns a sign. The boundary is interpolated; with the natural boundary a
/// vertex with one face moves away from its face.
pub proof fn refined_points_are_means<S: Scalar>(
    val: spec_fn(S) -> real,
    level: LevelData<S>,
    options: SchemeOptions,
    i: int,
)
    requires
        reads_exactly(val),
        orders_exactly(val),
        level.wf(),
        all_true(level.face_selected@),
        inner_vertices_unfold(level),
        options.boundary_interpolation != BoundaryInterpolation::Natural,
        0 <= i < cc::cc_rows(level, options).len(),
    ensures
        keeps_sign(val, cc::cc_rows(level, options)[i]),
{
    let nf = level.topo.faces@.len() as int;
    let ne = level.topo.edges().len() as int;
    if i < nf {
        assert(level.topo.faces@[i].len() >= 3);
        crate::csr::lemma_row_within_flat(level.topo.faces@, i);
        lemma_signs_face::<S>(val, level.topo.faces@[i]);
    } else if i < nf + ne {
        lemma_signs_edge(val, level, options, i - nf);
    } else {
        lemma_signs_vertex(val, level, options, i - nf - ne);
    }
}

// ---------------------------------------------------------------------------
// Limit points
// ---------------------------------------------------------------------------
proof fn lemma_signs_pushed<S: Scalar, W: Wide<S>>(
    val: spec_fn(S) -> real,
    wal: spec_fn(W) -> real,
    row: Seq<(u32, S)>,
    i: u32,
    w: W,
)
    requires
        reads_exactly(val),
        forall|w: W| val(#[trigger] W::narrow_of(w)) == wal(w),
        wal(w) >= 0 as real,
        keeps_sign(val, row),
    ensures
        keeps_sign(val, pushed::<S, W>(row, i, w)),
{
    lemma_one::<S>(val);
    let src = seq![(i, W::narrow_of(w))];
    assert forall|k: int| 0 <= k < src.len() implies val((#[trigger] src[k]).1) >= 0 as real by {}
    lemma_signs_of_weights(val, src);
    lemma_signs_merged(val, row, src, one_of());
}

proof fn lemma_signs_regular<S: Scalar, W: Wide<S>>(
    val: spec_fn(S) -> real,
    wal: spec_fn(W) -> real,
    v: u32,
    ring: RingModel,
    i: int,
)
    requires
        reads_both::<S, W>(val, wal),
    ensures
        keeps_sign(val, regular_model::<S, W>(v, ring, i).position),
    decreases i,
{
    lemma_ratio::<W>(wal, 4, 9);
    lemma_ratio::<W>(wal, 1, 9);
    lemma_ratio::<W>(wal, 1, 36);
    if i <= 0 {
        lemma_signs_of_weights(val, no_row::<S>());
        lemma_signs_pushed::<S, W>(val, wal, no_row(), v, W::ratio_of(4, 9));
    } else {
        lemma_signs_regular::<S, W>(val, wal, v, ring, i - 1);
        let before = regular_model::<S, W>(v, ring, i - 1).position;
        let n = ring.neighbors[i - 1];
        let d = ring.diagonals[i - 1];
        lemma_signs_pushed::<S, W>(val, wal, before, n, W::ratio_of(1, 9));
        lemma_signs_pushed::<S, W>(val, wal, pushed::<S, W>(before, n, W::ratio_of(1, 9)), d, W::ratio_of(1, 36));
    }
}

/// The shares of a vertex of valence `n` in its limit: `1 / (n (n + 5))` for a face,
/// four times that for an edge, and the rest for the vertex.
proof fn lemma_limit_shares<S: Scalar>(val: spec_fn(S) -> real, valence: int)
    requires
        reads_exactly(val),
        0 < valence <= u32::MAX,
    ensures
        val(face_share::<S>(valence)) >= 0 as real,
        val(edge_share::<S>(valence)) >= 0 as real,
        val(own_share::<S>(valence)) >= 0 as real,
{
    lemma_one::<S>(val);
    let n = S::ratio_of(valence as u32, 1);
    let five = S::ratio_of(5, 1);
    let four = S::ratio_of(4, 1);
    let r = valence as real;
    assert(val(n) == r / (1int as real));
    assert(val(n) == r);
    assert(val(five) == (5int as real) / (1int as real));
    assert(val(four) == (4int as real) / (1int as real));
    let sum = S::plus_of(n, five);
    let both = S::times_of(n, sum);
    assert(val(sum) == r + 5 as real);
    let p = val(both);
    assert(p == r * (r + 5 as real));
    assert(p > 0 as real) by (nonlinear_arith)
        requires
            p == r * (r + 5 as real),
            r > 0 as real,
    ;
    let f = face_share::<S>(valence);
    let x = val(f);
    assert(x == (1 as real) / p);
    assert(x > 0 as real) by (nonlinear_arith)
        requires
            x == (1 as real) / p,
            p > 0 as real,
    ;
    let e = edge_share::<S>(valence);
    let y = val(e);
    let q = val(four);
    assert(y == q * x);
    assert(y == (4 as real) * x) by (nonlinear_arith)
        requires
            y == q * x,
            q == 4 as real,
    ;
    let each = S::plus_of(e, f);
    assert(val(each) == y + x);
    let all = S::times_of(n, each);
    let s = val(all);
    assert(s == r * (y + x));
    assert(own_share::<S>(valence) == S::minus_of(one_of(), all));
    assert(s <= 1 as real) by (nonlinear_arith)
        requires
            s == r * (y + x),
            y == (4 as real) * x,
            x == (1 as real) / p,
            p == r * (r + 5 as real),
            p > 0 as real,
            r > 0 as real,
    ;
}

proof fn lemma_signs_extraordinary<S: Scalar, W: Wide<S>>(
    val: spec_fn(S) -> real,
    v: u32,
    ring: RingModel,
    i: int,
)
    requires
        reads_exactly(val),
        0 < ring.diagonals.len() <= u32::MAX,
    ensures
        keeps_sign(val, extraordinary_model::<S, W>(v, ring, i).position),
    decreases i,
{
    let valence = ring.diagonals.len() as int;
    lemma_limit_shares::<S>(val, valence);
    if i <= 0 {
        lemma_signs_of_weights(val, no_row::<S>());
        lemma_signs_pushed::<S, S>(val, val, no_row(), v, own_share::<S>(valence));
    } else {
        lemma_signs_extraordinary::<S, W>(val, v, ring, i - 1);
        let before = extraordinary_model::<S, W>(v, ring, i - 1).position;
        let n = ring.neighbors[i - 1];
        let d = ring.diagonals[i - 1];
        lemma_signs_pushed::<S, S>(val, val, before, n, edge_share::<S>(valence));
        lemma_signs_pushed::<S, S>(
            val,
            val,
            pushed::<S, S>(before, n, edge_share::<S>(valence)),
            d,
            face_share::<S>(valence),
        );
    }
}

/// The limit of a vertex is a mean of refined points: no row turns a sign.
pub proof fn limit_points_are_means<S: Scalar, W: Wide<S>>(
    val: spec_fn(S) -> real,
    wal: spec_fn(W) -> real,
    v: u32,
    ring: RingModel,
    rule: RuleModel,
)
    requires
        reads_both::<S, W>(val, wal),
        0 < ring.diagonals.len() <= u32::MAX,
    ensures
        keeps_sign(val, sectors_of::<S, W>(v, ring, rule).position),
{
    lemma_signs_identity::<S>(val, v);
    match rule {
        RuleModel::Smooth => {
            let valence = ring.diagonals.len() as int;
            lemma_signs_regular::<S, W>(val, wal, v, ring, 4);
            lemma_signs_extraordinary::<S, W>(val, v, ring, valence);
            assert(sectors_of::<S, W>(v, ring, rule).position == smooth_model::<S, W>(v, ring).position);
        },
        RuleModel::Crease(lead, trail) => {
            let a = ring.neighbors[lead];
            let b = ring.neighbors[trail];
            let two = W::ratio_of(2, 3);
            let sixth = W::ratio_of(1, 6);
            lemma_ratio::<W>(wal, 2, 3);
            lemma_ratio::<W>(wal, 1, 6);
            lemma_signs_of_weights(val, no_row::<S>());
            let r0 = pushed::<S, W>(no_row(), v, two);
            let r1 = pushed::<S, W>(r0, a, sixth);
            lemma_signs_pushed::<S, W>(val, wal, no_row(), v, two);
            lemma_signs_pushed::<S, W>(val, wal, r0, a, sixth);
            lemma_signs_pushed::<S, W>(val, wal, r1, b, sixth);
            assert(sectors_of::<S, W>(v, ring, rule).position == crease_position::<S, W>(v, a, b));
        },
        RuleModel::Corner(slots) => {
            assert(sectors_of::<S, W>(v, ring, rule).position == identity_row::<S>(v));
        },
    }
}

// ---------------------------------------------------------------------------
// Between bounds
// ---------------------------------------------------------------------------
spec fn occurs<S>(row: Seq<(u32, S)>, i: u32) -> bool {
    exists|k: int| 0 <= k < row.len() && (#[trigger] row[k]).0 == i
}

/// The numbers over `lo`, where the row reads them.
proof fn lemma_value_over<S>(
    val: spec_fn(S) -> real,
    x: spec_fn(u32) -> real,
    y: spec_fn(u32) -> real,
    row: Seq<(u32, S)>,
    a: real,
    b: real,
)
    requires
        forall|k: int| 0 <= k < row.len() ==> y((#[trigger] row[k]).0) == a * x(row[k].0) + b,
    ensures
        value(val, y, row) == a * value(val, x, row) + b * total(val, row),
    decreases row.len(),
{
    if row.len() == 0 {
        assert(a * (0 as real) == 0 as real) by (nonlinear_arith);
        assert(b * (0 as real) == 0 as real) by (nonlinear_arith);
    } else {
        let front = row.drop_last();
        assert forall|k: int| 0 <= k < front.len() implies y((#[trigger] front[k]).0) == a * x(front[k].0) + b by {
            assert(front[k] == row[k]);
        }
        lemma_value_over(val, x, y, front, a, b);
        let e = row[row.len() - 1];
        let w = val(e.1);
        let z = x(e.0);
        let v = value(val, x, front);
        let t = total(val, front);
        assert(y(e.0) == a * z + b);
        assert(w * (a * z + b) == a * (w * z) + b * w) by (nonlinear_arith);
        spread(a, v, w * z);
        spread(b, t, w);
    }
}

/// A mean of numbers between two bounds lies between them.
pub proof fn means_lie_between<S>(
    val: spec_fn(S) -> real,
    x: spec_fn(u32) -> real,
    row: Seq<(u32, S)>,
    lo: real,
    hi: real,
)
    requires
        keeps_sign(val, row),
        total(val, row) == 1 as real,
        forall|k: int| 0 <= k < row.len() ==> lo <= x((#[trigger] row[k]).0) <= hi,
    ensures
        lo <= value(val, x, row) <= hi,
{
    reveal(keeps_sign);
    let over = |i: u32| if occurs(row, i) { x(i) - lo } else { 0 as real };
    let under = |i: u32| if occurs(row, i) { hi - x(i) } else { 0 as real };
    assert forall|i: u32| #[trigger] over(i) >= 0 as real by {}
    assert forall|i: u32| #[trigger] under(i) >= 0 as real by {}
    assert forall|k: int| 0 <= k < row.len() implies over((#[trigger] row[k]).0) == (1 as real) * x(row[k].0) + (
    -lo) by {
        let z = x(row[k].0);
        assert(occurs(row, row[k].0));
        assert((1 as real) * z == z) by (nonlinear_arith);
    }
    assert forall|k: int| 0 <= k < row.len() implies under((#[trigger] row[k]).0) == (-(1 as real)) * x(row[k].0)
        + hi by {
        let z = x(row[k].0);
        assert(occurs(row, row[k].0));
        assert((-(1 as real)) * z == -z) by (nonlinear_arith);
    }
    lemma_value_over(val, x, over, row, 1 as real, -lo);
    lemma_value_over(val, x, under, row, -(1 as real), hi);
    assert(never_negative(over) && never_negative(under));
    assert(value(val, over, row) >= 0 as real);
    assert(value(val, under, row) >= 0 as real);
    let v = value(val, x, row);
    assert((1 as real) * v == v) by (nonlinear_arith);
    assert((-(1 as real)) * v == -v) by (nonlinear_arith);
    assert((-lo) * (1 as real) == -lo) by (nonlinear_arith);
    assert(hi * (1 as real) == hi) by (nonlinear_arith);
}

} // verus!
