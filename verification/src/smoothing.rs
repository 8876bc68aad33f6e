//! What the schemes of Catmull and Clark and of sqrt(3) make of the points of a mesh.

use crate::catmull_clark::refine::cc_refines;
use crate::catmull_clark::stencils as cc;
use crate::doo_sabin::stencils as ds;
use crate::hashing::EdgeKey;
use crate::level::LevelData;
use crate::loop_subdivision::stencils as lp;
use crate::means::lemma_value_of_merged;
use crate::options::{BoundaryInterpolation, SchemeOptions, TriangleSubdivisionRule};
use crate::output::VertexOrigin;
use crate::placement::{lemma_fits, lemma_rim_value, rim_point};
use crate::points::{
    across, centroids_at, computes_exactly, corner_sharpness, cornered_point, creased_point, lemma_corner_sharpness,
    lemma_cornered_value, lemma_creased_value, lemma_face_value, lemma_faces_value, lemma_flagged,
    lemma_identity_value, lemma_midpoint_value, lemma_one_entry, lemma_picked, lemma_sharp_value, lemma_two_entries,
    mean_at, picked, product_of_sum, product_of_three, product_with_one, quotient_times, reached, sharp_point, sum_at,
};
use crate::rules::{face_row, faces_merged};
use crate::scalar::{one_of, Scalar};
use crate::sharpness::{lemma_chosen, other_end};
use crate::sqrt3::refine::sqrt3_refines;
use crate::sqrt3::stencils as s3;
use crate::stencil::{identity_row, merged};
use crate::topology::all_below;
use crate::unity::value;
use crate::weights::{lemma_one, reads_exactly};
use vstd::prelude::*;

verus! {

// ---------------------------------------------------------------------------
// Catmull-Clark
// ---------------------------------------------------------------------------
/// How much a face counts in the edge rule that smooths triangles: 0.47 for a triangle,
/// else a quarter.
pub open spec fn side_weight(size: nat) -> real {
    if size == 3 {
        (47 as real) / (100 as real)
    } else {
        (1 as real) / (4 as real)
    }
}

/// The smooth point of an edge between two faces, by which of them are refined.
pub open spec fn cc_edge_point(
    x: spec_fn(u32) -> real,
    edge: EdgeKey,
    a: Seq<u32>,
    b: Seq<u32>,
    refined_a: bool,
    refined_b: bool,
    rule: TriangleSubdivisionRule,
) -> real {
    let ends = x(edge.0) + x(edge.1);
    if refined_a && refined_b {
        if rule == TriangleSubdivisionRule::SmoothTriangles && (a.len() == 3 || b.len() == 3) {
            let w = (side_weight(a.len()) + side_weight(b.len())) / (2 as real);
            w * (mean_at(x, a) + mean_at(x, b)) + ((1 as real - 2 as real * w) / (2 as real)) * ends
        } else {
            (ends + mean_at(x, a) + mean_at(x, b)) / (4 as real)
        }
    } else if refined_a {
        (ends + mean_at(x, a)) / (3 as real)
    } else if refined_b {
        (ends + mean_at(x, b)) / (3 as real)
    } else {
        ends / (2 as real)
    }
}

/// Small multiples and parts of a number.
proof fn part_of(w: real, z: real)
    ensures
        w == 0 as real ==> w * z == 0 as real,
        w == 2 as real ==> w * z == 2 as real * z,
        w == (1 as real) / (2 as real) ==> w * z == z / (2 as real),
        w == (1 as real) / (3 as real) ==> w * z == z / (3 as real),
        w == (1 as real) / (4 as real) ==> w * z == z / (4 as real),
{
    assert((0 as real) * z == 0 as real) by (nonlinear_arith);
    assert(((1 as real) / (2 as real)) * z == z / (2 as real)) by (nonlinear_arith);
    assert(((1 as real) / (3 as real)) * z == z / (3 as real)) by (nonlinear_arith);
    assert(((1 as real) / (4 as real)) * z == z / (4 as real)) by (nonlinear_arith);
}

proof fn lemma_tri<S: Scalar>(val: spec_fn(S) -> real, a: nat, b: nat)
    requires
        reads_exactly(val),
        a == 3 || b == 3,
    ensures
        ({
            let w = (side_weight(a) + side_weight(b)) / (2 as real);
            &&& val(cc::smooth_tri_weights::<S>(a, b).1) == w
            &&& val(cc::smooth_tri_weights::<S>(a, b).0) == (1 as real - 2 as real * w) / (2 as real)
        }),
{
    lemma_one::<S>(val);
    let half = S::ratio_of(1, 2);
    let two = S::ratio_of(2, 1);
    assert(val(half) == (1int as real) / (2int as real));
    assert(val(two) == (2int as real) / (1int as real));
    assert(val(S::ratio_of(1, 4)) == (1int as real) / (4int as real));
    assert(val(S::ratio_of(47, 100)) == (47int as real) / (100int as real));
    let sum = S::plus_of(cc::tri_weight::<S>(a), cc::tri_weight::<S>(b));
    let s = val(sum);
    assert(s == side_weight(a) + side_weight(b));
    let face = S::times_of(half, sum);
    let h = val(half);
    assert(val(face) == h * s);
    part_of(h, s);
    let w = val(face);
    let twice = S::times_of(two, face);
    let t = val(two);
    assert(val(twice) == t * w);
    part_of(t, w);
    let rest = S::minus_of(one_of(), twice);
    let r = val(rest);
    assert(val(S::times_of(half, rest)) == h * r);
    part_of(h, r);
}

proof fn lemma_cc_edge_value<S: Scalar>(
    val: spec_fn(S) -> real,
    x: spec_fn(u32) -> real,
    edge: EdgeKey,
    a: Seq<u32>,
    b: Seq<u32>,
    ra: bool,
    rb: bool,
    rule: TriangleSubdivisionRule,
)
    requires
        reads_exactly(val),
        0 < a.len() <= u32::MAX,
        0 < b.len() <= u32::MAX,
    ensures
        value(val, x, cc::smooth_edge_row::<S>(edge, a, b, ra, rb, rule)) == cc_edge_point(x, edge, a, b, ra, rb, rule),
{
    lemma_face_value::<S>(val, x, a);
    lemma_face_value::<S>(val, x, b);
    lemma_midpoint_value::<S>(val, x, edge);
    let (p, q) = (x(edge.0), x(edge.1));
    let (f, g) = (mean_at(x, a), mean_at(x, b));
    let third = S::ratio_of(1, 3);
    let quarter = S::ratio_of(1, 4);
    let t = val(third);
    let u = val(quarter);
    assert(t == (1int as real) / (3int as real));
    assert(u == (1int as real) / (4int as real));
    if ra && rb {
        let (vw, fw) = match rule {
            TriangleSubdivisionRule::SmoothTriangles => cc::smooth_tri_weights::<S>(a.len(), b.len()),
            TriangleSubdivisionRule::CatmullClark => (quarter, quarter),
        };
        let start = cc::ends_row(edge, vw);
        lemma_two_entries(val, x, (edge.0, vw), (edge.1, vw));
        lemma_value_of_merged(val, x, start, face_row::<S>(a), fw);
        lemma_value_of_merged(val, x, merged(start, face_row::<S>(a), fw), face_row::<S>(b), fw);
        let y = val(vw);
        let z = val(fw);
        if rule == TriangleSubdivisionRule::SmoothTriangles && (a.len() == 3 || b.len() == 3) {
            lemma_tri::<S>(val, a.len(), b.len());
            product_of_sum(z, f, g);
            product_of_sum(y, p, q);
        } else {
            part_of(y, p);
            part_of(y, q);
            part_of(z, f);
            part_of(z, g);
        }
    } else if ra {
        lemma_two_entries(val, x, (edge.0, third), (edge.1, third));
        lemma_value_of_merged(val, x, cc::ends_row(edge, third), face_row::<S>(a), third);
        part_of(t, p);
        part_of(t, q);
        part_of(t, f);
        part_of(t, g);
    } else if rb {
        lemma_two_entries(val, x, (edge.0, third), (edge.1, third));
        lemma_value_of_merged(val, x, cc::ends_row(edge, third), face_row::<S>(b), third);
        part_of(t, p);
        part_of(t, q);
        part_of(t, f);
        part_of(t, g);
    }
}

/// A vertex among `n` faces: with `f` the mean of their centroids and `r` the mean of the
/// middles of its edges, it is `(f + 2 r + (n - 3) v) / n`.
pub open spec fn cc_smooth_point(
    x: spec_fn(u32) -> real,
    v: u32,
    faces: Seq<Seq<u32>>,
    around: Seq<u32>,
    ends: Seq<u32>,
) -> real {
    let n = around.len() as int as real;
    let f = centroids_at(x, faces, around) / n;
    let r = (x(v) + mean_at(x, ends)) / (2 as real);
    (f + 2 as real * r + (n - 3 as real) * x(v)) / n
}

proof fn lemma_middles<S: Scalar>(
    val: spec_fn(S) -> real,
    x: spec_fn(u32) -> real,
    list: Seq<u32>,
    edges: Seq<EdgeKey>,
    v: u32,
)
    requires
        reads_exactly(val),
    ensures
        value(val, x, cc::midpoints_merged::<S>(list, edges, v)) == ((list.len() as int as real) * x(v) + sum_at(
            x,
            reached(list, edges, v),
        )) / (2 as real),
    decreases list.len(),
{
    let ends = reached(list, edges, v);
    let z = x(v);
    if list.len() == 0 {
        part_of(0 as real, z);
        assert(sum_at(x, ends) == 0 as real);
    } else {
        let half = S::ratio_of(1, 2);
        let front = cc::midpoints_merged::<S>(list.drop_last(), edges, v);
        let o = across(edges[list.last() as int], v);
        assert(o == other_end(edges[list.last() as int], v));
        lemma_middles::<S>(val, x, list.drop_last(), edges, v);
        lemma_one::<S>(val);
        lemma_one_entry(val, x, (v, half));
        lemma_one_entry(val, x, (o, half));
        lemma_value_of_merged(val, x, front, seq![(v, half)], one_of());
        lemma_value_of_merged(val, x, merged(front, seq![(v, half)], one_of()), seq![(o, half)], one_of());
        assert(ends.drop_last() =~= reached(list.drop_last(), edges, v));
        assert(ends.last() == o);
        let h = val(half);
        assert(h == (1int as real) / (2int as real));
        let y = x(o);
        let hz = h * z;
        let hy = h * y;
        product_with_one(1 as real, hz);
        product_with_one(1 as real, hy);
        part_of(h, z);
        part_of(h, y);
        let m = (list.len() - 1) as real;
        assert((list.len() as int as real) == m + 1 as real);
        product_of_sum(z, m, 1 as real);
        product_with_one(1 as real, z);
    }
}

proof fn lemma_cc_shares(r: real, m: real, c: real, s: real, z: real)
    requires
        r > 0 as real,
        m > 0 as real,
    ensures
        ((1 as real) / r) * (((1 as real) / r) * c) + ((((2 as real) * ((1 as real) / m)) / r) * ((m * z + s) / (
        2 as real))) + ((r - (3 as real)) / r) * z == (c / r + 2 as real * ((z + s / m) / (2 as real)) + (r
            - 3 as real) * z) / r,
{
    let i = (1 as real) / r;
    let j = (1 as real) / m;
    let a = c / r;
    let b = s / m;
    let w = m * z + s;
    let k = ((2 as real) * j) / r;
    let d = (r - 3 as real) * z;
    let p = z + b;
    lemma_over(c, r);
    lemma_over(a, r);
    lemma_over(s, m);
    quotient_times(j, 1 as real, m);
    product_of_sum(j, m * z, s);
    product_of_three(j, m, z);
    product_with_one(j * m, z);
    assert(j * w == p);
    lemma_over((2 as real) * j, r);
    lemma_over(w, 2 as real);
    let h = w / (2 as real);
    product_of_three(i, (2 as real) * j, h);
    product_of_three(2 as real, j, h);
    product_of_three(j, 2 as real, h);
    assert(2 as real * h == w);
    assert(((2 as real) * j) * h == j * w);
    lemma_over(r - 3 as real, r);
    product_of_three(i, r - 3 as real, z);
    lemma_over(a + p + d, r);
    product_of_sum(i, a + p, d);
    product_of_sum(i, a, p);
    assert(k * h == i * p);
    assert(((r - 3 as real) / r) * z == i * d);
    assert(2 as real * (p / (2 as real)) == p);
}

/// To divide is to multiply by the inverse.
proof fn lemma_over(a: real, r: real)
    requires
        r > 0 as real,
    ensures
        a / r == ((1 as real) / r) * a,
{
    let i = (1 as real) / r;
    let q = a / r;
    quotient_times(q, a, r);
    quotient_times(i, 1 as real, r);
    product_of_three(i, q, r);
    product_of_three(q, i, r);
    product_with_one(i * r, q);
}

proof fn lemma_cc_smooth<S: Scalar>(
    val: spec_fn(S) -> real,
    x: spec_fn(u32) -> real,
    v: u32,
    faces: Seq<Seq<u32>>,
    edges: Seq<EdgeKey>,
    around: Seq<u32>,
    list: Seq<u32>,
)
    requires
        reads_exactly(val),
        0 < around.len() <= u32::MAX,
        0 < list.len() <= u32::MAX,
        forall|k: int| 0 <= k < around.len() ==> 0 < faces[#[trigger] around[k] as int].len() <= u32::MAX,
    ensures
        value(val, x, cc::smooth_vertex_row::<S>(v, faces, edges, around, list)) == cc_smooth_point(
            x,
            v,
            faces,
            around,
            reached(list, edges, v),
        ),
{
    let n = S::ratio_of(around.len() as u32, 1);
    let inv_n = S::over_of(one_of(), n);
    let inv_m = S::ratio_of(1, list.len() as u32);
    let none = Seq::<(u32, S)>::empty();
    let face_mean = faces_merged(none, around, faces, inv_n);
    let mids = cc::midpoints_merged::<S>(list, edges, v);
    let two = S::ratio_of(2, 1);
    let three = S::ratio_of(3, 1);
    let mid_share = S::over_of(S::times_of(two, inv_m), n);
    let own_share = S::over_of(S::minus_of(n, three), n);
    lemma_one::<S>(val);
    lemma_identity_value::<S>(val, x, v);
    lemma_faces_value(val, x, none, around, faces, inv_n);
    lemma_middles::<S>(val, x, list, edges, v);
    let one_row = merged(none, face_mean, inv_n);
    let two_row = merged(one_row, mids, mid_share);
    lemma_value_of_merged(val, x, none, face_mean, inv_n);
    lemma_value_of_merged(val, x, one_row, mids, mid_share);
    lemma_value_of_merged(val, x, two_row, identity_row::<S>(v), own_share);
    let r = around.len() as int as real;
    let m = list.len() as int as real;
    assert(val(n) == r / (1int as real));
    assert(val(n) == r);
    assert(val(inv_n) == (1 as real) / r);
    assert(val(inv_m) == (1int as real) / m);
    assert(val(two) == (2int as real) / (1int as real));
    assert(val(three) == (3int as real) / (1int as real));
    assert(val(mid_share) == (val(two) * val(inv_m)) / r);
    assert(val(own_share) == (r - val(three)) / r);
    lemma_cc_shares(r, m, centroids_at(x, faces, around), sum_at(x, reached(list, edges, v)), x(v));
}

/// The point that the scheme of Catmull and Clark makes of vertex `v`.
pub open spec fn cc_vertex_point<S: Scalar>(
    val: spec_fn(S) -> real,
    x: spec_fn(u32) -> real,
    level: LevelData<S>,
    options: SchemeOptions,
    v: u32,
) -> real {
    let t = level.topo;
    let at = v as int;
    let list = t.vertex_edges@[at];
    let corner = corner_sharpness(
        val,
        val(level.mesh.vertex_corners@[at]),
        options.auto_corner,
        list,
        t.edge_creases@,
    );
    let around = picked(t.vertex_faces@[at], level.face_selected@);
    let near = picked(list, level.edge_has_selected_face@);
    if corner >= 1 as real || around.len() == 0 {
        x(v)
    } else if t.vertex_is_boundary@[at] && options.boundary_interpolation != BoundaryInterpolation::Natural {
        let ends = reached(picked(list, t.edge_is_boundary@), t.edges(), v);
        if ends.len() < 2 || (options.boundary_interpolation == BoundaryInterpolation::EdgesAndCorners
            && t.vertex_faces@[at].len() <= 1) {
            x(v)
        } else {
            cornered_point(x, rim_point(x, v, ends), v, corner)
        }
    } else if near.len() == 0 {
        x(v)
    } else {
        let smooth = cc_smooth_point(x, v, t.faces@, around, reached(near, t.edges(), v));
        if sharp_ends_of(val, list, t.edges(), level.effective_edge_creases@, v).len() >= 2 {
            sharp_point(val, x, v, smooth, corner, list, t.edges(), level.effective_edge_creases@)
        } else {
            cornered_point(x, smooth, v, corner)
        }
    }
}

/// Where the sharp edges of a vertex lead.
pub open spec fn sharp_ends_of<S>(
    val: spec_fn(S) -> real,
    list: Seq<u32>,
    edges: Seq<EdgeKey>,
    creases: Seq<S>,
    v: u32,
) -> Seq<u32> {
    crate::points::sharp_ends(val, list, edges, creases, v, 0 as real)
}

proof fn lemma_cc_vertex_value<S: Scalar>(
    val: spec_fn(S) -> real,
    x: spec_fn(u32) -> real,
    level: LevelData<S>,
    options: SchemeOptions,
    v: u32,
)
    requires
        computes_exactly(val),
        level.wf(),
        v < level.n(),
    ensures
        value(val, x, cc::cc_vertex_row(level, options, v as int)) == cc_vertex_point(val, x, level, options, v),
{
    let t = level.topo;
    let at = v as int;
    lemma_fits(level);
    lemma_one::<S>(val);
    let list = t.vertex_edges@[at];
    assert(list.len() < u32::MAX);
    assert(t.vertex_faces@[at].len() <= u32::MAX);
    let corner = crate::rules::corner_at(
        level.mesh.vertex_corners@[at],
        options.auto_corner,
        list,
        t.edge_creases@,
    );
    lemma_corner_sharpness(val, level.mesh.vertex_corners@[at], options.auto_corner, list, t.edge_creases@);
    let around = picked(t.vertex_faces@[at], level.face_selected@);
    let near = picked(list, level.edge_has_selected_face@);
    lemma_picked(t.vertex_faces@[at], level.face_selected@);
    lemma_picked(list, level.edge_has_selected_face@);
    lemma_chosen(t.vertex_faces@[at], level.face_selected@, t.faces@.len() as int);
    lemma_chosen(list, level.edge_has_selected_face@, t.edges().len() as int);
    lemma_identity_value::<S>(val, x, v);
    lemma_flagged(list, t.edges(), t.edge_is_boundary@, v);
    let ends = reached(picked(list, t.edge_is_boundary@), t.edges(), v);
    if ends.len() >= 2 {
        lemma_rim_value::<S>(val, x, v, ends);
        let smooth = seq![(v, S::ratio_of(3, 4)), (ends[0], S::ratio_of(1, 8)), (ends[1], S::ratio_of(1, 8))];
        lemma_cornered_value(val, x, smooth, v, corner);
    }
    if around.len() > 0 && near.len() > 0 {
        assert forall|k: int| 0 <= k < around.len() implies 0 < t.faces@[#[trigger] around[k] as int].len()
            <= u32::MAX by {
            assert(around[k] < t.faces@.len());
            assert(t.faces@[around[k] as int].len() >= 3);
        }
        lemma_cc_smooth::<S>(val, x, v, t.faces@, t.edges(), around, near);
        let smooth = cc::smooth_vertex_row::<S>(v, t.faces@, t.edges(), around, near);
        let creases = level.effective_edge_creases@;
        lemma_sharp_value(val, x, v, smooth, corner, list, t.edges(), creases);
        lemma_cornered_value(val, x, smooth, v, corner);
        crate::points::lemma_sharp_count(val, list, t.edges(), creases, v);
    }
}

/// Where the points of a Catmull-Clark refinement lie, by what they were made from.
#[verifier::rlimit(60)]
pub proof fn catmull_clark_points<S: Scalar>(
    val: spec_fn(S) -> real,
    x: spec_fn(u32) -> real,
    options: SchemeOptions,
    boundary_crease: S,
    parent: LevelData<S>,
    child: LevelData<S>,
    i: int,
)
    requires
        computes_exactly(val),
        parent.wf(),
        cc_refines(parent, options, boundary_crease, child),
        0 <= i < child.n(),
    ensures
        i < cc::cc_rows(parent, options).len(),
        match child.lineage.vertex_origin@[i] {
            VertexOrigin::Face(f) => f < parent.topo.faces@.len() && value(val, x, cc::cc_rows(parent, options)[i])
                == mean_at(x, parent.topo.faces@[f as int]),
            VertexOrigin::Edge(e) => e < parent.topo.edges().len() && value(val, x, cc::cc_rows(parent, options)[i])
                == ({
                let t = parent.topo;
                let edge = t.edges()[e as int];
                let sides = t.edge_faces@[e as int];
                if sides.len() < 2 || !parent.edge_has_selected_face@[e as int] {
                    (x(edge.0) + x(edge.1)) / (2 as real)
                } else {
                    creased_point(
                        x,
                        cc_edge_point(
                            x,
                            edge,
                            t.faces@[sides[0] as int],
                            t.faces@[sides[1] as int],
                            parent.face_selected@[sides[0] as int],
                            parent.face_selected@[sides[1] as int],
                            options.triangle_subdivision_rule,
                        ),
                        edge,
                        val(parent.effective_edge_creases@[e as int]),
                    )
                }
            }),
            VertexOrigin::Vertex(v) => v < parent.n() && value(val, x, cc::cc_rows(parent, options)[i])
                == cc_vertex_point(val, x, parent, options, v),
        },
{
    let t = parent.topo;
    let nf = t.faces@.len() as int;
    let ne = t.edges().len() as int;
    let rows = cc::cc_rows(parent, options);
    lemma_fits(parent);
    if i < nf {
        assert(t.faces@[i].len() >= 3);
        lemma_face_value::<S>(val, x, t.faces@[i]);
        assert(rows[i] == face_row::<S>(t.faces@[i]));
    } else if i < nf + ne {
        let e = i - nf;
        let edge = t.edges()[e];
        let sides = t.edge_faces@[e];
        lemma_midpoint_value::<S>(val, x, edge);
        assert(rows[i] == cc::cc_edge_row(parent, options, e));
        if sides.len() >= 2 {
            assert(all_below(t.edge_faces@[e], nf));
            assert(sides[0] < nf && sides[1] < nf);
            let (a, b) = (t.faces@[sides[0] as int], t.faces@[sides[1] as int]);
            assert(a.len() >= 3 && b.len() >= 3);
            let ra = parent.face_selected@[sides[0] as int];
            let rb = parent.face_selected@[sides[1] as int];
            let rule = options.triangle_subdivision_rule;
            lemma_cc_edge_value::<S>(val, x, edge, a, b, ra, rb, rule);
            lemma_creased_value(
                val,
                x,
                cc::smooth_edge_row::<S>(edge, a, b, ra, rb, rule),
                edge,
                parent.effective_edge_creases@[e],
            );
        }
    } else {
        let v = (i - nf - ne) as u32;
        assert(rows[i] == cc::cc_vertex_row(parent, options, v as int));
        lemma_cc_vertex_value(val, x, parent, options, v);
    }
}

// ---------------------------------------------------------------------------
// Sqrt(3)
// ---------------------------------------------------------------------------
/// A vertex among `n` centroids: the share of their mean is `(4 - 2 cos(1/n turn)) / 9`.
pub open spec fn sqrt3_smooth_point<S: Scalar>(
    val: spec_fn(S) -> real,
    x: spec_fn(u32) -> real,
    v: u32,
    faces: Seq<Seq<u32>>,
    around: Seq<u32>,
) -> real {
    let share = (4 as real - 2 as real * val(S::cos_turn_of(1, around.len() as u64))) / (9 as real);
    (1 as real - share) * x(v) + share * (centroids_at(x, faces, around) / (around.len() as int as real))
}

proof fn lemma_sqrt3_smooth<S: Scalar>(
    val: spec_fn(S) -> real,
    x: spec_fn(u32) -> real,
    v: u32,
    faces: Seq<Seq<u32>>,
    around: Seq<u32>,
)
    requires
        reads_exactly(val),
        0 < around.len() <= u32::MAX,
        forall|k: int| 0 <= k < around.len() ==> 0 < faces[#[trigger] around[k] as int].len() <= u32::MAX,
    ensures
        value(val, x, s3::smooth_vertex_row::<S>(v, faces, around)) == sqrt3_smooth_point::<S>(
            val,
            x,
            v,
            faces,
            around,
        ),
{
    lemma_one::<S>(val);
    let alpha = s3::alpha_of::<S>(around.len());
    let n = S::ratio_of(around.len() as u32, 1);
    let own = S::minus_of(one_of(), alpha);
    let w = S::over_of(alpha, n);
    lemma_one_entry(val, x, (v, own));
    lemma_faces_value(val, x, seq![(v, own)], around, faces, w);
    let cos = S::cos_turn_of(1, around.len() as u64);
    let (two, four, nine) = (S::ratio_of(2, 1), S::ratio_of(4, 1), S::ratio_of(9, 1));
    assert(val(two) == (2int as real) / (1int as real));
    assert(val(four) == (4int as real) / (1int as real));
    assert(val(nine) == (9int as real) / (1int as real));
    let c = val(cos);
    let t = val(two);
    assert(val(S::times_of(two, cos)) == t * c);
    part_of(t, c);
    let top = S::minus_of(four, S::times_of(two, cos));
    assert(val(top) == 4 as real - 2 as real * c);
    assert(val(alpha) == (4 as real - 2 as real * c) / (9 as real));
    let r = around.len() as int as real;
    assert(val(n) == r / (1int as real));
    let a = val(alpha);
    let s = centroids_at(x, faces, around);
    assert(val(w) == a / r);
    let i = (1 as real) / r;
    lemma_over(a, r);
    lemma_over(s, r);
    product_of_three(i, a, s);
    product_of_three(a, i, s);
}

/// The point that the sqrt(3) scheme makes of vertex `v`.
pub open spec fn sqrt3_vertex_point<S: Scalar>(
    val: spec_fn(S) -> real,
    x: spec_fn(u32) -> real,
    level: LevelData<S>,
    options: SchemeOptions,
    v: u32,
) -> real {
    let t = level.topo;
    let at = v as int;
    let list = t.vertex_edges@[at];
    let corner = corner_sharpness(
        val,
        val(level.mesh.vertex_corners@[at]),
        options.auto_corner,
        list,
        level.effective_edge_creases@,
    );
    let around = picked(t.vertex_faces@[at], level.face_selected@);
    if corner >= 1 as real || around.len() == 0 {
        x(v)
    } else if t.vertex_is_boundary@[at] {
        let ends = reached(picked(list, t.edge_is_boundary@), t.edges(), v);
        if ends.len() < 2 {
            x(v)
        } else {
            cornered_point(x, rim_point(x, v, ends), v, corner)
        }
    } else {
        sharp_point(
            val,
            x,
            v,
            sqrt3_smooth_point::<S>(val, x, v, t.faces@, around),
            corner,
            list,
            t.edges(),
            level.effective_edge_creases@,
        )
    }
}

/// Where the points of a sqrt(3) refinement lie, by what they were made from.
#[verifier::rlimit(60)]
pub proof fn sqrt3_points<S: Scalar>(
    val: spec_fn(S) -> real,
    x: spec_fn(u32) -> real,
    options: SchemeOptions,
    boundary_crease: S,
    parent: LevelData<S>,
    child: LevelData<S>,
    i: int,
)
    requires
        computes_exactly(val),
        parent.wf(),
        sqrt3_refines(parent, options, boundary_crease, child),
        0 <= i < child.n(),
    ensures
        i < s3::sqrt3_rows(parent, options).len(),
        match child.lineage.vertex_origin@[i] {
            VertexOrigin::Face(f) => f < parent.topo.faces@.len() && value(val, x, s3::sqrt3_rows(parent, options)[i])
                == mean_at(x, parent.topo.faces@[f as int]),
            VertexOrigin::Vertex(v) => v < parent.n() && value(val, x, s3::sqrt3_rows(parent, options)[i])
                == sqrt3_vertex_point(val, x, parent, options, v),
            VertexOrigin::Edge(_) => false,
        },
{
    let t = parent.topo;
    let nf = t.faces@.len() as int;
    let rows = s3::sqrt3_rows(parent, options);
    lemma_fits(parent);
    lemma_one::<S>(val);
    if i < nf {
        assert(t.faces@[i].len() >= 3);
        lemma_face_value::<S>(val, x, t.faces@[i]);
        assert(rows[i] == face_row::<S>(t.faces@[i]));
    } else {
        let at = i - nf;
        let v = at as u32;
        assert(rows[i] == s3::sqrt3_vertex_row(parent, options, at));
        let list = t.vertex_edges@[at];
        assert(list.len() < u32::MAX);
        assert(t.vertex_faces@[at].len() <= u32::MAX);
        let creases = parent.effective_edge_creases@;
        let corner = crate::rules::corner_at(
            parent.mesh.vertex_corners@[at],
            options.auto_corner,
            list,
            creases,
        );
        lemma_corner_sharpness(val, parent.mesh.vertex_corners@[at], options.auto_corner, list, creases);
        let around = picked(t.vertex_faces@[at], parent.face_selected@);
        lemma_picked(t.vertex_faces@[at], parent.face_selected@);
        lemma_chosen(t.vertex_faces@[at], parent.face_selected@, t.faces@.len() as int);
        lemma_identity_value::<S>(val, x, v);
        lemma_flagged(list, t.edges(), t.edge_is_boundary@, v);
        let ends = reached(picked(list, t.edge_is_boundary@), t.edges(), v);
        if ends.len() >= 2 {
            lemma_rim_value::<S>(val, x, v, ends);
            let q = S::ratio_of(1, 8);
            let smooth = merged(
                merged(seq![(v, S::ratio_of(3, 4))], seq![(ends[0], q)], one_of()),
                seq![(ends[1], q)],
                one_of(),
            );
            lemma_cornered_value(val, x, smooth, v, corner);
        }
        if around.len() > 0 {
            assert forall|k: int| 0 <= k < around.len() implies 0 < t.faces@[#[trigger] around[k] as int].len()
                <= u32::MAX by {
                assert(around[k] < t.faces@.len());
                assert(t.faces@[around[k] as int].len() >= 3);
            }
            lemma_sqrt3_smooth::<S>(val, x, v, t.faces@, around);
            let smooth = s3::smooth_vertex_row::<S>(v, t.faces@, around);
            lemma_sharp_value(val, x, v, smooth, corner, list, t.edges(), creases);
        }
    }
}

} // verus!
