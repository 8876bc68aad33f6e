//! What Loop's scheme makes of the points of a mesh.

use crate::catmull_clark::stencils as cc;
use crate::doo_sabin::stencils as ds;
use crate::hashing::EdgeKey;
use crate::level::LevelData;
use crate::loop_subdivision::refine::{loop_refines, loop_wf};
use crate::loop_subdivision::stencils as lp;
use crate::means::lemma_value_of_merged;
use crate::options::SchemeOptions;
use crate::output::VertexOrigin;
use crate::points::{
    across, computes_exactly, cornered_point, creased_point, lemma_cornered_value, lemma_creased_value, lemma_flagged,
    lemma_identity_value, lemma_midpoint_value, lemma_one_entry, lemma_picked, lemma_sharp_value, lemma_three_entries,
    mean_at, picked, reached, sharp_point, sum_at,
};
use crate::rules::{first_off_edge, opposite_of};
use crate::scalar::{one_of, Scalar};
use crate::sharpness::other_end;
use crate::sqrt3::stencils as s3;
use crate::stencil::merged;
use crate::topology::all_below;
use crate::unity::value;
use crate::weights::{lemma_one, reads_exactly};
use vstd::prelude::*;

verus! {

/// The sizes of the lists of a level fit its numbers.
pub(crate) proof fn lemma_fits<S: Scalar>(level: LevelData<S>)
    requires
        level.wf(),
    ensures
        forall|f: int|
            0 <= f < level.topo.faces@.len() ==> 3 <= (#[trigger] level.topo.faces@[f]).len() <= u32::MAX,
        forall|v: int|
            0 <= v < level.n() ==> (#[trigger] level.topo.vertex_faces@[v]).len() <= u32::MAX && all_below(
                level.topo.vertex_faces@[v],
                level.topo.faces@.len() as int,
            ),
        forall|v: int|
            0 <= v < level.n() ==> (#[trigger] level.topo.vertex_edges@[v]).len() < u32::MAX && all_below(
                level.topo.vertex_edges@[v],
                level.topo.edges().len() as int,
            ),
{
    let t = level.topo;
    assert forall|f: int| 0 <= f < t.faces@.len() implies 3 <= (#[trigger] t.faces@[f]).len() <= u32::MAX by {
        crate::csr::lemma_row_within_flat(t.faces@, f);
    }
    crate::csr::lemma_packed_fits(t.vertex_faces);
    assert forall|v: int| 0 <= v < level.n() implies (#[trigger] t.vertex_faces@[v]).len() <= u32::MAX && all_below(
        t.vertex_faces@[v],
        t.faces@.len() as int,
    ) by {
        crate::csr::lemma_row_within_flat(t.vertex_faces@, v);
    }
}

/// A boundary vertex on a cubic spline through its first two boundary neighbours.
pub open spec fn rim_point(x: spec_fn(u32) -> real, v: u32, ends: Seq<u32>) -> real {
    (6 as real * x(v) + x(ends[0]) + x(ends[1])) / (8 as real)
}

proof fn lemma_rim(p: real, q: real, a: real, b: real, c: real)
    requires
        p == (3 as real) / (4 as real),
        q == (1 as real) / (8 as real),
    ensures
        p * a + q * b + q * c == (6 as real * a + b + c) / (8 as real),
{
    assert(p * a + q * b + q * c == (6 as real * a + b + c) / (8 as real)) by (nonlinear_arith)
        requires
            p == (3 as real) / (4 as real),
            q == (1 as real) / (8 as real),
    ;
}

pub(crate) proof fn lemma_rim_value<S: Scalar>(val: spec_fn(S) -> real, x: spec_fn(u32) -> real, v: u32, ends: Seq<u32>)
    requires
        reads_exactly(val),
        ends.len() >= 2,
    ensures
        value(
            val,
            x,
            seq![(v, S::ratio_of(3, 4)), (ends[0], S::ratio_of(1, 8)), (ends[1], S::ratio_of(1, 8))],
        ) == rim_point(x, v, ends),
        value(
            val,
            x,
            merged(
                merged(seq![(v, S::ratio_of(3, 4))], seq![(ends[0], S::ratio_of(1, 8))], one_of()),
                seq![(ends[1], S::ratio_of(1, 8))],
                one_of(),
            ),
        ) == rim_point(x, v, ends),
{
    let p = S::ratio_of(3, 4);
    let q = S::ratio_of(1, 8);
    lemma_one::<S>(val);
    lemma_three_entries(val, x, (v, p), (ends[0], q), (ends[1], q));
    assert(val(p) == (3int as real) / (4int as real));
    assert(val(q) == (1int as real) / (8int as real));
    lemma_rim(val(p), val(q), x(v), x(ends[0]), x(ends[1]));
    lemma_one_entry(val, x, (v, p));
    lemma_one_entry(val, x, (ends[0], q));
    lemma_one_entry(val, x, (ends[1], q));
    lemma_value_of_merged(val, x, seq![(v, p)], seq![(ends[0], q)], one_of());
    lemma_value_of_merged(
        val,
        x,
        merged(seq![(v, p)], seq![(ends[0], q)], one_of()),
        seq![(ends[1], q)],
        one_of(),
    );
    let a = val(q) * x(ends[0]);
    let b = val(q) * x(ends[1]);
    assert((1 as real) * a == a) by (nonlinear_arith);
    assert((1 as real) * b == b) by (nonlinear_arith);
}

// ---------------------------------------------------------------------------
// Loop
// ---------------------------------------------------------------------------
/// The first corner of a face, from corner `k` on, that is no end of an edge.
pub open spec fn off_edge(face: Seq<u32>, edge: EdgeKey, k: int) -> Option<u32>
    decreases face.len() - k,
{
    if k < 0 || k >= face.len() {
        None
    } else if face[k] != edge.0 && face[k] != edge.1 {
        Some(face[k])
    } else {
        off_edge(face, edge, k + 1)
    }
}

proof fn lemma_off_edge(face: Seq<u32>, edge: EdgeKey, k: int)
    requires
        0 <= k <= face.len(),
        forall|q: int| 0 <= q < k ==> (#[trigger] face[q]) == edge.0 || face[q] == edge.1,
    ensures
        off_edge(face, edge, k) == opposite_of(face, edge),
    decreases face.len() - k,
{
    if k == face.len() {
        if exists|p: int| first_off_edge(face, edge, p) {
            let p = choose|p: int| first_off_edge(face, edge, p);
            assert(face[p] == edge.0 || face[p] == edge.1);
        }
    } else if face[k] != edge.0 && face[k] != edge.1 {
        assert(first_off_edge(face, edge, k));
        let p = choose|p: int| first_off_edge(face, edge, p);
        assert(p == k) by {
            if p > k {
                assert(face[k] == edge.0 || face[k] == edge.1);
            }
        }
    } else {
        lemma_off_edge(face, edge, k + 1);
    }
}

/// Three eighths of each end of an edge and an eighth of what lies across on each side.
pub open spec fn loop_edge_point(x: spec_fn(u32) -> real, edge: EdgeKey, a: Seq<u32>, b: Seq<u32>) -> real {
    match (off_edge(a, edge, 0), off_edge(b, edge, 0)) {
        (Some(o), Some(p)) => (3 as real * (x(edge.0) + x(edge.1)) + x(o) + x(p)) / (8 as real),
        _ => (x(edge.0) + x(edge.1)) / (2 as real),
    }
}

proof fn lemma_loop_edge_value<S: Scalar>(
    val: spec_fn(S) -> real,
    x: spec_fn(u32) -> real,
    edge: EdgeKey,
    a: Seq<u32>,
    b: Seq<u32>,
)
    requires
        reads_exactly(val),
    ensures
        value(val, x, lp::smooth_edge_row::<S>(edge, a, b)) == loop_edge_point(x, edge, a, b),
{
    lemma_off_edge(a, edge, 0);
    lemma_off_edge(b, edge, 0);
    lemma_midpoint_value::<S>(val, x, edge);
    match (off_edge(a, edge, 0), off_edge(b, edge, 0)) {
        (Some(o), Some(p)) => {
            let t = S::ratio_of(3, 8);
            let e = S::ratio_of(1, 8);
            let row = seq![(edge.0, t), (edge.1, t), (o, e), (p, e)];
            lemma_three_entries(val, x, (edge.0, t), (edge.1, t), (o, e));
            assert(row.drop_last() =~= seq![(edge.0, t), (edge.1, t), (o, e)]);
            let (r, s) = (val(t), val(e));
            assert(r == (3int as real) / (8int as real));
            assert(s == (1int as real) / (8int as real));
            let (h, i, j, k) = (x(edge.0), x(edge.1), x(o), x(p));
            assert(r * h + r * i + s * j + s * k == (3 as real * (h + i) + j + k) / (8 as real)) by (nonlinear_arith)
                requires
                    r == (3 as real) / (8 as real),
                    s == (1 as real) / (8 as real),
            ;
        },
        _ => {},
    }
}

/// A vertex among `n` neighbours: seven sixteenths of it if they are three, else five
/// eighths; the rest comes evenly from the neighbours.
pub open spec fn loop_smooth_point(x: spec_fn(u32) -> real, v: u32, ends: Seq<u32>) -> real {
    if ends.len() == 3 {
        (7 as real * x(v) + 9 as real * mean_at(x, ends)) / (16 as real)
    } else {
        (5 as real * x(v) + 3 as real * mean_at(x, ends)) / (8 as real)
    }
}

proof fn lemma_neighbors_value<S: Scalar>(
    val: spec_fn(S) -> real,
    x: spec_fn(u32) -> real,
    base: Seq<(u32, S)>,
    list: Seq<u32>,
    edges: Seq<EdgeKey>,
    v: u32,
    w: S,
)
    requires
        reads_exactly(val),
    ensures
        value(val, x, lp::neighbors_merged(base, list, edges, v, w)) == value(val, x, base) + val(w) * sum_at(
            x,
            reached(list, edges, v),
        ),
    decreases list.len(),
{
    let r = val(w);
    let ends = reached(list, edges, v);
    if list.len() == 0 {
        assert(sum_at(x, ends) == 0 as real);
        assert(r * (0 as real) == 0 as real) by (nonlinear_arith);
    } else {
        let front = list.drop_last();
        lemma_neighbors_value(val, x, base, front, edges, v, w);
        lemma_one::<S>(val);
        let o = across(edges[list.last() as int], v);
        assert(o == other_end(edges[list.last() as int], v));
        lemma_one_entry(val, x, (o, w));
        lemma_value_of_merged(val, x, lp::neighbors_merged(base, front, edges, v, w), seq![(o, w)], one_of());
        assert(ends.drop_last() =~= reached(front, edges, v));
        assert(ends.last() == o);
        let a = sum_at(x, reached(front, edges, v));
        let z = x(o);
        let rz = r * z;
        assert((1 as real) * rz == rz) by (nonlinear_arith);
        assert(r * (a + z) == r * a + r * z) by (nonlinear_arith);
    }
}

proof fn lemma_loop_smooth<S: Scalar>(
    val: spec_fn(S) -> real,
    x: spec_fn(u32) -> real,
    v: u32,
    list: Seq<u32>,
    edges: Seq<EdgeKey>,
)
    requires
        reads_exactly(val),
        0 < list.len() <= u32::MAX,
    ensures
        value(val, x, lp::smooth_vertex_row::<S>(v, list, edges)) == loop_smooth_point(x, v, reached(list, edges, v)),
{
    lemma_one::<S>(val);
    let n = S::ratio_of(list.len() as u32, 1);
    let beta = lp::beta_of::<S>(list.len());
    let own = S::minus_of(one_of(), S::times_of(n, beta));
    lemma_one_entry(val, x, (v, own));
    lemma_neighbors_value(val, x, seq![(v, own)], list, edges, v, beta);
    let r = list.len() as int as real;
    let b = val(beta);
    let s = sum_at(x, reached(list, edges, v));
    let z = x(v);
    assert(val(n) == r / (1int as real));
    assert(val(n) == r);
    assert(val(S::times_of(n, beta)) == r * b);
    assert(val(own) == 1 as real - r * b);
    let o = val(own);
    if list.len() == 3 {
        assert(b == (3int as real) / (16int as real));
        assert(o == (7 as real) / (16 as real)) by (nonlinear_arith)
            requires
                o == 1 as real - r * b,
                r == 3 as real,
                b == (3 as real) / (16 as real),
        ;
        assert(o * z + b * s == (7 as real * z + 9 as real * (s / r)) / (16 as real)) by (nonlinear_arith)
            requires
                o == (7 as real) / (16 as real),
                b == (3 as real) / (16 as real),
                r == 3 as real,
        ;
    } else {
        let three = S::ratio_of(3, 1);
        let eight = S::ratio_of(8, 1);
        assert(val(three) == (3int as real) / (1int as real));
        assert(val(eight) == (8int as real) / (1int as real));
        let d = val(S::times_of(eight, n));
        assert(d == val(eight) * r);
        assert(d == 8 as real * r && d != 0 as real) by (nonlinear_arith)
            requires
                d == val(eight) * r,
                val(eight) == 8 as real,
                r > 0 as real,
        ;
        assert(b == val(three) / d);
        assert(r * b == (3 as real) / (8 as real)) by (nonlinear_arith)
            requires
                b == (3 as real) / d,
                d == 8 as real * r,
                r > 0 as real,
        ;
        assert(o == (5 as real) / (8 as real));
        let m = s / r;
        assert(m * r == s) by (nonlinear_arith)
            requires
                m == s / r,
                r > 0 as real,
        ;
        assert(b * s == ((3 as real) / (8 as real)) * m) by (nonlinear_arith)
            requires
                m * r == s,
                r * b == (3 as real) / (8 as real),
        ;
        assert(o * z + b * s == (5 as real * z + 3 as real * m) / (8 as real)) by (nonlinear_arith)
            requires
                o == (5 as real) / (8 as real),
                b * s == ((3 as real) / (8 as real)) * m,
        ;
    }
}

/// The point that Loop's scheme makes of vertex `v`.
pub open spec fn loop_vertex_point<S: Scalar>(
    val: spec_fn(S) -> real,
    x: spec_fn(u32) -> real,
    level: LevelData<S>,
    v: u32,
) -> real {
    let t = level.topo;
    let list = t.vertex_edges@[v as int];
    let corner = val(level.effective_vertex_corners@[v as int]);
    if corner >= 1 as real || picked(t.vertex_faces@[v as int], level.face_selected@).len() == 0 {
        x(v)
    } else if t.vertex_is_boundary@[v as int] {
        let ends = reached(picked(list, t.edge_is_boundary@), t.edges(), v);
        if ends.len() < 2 {
            x(v)
        } else {
            cornered_point(x, rim_point(x, v, ends), v, corner)
        }
    } else if list.len() == 0 {
        x(v)
    } else {
        sharp_point(
            val,
            x,
            v,
            loop_smooth_point(x, v, reached(list, t.edges(), v)),
            corner,
            list,
            t.edges(),
            level.effective_edge_creases@,
        )
    }
}

/// Where the points of a Loop refinement lie, by what they were made from.
#[verifier::rlimit(60)]
pub proof fn loop_points<S: Scalar>(
    val: spec_fn(S) -> real,
    x: spec_fn(u32) -> real,
    options: SchemeOptions,
    boundary_crease: S,
    parent: LevelData<S>,
    child: LevelData<S>,
    i: int,
)
    requires
        computes_exactly(val),
        loop_wf(parent),
        loop_refines(parent, options, boundary_crease, child),
        0 <= i < child.n(),
    ensures
        i < lp::loop_rows(parent).len(),
        match child.lineage.vertex_origin@[i] {
            VertexOrigin::Vertex(v) => v < parent.n() && value(val, x, lp::loop_rows(parent)[i]) == loop_vertex_point(
                val,
                x,
                parent,
                v,
            ),
            VertexOrigin::Edge(e) => e < parent.topo.edges().len() && value(val, x, lp::loop_rows(parent)[i]) == ({
                let t = parent.topo;
                let edge = t.edges()[e as int];
                let sides = t.edge_faces@[e as int];
                if sides.len() < 2 || !parent.edge_has_selected_face@[e as int] {
                    (x(edge.0) + x(edge.1)) / (2 as real)
                } else {
                    creased_point(
                        x,
                        loop_edge_point(x, edge, t.faces@[sides[0] as int], t.faces@[sides[1] as int]),
                        edge,
                        val(parent.effective_edge_creases@[e as int]),
                    )
                }
            }),
            VertexOrigin::Face(_) => false,
        },
{
    let t = parent.topo;
    let ne = t.edges().len() as int;
    lemma_fits(parent);
    lemma_one::<S>(val);
    if i < ne {
        let edge = t.edges()[i];
        let sides = t.edge_faces@[i];
        lemma_midpoint_value::<S>(val, x, edge);
        if sides.len() >= 2 {
            let (a, b) = (t.faces@[sides[0] as int], t.faces@[sides[1] as int]);
            lemma_loop_edge_value::<S>(val, x, edge, a, b);
            lemma_creased_value(
                val,
                x,
                lp::smooth_edge_row::<S>(edge, a, b),
                edge,
                parent.effective_edge_creases@[i],
            );
        }
        assert(lp::loop_rows(parent)[i] == lp::loop_edge_row(parent, i));
    } else {
        let v = i - ne;
        let vi = v as u32;
        let list = t.vertex_edges@[v];
        assert(list.len() < u32::MAX);
        let corner = parent.effective_vertex_corners@[v];
        lemma_identity_value::<S>(val, x, vi);
        lemma_picked(t.vertex_faces@[v], parent.face_selected@);
        lemma_flagged(list, t.edges(), t.edge_is_boundary@, vi);
        let ends = reached(picked(list, t.edge_is_boundary@), t.edges(), vi);
        if ends.len() >= 2 {
            lemma_rim_value::<S>(val, x, vi, ends);
            let smooth = seq![(vi, S::ratio_of(3, 4)), (ends[0], S::ratio_of(1, 8)), (ends[1], S::ratio_of(1, 8))];
            lemma_cornered_value(val, x, smooth, vi, corner);
            assert(crate::sharpness::positive(corner) <==> val(corner) > 0 as real);
            let r = rim_point(x, vi, ends);
            let z = x(vi);
            assert((1 as real - 0 as real) * r + (0 as real) * z == r) by (nonlinear_arith);
        }
        if list.len() > 0 {
            lemma_loop_smooth::<S>(val, x, vi, list, t.edges());
            lemma_sharp_value(
                val,
                x,
                vi,
                lp::smooth_vertex_row::<S>(vi, list, t.edges()),
                corner,
                list,
                t.edges(),
                parent.effective_edge_creases@,
            );
        }
        assert(lp::loop_rows(parent)[i] == lp::loop_vertex_row(parent, v));
    }
}

} // verus!
