//! How the edges of a mesh run through the levels of a refinement.

use crate::base::{is_base, level_ok};
use crate::catmull_clark::refine::{cc_origins, cc_refines};
use crate::connectivity::{
    corner_keys, distinct, edge_key_of, face_keys, key_labels, lemma_distinct, lemma_flat_at, next_corner, pairs,
    prev_corner,
};
use crate::hashing::EdgeKey;
use crate::incidence::{lemma_flat_locate, Topology};
use crate::level::{all_true, inherited_selection, LevelData};
use crate::loop_subdivision::refine::{loop_origins, loop_refines};
use crate::options::{Scheme, SchemeOptions, UniformRefine};
use crate::output::VertexOrigin;
use crate::refiner::{
    chain, edge_lines, last_with_key, last_with_origin, moved_point, refined_polyline, refined_segments, refines,
    split_point, step_fault, traced, Refinement, Refiner,
};
use crate::rows::{flat, row_start};
use crate::scalar::Scalar;
use vstd::prelude::*;

verus! {

/// A side of a face runs between two vertices.
pub open spec fn on_face(faces: Seq<Seq<u32>>, a: u32, b: u32) -> bool {
    exists|f: int, c: int|
        0 <= f < faces.len() && 0 <= c < faces[f].len() && #[trigger] face_keys(faces[f])[c] == edge_key_of(a, b)
}

/// Every edge is a side of a face.
spec fn edges_on_faces<S: Scalar>(t: Topology<S>) -> bool {
    forall|e: int| 0 <= e < t.edges().len() ==> #[trigger] edge_on_face(t, e)
}

spec fn edge_on_face<S: Scalar>(t: Topology<S>, e: int) -> bool {
    exists|f: int, c: int|
        0 <= f < t.faces@.len() && 0 <= c < t.faces@[f].len() && #[trigger] t.face_edges@[f][c] == e
}

proof fn lemma_edges_on_faces<S: Scalar>(t: Topology<S>, faces: Seq<Seq<u32>>, labels: Seq<int>, n: nat)
    requires
        t.describes_edges(faces, labels, n),
    ensures
        edges_on_faces(t),
{
    let ids = flat(t.face_edges@);
    lemma_distinct(labels);
    assert forall|e: int| 0 <= e < t.edges().len() implies #[trigger] edge_on_face(t, e) by {
        let label = distinct(labels)[e];
        assert(distinct(labels).contains(label));
        let i = labels.index_of(label);
        assert(distinct(labels)[ids[i] as int] == labels[i]);
        assert(ids[i] == e);
        let (f, c) = lemma_flat_locate(t.face_edges@, i);
        assert(t.face_edges@[f][c] == e);
    }
}

/// An item that stands in one place is found there.
proof fn lemma_origin_at(origins: Seq<VertexOrigin>, origin: VertexOrigin, i: int)
    requires
        0 <= i < origins.len(),
        origins[i] == origin,
        forall|j: int| 0 <= j < origins.len() && j != i ==> origins[j] != origin,
    ensures
        last_with_origin(origins, origin) == Some(i as u32),
    decreases origins.len(),
{
    if i < origins.len() - 1 {
        lemma_origin_at(origins.drop_last(), origin, i);
    }
}

/// An edge of a list is found by its end points.
proof fn lemma_key_found(edges: Seq<EdgeKey>, e: int)
    requires
        0 <= e < edges.len(),
        forall|k: int| 0 <= k < edges.len() ==> (#[trigger] edges[k]).0 < edges[k].1,
    ensures
        ({
            let found = last_with_key(edges, edges[e]);
            found is Some && 0 <= found->Some_0 < edges.len() && edges[found->Some_0] == edges[e]
        }),
    decreases edges.len(),
{
    let last = edges.len() - 1;
    assert(edges[last].0 < edges[last].1);
    if edges[last] != edges[e] {
        let front = edges.drop_last();
        assert forall|k: int| 0 <= k < front.len() implies (#[trigger] front[k]).0 < front[k].1 by {
            assert(edges[k] == front[k]);
        }
        lemma_key_found(front, e);
    }
}

/// An edge is split: its point and its ends lie on sides of refined faces.
spec fn splits(origins: Seq<VertexOrigin>, edges: Seq<EdgeKey>, n: u32, faces: Seq<Seq<u32>>, a: u32, b: u32) -> bool {
    let mid = split_point(origins, edges, a, b);
    &&& mid.len() == 1
    &&& on_face(faces, moved_point(origins, n, a), mid[0])
    &&& on_face(faces, mid[0], moved_point(origins, n, b))
}

/// An edge of a face, by number, with the corner it leaves.
proof fn lemma_edge_of_side<S: Scalar>(t: Topology<S>, n: nat, a: u32, b: u32) -> (r: (int, int, int))
    requires
        t.sound(n),
        edges_on_faces(t),
        on_face(t.faces@, a, b),
    ensures
        last_with_key(t.edges(), edge_key_of(a, b)) == Some(r.0),
        0 <= r.0 < t.edges().len(),
        t.edges()[r.0] == edge_key_of(a, b),
        0 <= r.1 < t.faces@.len(),
        0 <= r.2 < t.faces@[r.1].len(),
        t.face_edges@[r.1].len() == t.faces@[r.1].len(),
        t.face_edges@[r.1][r.2] == r.0,
        face_keys(t.faces@[r.1])[r.2] == edge_key_of(a, b),
        a < n,
        b < n,
{
    let (g, d) = choose|g: int, d: int|
        0 <= g < t.faces@.len() && 0 <= d < t.faces@[g].len() && #[trigger] face_keys(t.faces@[g])[d] == edge_key_of(
            a,
            b,
        );
    let e0 = t.face_edges@[g][d] as int;
    assert(t.face_edges@[g].len() == t.faces@[g].len());
    assert(t.face_edges@[g][d] < t.edges().len());
    assert(t.edges()[t.face_edges@[g][d] as int] == face_keys(t.faces@[g])[d]);
    lemma_key_found(t.edges(), e0);
    let e = last_with_key(t.edges(), edge_key_of(a, b))->Some_0;
    assert(edge_on_face(t, e));
    let (f, c) = choose|f: int, c: int|
        0 <= f < t.faces@.len() && 0 <= c < t.faces@[f].len() && #[trigger] t.face_edges@[f][c] == e;
    assert(t.edges()[t.face_edges@[f][c] as int] == face_keys(t.faces@[f])[c]);
    assert(t.face_edges@[f].len() == t.faces@[f].len());
    assert(t.edges()[e].0 < t.edges()[e].1 && t.edges()[e].1 < n);
    (e, f, c)
}

proof fn lemma_cc_point_splits(p: crate::catmull_clark::topology::Parent, e: int, f: int, c: int, a: u32, b: u32)
    requires
        last_with_key(p.edges, edge_key_of(a, b)) == Some(e),
        0 <= e < p.edges.len(),
        0 <= f < p.faces.len(),
        0 <= c < p.faces[f].len(),
        p.face_edges[f].len() == p.faces[f].len(),
        p.face_edges[f][c] == e,
        face_keys(p.faces[f])[c] == edge_key_of(a, b),
        a < p.vertex_count,
        b < p.vertex_count,
        p.refined_vertex_count() <= u32::MAX,
    ensures
        splits(cc_origins(p), p.edges, p.vertex_count as u32, p.quads(), a, b),
{
    let origins = cc_origins(p);
    let nf = p.faces.len() as int;
    let ne = p.edges.len() as int;
    lemma_origin_at(origins, VertexOrigin::Edge(e as u32), nf + e);
    lemma_origin_at(origins, VertexOrigin::Vertex(a), nf + ne + a);
    lemma_origin_at(origins, VertexOrigin::Vertex(b), nf + ne + b);
    let face = p.faces[f];
    let n = face.len() as int;
    let d = next_corner(c, n);
    assert(prev_corner(d, n) == c);
    let rows = p.quad_rows();
    lemma_flat_at(rows, f, c);
    lemma_flat_at(rows, f, d);
    let one = row_start(rows, f) + c;
    let two = row_start(rows, f) + d;
    let quads = p.quads();
    assert(quads[one] == p.quad(f, c));
    assert(quads[two] == p.quad(f, d));
    let mid = p.edge_point(e);
    let from = p.vertex_point(face[c] as int);
    let to = p.vertex_point(face[d] as int);
    assert(face_keys(quads[one])[2] == edge_key_of(from, mid));
    assert(face_keys(quads[two])[1] == edge_key_of(mid, to));
    assert(on_face(quads, from, mid));
    assert(on_face(quads, mid, to));
    lemma_turned(quads, from, mid);
    lemma_turned(quads, mid, to);
}

proof fn lemma_cc_splits<S: Scalar>(
    options: SchemeOptions,
    boundary_crease: S,
    parent: LevelData<S>,
    child: LevelData<S>,
    a: u32,
    b: u32,
)
    requires
        parent.wf(),
        all_true(parent.face_selected@),
        cc_refines(parent, options, boundary_crease, child),
        edges_on_faces(parent.topo),
        on_face(parent.topo.faces@, a, b),
    ensures
        splits(
            child.lineage.vertex_origin@,
            parent.topo.edges(),
            parent.mesh.vertex_count,
            child.topo.faces@,
            a,
            b,
        ),
{
    let p = crate::catmull_clark::topology::parent_of(parent.topo, parent.n());
    crate::catmull_clark::refine::lemma_all_selected(p, parent.face_selected@);
    let (e, f, c) = lemma_edge_of_side(parent.topo, parent.n(), a, b);
    lemma_cc_point_splits(p, e, f, c, a, b);
}

proof fn lemma_turned(faces: Seq<Seq<u32>>, a: u32, b: u32)
    requires
        on_face(faces, a, b),
    ensures
        on_face(faces, b, a),
{
    let (f, c) = choose|f: int, c: int|
        0 <= f < faces.len() && 0 <= c < faces[f].len() && #[trigger] face_keys(faces[f])[c] == edge_key_of(a, b);
    assert(face_keys(faces[f])[c] == edge_key_of(b, a));
}

proof fn lemma_loop_point_splits(p: crate::loop_subdivision::topology::Parent, e: int, f: int, c: int, a: u32, b: u32)
    requires
        last_with_key(p.edges, edge_key_of(a, b)) == Some(e),
        0 <= e < p.edges.len(),
        0 <= f < p.faces.len(),
        0 <= c < p.faces[f].len(),
        p.faces[f].len() == 3,
        p.face_edges[f].len() == 3,
        p.face_edges[f][c] == e,
        face_keys(p.faces[f])[c] == edge_key_of(a, b),
        a < p.vertex_count,
        b < p.vertex_count,
        p.refined_vertex_count() <= u32::MAX,
    ensures
        splits(loop_origins(p), p.edges, p.vertex_count as u32, p.children(), a, b),
{
    let origins = loop_origins(p);
    let ne = p.edges.len() as int;
    lemma_origin_at(origins, VertexOrigin::Edge(e as u32), e);
    lemma_origin_at(origins, VertexOrigin::Vertex(a), ne + a);
    lemma_origin_at(origins, VertexOrigin::Vertex(b), ne + b);
    let face = p.faces[f];
    let d = next_corner(c, 3);
    let faces = p.children();
    assert((4 * f + c) / 4 == f && (4 * f + c) % 4 == c);
    assert((4 * f + d) / 4 == f && (4 * f + d) % 4 == d);
    assert(faces[4 * f + c] == p.child(f, c));
    assert(faces[4 * f + d] == p.child(f, d));
    let mid = e as u32;
    let from = p.vertex_point(face[c] as int);
    let to = p.vertex_point(face[d] as int);
    assert(face_keys(faces[4 * f + c])[0] == edge_key_of(from, mid));
    assert(face_keys(faces[4 * f + d])[2] == edge_key_of(mid, to));
    assert(on_face(faces, from, mid));
    assert(on_face(faces, mid, to));
    lemma_turned(faces, from, mid);
    lemma_turned(faces, mid, to);
}

proof fn lemma_loop_splits<S: Scalar>(
    options: SchemeOptions,
    boundary_crease: S,
    parent: LevelData<S>,
    child: LevelData<S>,
    a: u32,
    b: u32,
)
    requires
        crate::loop_subdivision::refine::loop_wf(parent),
        all_true(parent.face_selected@),
        loop_refines(parent, options, boundary_crease, child),
        edges_on_faces(parent.topo),
        on_face(parent.topo.faces@, a, b),
    ensures
        splits(
            child.lineage.vertex_origin@,
            parent.topo.edges(),
            parent.mesh.vertex_count,
            child.topo.faces@,
            a,
            b,
        ),
{
    let p = crate::loop_subdivision::topology::parent_of(parent.topo, parent.n());
    crate::loop_subdivision::refine::lemma_all_selected(p, parent.face_selected@);
    let (e, f, c) = lemma_edge_of_side(parent.topo, parent.n(), a, b);
    assert(p.faces[f].len() == 3);
    lemma_loop_point_splits(p, e, f, c, a, b);
}

/// Every segment of a polyline lies on a side of a face.
pub open spec fn follows_faces(faces: Seq<Seq<u32>>, poly: Seq<u32>) -> bool {
    forall|i: int| 0 <= i < poly.len() - 1 ==> on_face(faces, #[trigger] poly[i], poly[i + 1])
}

/// Where all segments are split, every other vertex is a point of an edge.
proof fn lemma_refined_places(origins: Seq<VertexOrigin>, edges: Seq<EdgeKey>, n: u32, poly: Seq<u32>, k: int)
    requires
        0 <= k < poly.len(),
        forall|i: int| 0 <= i < k ==> (#[trigger] split_point(origins, edges, poly[i], poly[i + 1])).len() == 1,
    ensures
        ({
            let s = refined_segments(origins, edges, n, poly, k);
            &&& s.len() == 2 * k
            &&& forall|i: int|
                0 <= i < k ==> s[2 * i] == moved_point(origins, n, #[trigger] poly[i]) && s[2 * i + 1] == split_point(
                    origins,
                    edges,
                    poly[i],
                    poly[i + 1],
                )[0]
        }),
    decreases k,
{
    if k > 0 {
        lemma_refined_places(origins, edges, n, poly, k - 1);
        let before = refined_segments(origins, edges, n, poly, k - 1);
        let s = refined_segments(origins, edges, n, poly, k);
        assert(split_point(origins, edges, poly[k - 1], poly[k - 1 + 1]).len() == 1);
        assert forall|i: int| 0 <= i < k implies s[2 * i] == moved_point(origins, n, #[trigger] poly[i]) && s[2 * i
            + 1] == split_point(origins, edges, poly[i], poly[i + 1])[0] by {
            if i < k - 1 {
                assert(s[2 * i] == before[2 * i]);
                assert(s[2 * i + 1] == before[2 * i + 1]);
            }
        }
    }
}

proof fn lemma_polyline_splits(
    origins: Seq<VertexOrigin>,
    edges: Seq<EdgeKey>,
    n: u32,
    faces: Seq<Seq<u32>>,
    poly: Seq<u32>,
)
    requires
        poly.len() > 0,
        forall|i: int| 0 <= i < poly.len() - 1 ==> splits(origins, edges, n, faces, #[trigger] poly[i], poly[i + 1]),
    ensures
        refined_polyline(origins, edges, n, poly).len() == 2 * (poly.len() - 1) + 1,
        follows_faces(faces, refined_polyline(origins, edges, n, poly)),
{
    let last = poly.len() - 1;
    assert forall|i: int| 0 <= i < last implies (#[trigger] split_point(origins, edges, poly[i], poly[i + 1])).len()
        == 1 by {
        assert(splits(origins, edges, n, faces, poly[i], poly[i + 1]));
    }
    lemma_refined_places(origins, edges, n, poly, last);
    let s = refined_polyline(origins, edges, n, poly);
    let body = refined_segments(origins, edges, n, poly, last);
    assert forall|j: int| 0 <= j < s.len() - 1 implies on_face(faces, #[trigger] s[j], s[j + 1]) by {
        let i = j / 2;
        assert(0 <= i < last);
        assert(splits(origins, edges, n, faces, poly[i], poly[i + 1]));
        assert(body[2 * i] == moved_point(origins, n, poly[i]));
        assert(body[2 * i + 1] == split_point(origins, edges, poly[i], poly[i + 1])[0]);
        if j % 2 == 0 {
            assert(j == 2 * i);
            assert(s[j] == body[2 * i] && s[j + 1] == body[2 * i + 1]);
        } else {
            assert(j == 2 * i + 1);
            assert(s[j] == body[2 * i + 1]);
            if i + 1 < last {
                assert(body[2 * (i + 1)] == moved_point(origins, n, poly[i + 1]));
                assert(s[j + 1] == body[2 * (i + 1)]);
            }
            assert(s[j + 1] == moved_point(origins, n, poly[i + 1]));
        }
    }
}

proof fn lemma_cc_level<S: Scalar>(options: SchemeOptions, boundary_crease: S, parent: LevelData<S>, child: LevelData<S>)
    requires
        cc_refines(parent, options, boundary_crease, child),
    ensures
        edges_on_faces(child.topo),
        child.face_selected@ == inherited_selection(child.lineage.face_parent@, parent.face_selected@),
{
    let p = crate::catmull_clark::topology::parent_of(parent.topo, parent.n());
    lemma_edges_on_faces(
        child.topo,
        crate::catmull_clark::refine::cc_faces(p, parent.face_selected@),
        crate::catmull_clark::refine::cc_labels(p, parent.face_selected@),
        p.refined_vertex_count(),
    );
}

proof fn lemma_loop_level<S: Scalar>(
    options: SchemeOptions,
    boundary_crease: S,
    parent: LevelData<S>,
    child: LevelData<S>,
)
    requires
        loop_refines(parent, options, boundary_crease, child),
    ensures
        edges_on_faces(child.topo),
        child.face_selected@ == inherited_selection(child.lineage.face_parent@, parent.face_selected@),
{
    let p = crate::loop_subdivision::topology::parent_of(parent.topo, parent.n());
    lemma_edges_on_faces(
        child.topo,
        crate::loop_subdivision::refine::loop_faces(p, parent.face_selected@),
        crate::loop_subdivision::refine::loop_labels(p, parent.face_selected@),
        p.refined_vertex_count(),
    );
}

proof fn lemma_level_edges<S: Scalar>(
    scheme: Scheme,
    options: SchemeOptions,
    boundary_crease: S,
    parent: LevelData<S>,
    child: LevelData<S>,
)
    requires
        scheme == Scheme::CatmullClark || scheme == Scheme::Loop,
        refines(scheme, options, boundary_crease, parent, child),
    ensures
        edges_on_faces(child.topo),
        child.face_selected@ == inherited_selection(child.lineage.face_parent@, parent.face_selected@),
{
    if scheme == Scheme::CatmullClark {
        assert(cc_refines(parent, options, boundary_crease, child)) by {
            reveal(refines);
        }
        lemma_cc_level(options, boundary_crease, parent, child);
    } else {
        assert(loop_refines(parent, options, boundary_crease, child)) by {
            reveal(refines);
        }
        lemma_loop_level(options, boundary_crease, parent, child);
    }
}

/// Every level of a full refinement is refined in full, and its edges are sides
/// of its faces.
proof fn lemma_levels_full<S: Scalar>(
    scheme: Scheme,
    options: SchemeOptions,
    boundary_crease: S,
    levels: Seq<LevelData<S>>,
    k: int,
)
    requires
        scheme == Scheme::CatmullClark || scheme == Scheme::Loop,
        chain(scheme, options, boundary_crease, levels),
        0 <= k < levels.len(),
        all_true(levels[0].face_selected@),
        edges_on_faces(levels[0].topo),
    ensures
        all_true(levels[k].face_selected@),
        edges_on_faces(levels[k].topo),
    decreases k,
{
    if k > 0 {
        lemma_levels_full(scheme, options, boundary_crease, levels, k - 1);
        let parent = levels[k - 1];
        let child = levels[k];
        assert(level_ok(scheme, levels[k - 1]));
        assert(step_fault(scheme, levels[k - 1]) is None);
        assert(refines(scheme, options, boundary_crease, levels[k - 1], levels[k - 1 + 1]));
        crate::refiner::refined_faces_have_parents(scheme, options, boundary_crease, parent, child);
        lemma_level_edges(scheme, options, boundary_crease, parent, child);
        assert(parent.face_selected@.len() == parent.topo.faces@.len()) by {
            reveal(level_ok);
        }
        assert forall|i: int| 0 <= i < child.face_selected@.len() implies #[trigger] child.face_selected@[i] by {
            assert(child.lineage.face_parent@[i] < parent.face_selected@.len());
            assert(parent.face_selected@[child.lineage.face_parent@[i] as int]);
        }
    }
}

pub open spec fn power_of_two(k: nat) -> nat
    decreases k,
{
    if k == 0 {
        1
    } else {
        2 * power_of_two((k - 1) as nat)
    }
}

/// In a full refinement by Catmull-Clark or Loop the polyline of an edge of a
/// face has `2^k` segments after `k` levels, each along a side of a refined face.
pub proof fn edges_of_faces_are_traced<S: Scalar>(
    refiner: Refiner<S>,
    req: UniformRefine<S>,
    refinement: Refinement<S>,
    e: int,
    k: int,
)
    requires
        refiner.scheme_of() == Scheme::CatmullClark || refiner.scheme_of() == Scheme::Loop,
        refiner.refined_to(req, refinement),
        all_true(crate::refiner::active_of(req.selected_faces, refiner.mesh().face_vertex_counts@.len())),
        0 <= e < refiner.mesh().edge_vertices@.len(),
        on_face(
            crate::base::mesh_faces(refiner.mesh()),
            pairs(refiner.mesh().edge_vertices@)[e].0,
            pairs(refiner.mesh().edge_vertices@)[e].1,
        ),
        0 <= k <= req.levels,
    ensures
        ({
            let line = traced(refinement.chain_of(), pairs(refiner.mesh().edge_vertices@), k)[e];
            &&& line.len() == power_of_two(k as nat) + 1
            &&& follows_faces(refinement.chain_of()[k].topo.faces@, line)
        }),
    decreases k,
{
    let levels = refinement.chain_of();
    let edges = pairs(refiner.mesh().edge_vertices@);
    let scheme = refiner.scheme_of();
    let options = refiner.options_of();
    let crease = req.selection_boundary_crease;
    let faces = crate::base::mesh_faces(refiner.mesh());
    assert(all_true(levels[0].face_selected@) && levels[0].topo.faces@ == faces && edges_on_faces(levels[0].topo)) by {
        reveal(is_base);
        lemma_edges_on_faces(
            levels[0].topo,
            faces,
            key_labels(corner_keys(faces)),
            refiner.mesh().vertex_count as nat,
        );
    }
    if k > 0 {
        edges_of_faces_are_traced(refiner, req, refinement, e, k - 1);
        lemma_levels_full(scheme, options, crease, levels, k - 1);
        let parent = levels[k - 1];
        let child = levels[k];
        assert(level_ok(scheme, levels[k - 1]));
        assert(step_fault(scheme, levels[k - 1]) is None);
        assert(refines(scheme, options, crease, levels[k - 1], levels[k - 1 + 1]));
        let before = traced(levels, edges, k - 1)[e];
        let origins = child.lineage.vertex_origin@;
        let n = parent.mesh.vertex_count;
        lemma_traced_len(levels, edges, k - 1);
        assert forall|i: int| 0 <= i < before.len() - 1 implies splits(
            origins,
            parent.topo.edges(),
            n,
            child.topo.faces@,
            #[trigger] before[i],
            before[i + 1],
        ) by {
            reveal(refines);
            reveal(level_ok);
            assert(on_face(parent.topo.faces@, before[i], before[i + 1]));
            if scheme == Scheme::CatmullClark {
                lemma_cc_splits(options, crease, parent, child, before[i], before[i + 1]);
            } else {
                lemma_loop_splits(options, crease, parent, child, before[i], before[i + 1]);
            }
        }
        lemma_polyline_splits(origins, parent.topo.edges(), n, child.topo.faces@, before);
        assert(traced(levels, edges, k)[e] == refined_polyline(origins, parent.topo.edges(), n, before));
        assert(power_of_two(k as nat) == 2 * power_of_two((k - 1) as nat));
    } else {
        assert(edge_lines(edges)[e] == seq![edges[e].0, edges[e].1]);
    }
}

proof fn lemma_traced_len<S: Scalar>(levels: Seq<LevelData<S>>, edges: Seq<EdgeKey>, k: int)
    ensures
        traced(levels, edges, k).len() == edges.len(),
    decreases k,
{
    if k > 0 {
        lemma_traced_len(levels, edges, k - 1);
    }
}

} // verus!
