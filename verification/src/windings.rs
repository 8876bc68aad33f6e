//! How refined faces lie in the faces that they come from.

use crate::catmull_clark::refine::{cc_child_rows, cc_origins, cc_refines};
use crate::catmull_clark::topology::parent_of as cc_parent_of;
use crate::connectivity::{
    corner_faces, edge_key_of, face_keys, lemma_flat_at, lemma_same_starts, next_corner, owner_rows, prev_corner,
};
use crate::hashing::EdgeKey;
use crate::incidence::lemma_flat_locate;
use crate::level::LevelData;
use crate::loop_subdivision::refine::{loop_child_rows, loop_origins, loop_refines, loop_wf};
use crate::loop_subdivision::topology::parent_of as loop_parent_of;
use crate::options::SchemeOptions;
use crate::output::VertexOrigin;
use crate::rows::{flat, row_start};
use crate::scalar::Scalar;
use crate::topology::all_below;
use vstd::prelude::*;

verus! {

/// An edge joins two vertices.
pub open spec fn joins(edge: EdgeKey, a: u32, b: u32) -> bool {
    (edge.0 == a && edge.1 == b) || (edge.0 == b && edge.1 == a)
}

/// A refined vertex was made from the edge between two vertices.
pub open spec fn from_edge(origin: VertexOrigin, edges: Seq<EdgeKey>, a: u32, b: u32) -> bool {
    match origin {
        VertexOrigin::Edge(e) => e < edges.len() && joins(edges[e as int], a, b),
        _ => false,
    }
}

/// The corner that follows corner `c` of a face.
pub open spec fn after(face: Seq<u32>, c: int) -> u32 {
    face[if c + 1 == face.len() {
        0
    } else {
        c + 1
    }]
}

/// The corner before corner `c` of a face.
pub open spec fn before(face: Seq<u32>, c: int) -> u32 {
    face[if c == 0 {
        face.len() - 1
    } else {
        c - 1
    }]
}

proof fn lemma_edge_at<S: Scalar>(level: LevelData<S>, f: int, c: int)
    requires
        level.wf(),
        0 <= f < level.topo.faces@.len(),
        0 <= c < level.topo.faces@[f].len(),
    ensures
        level.topo.face_edges@[f].len() == level.topo.faces@[f].len(),
        level.topo.face_edges@[f][c] < level.topo.edges().len(),
        joins(
            level.topo.edges()[level.topo.face_edges@[f][c] as int],
            level.topo.faces@[f][c],
            after(level.topo.faces@[f], c),
        ),
{
    let t = level.topo;
    let face = t.faces@[f];
    assert(t.face_edges@[f].len() == face.len() && all_below(t.face_edges@[f], t.edges().len() as int));
    assert(t.edges()[t.face_edges@[f][c] as int] == face_keys(face)[c]);
    assert(face_keys(face)[c] == edge_key_of(face[c], face[next_corner(c, face.len() as int)]));
}

/// An entry of a list of rows, and the row that it comes from.
proof fn lemma_located<A>(rows: Seq<Seq<A>>, q: int) -> (r: (int, int))
    requires
        0 <= q < flat(rows).len(),
        rows.len() <= u32::MAX,
    ensures
        0 <= r.0 < rows.len(),
        0 <= r.1 < rows[r.0].len(),
        flat(rows)[q] == rows[r.0][r.1],
        corner_faces(rows)[q] == r.0,
{
    let (f, c) = lemma_flat_locate(rows, q);
    lemma_same_starts(rows, owner_rows(rows), f);
    lemma_flat_at(owner_rows(rows), f, c);
    (f, c)
}

/// The quad at corner `c` of a face goes round the same way as the face: from the middle
/// of the face over the edge before the corner and the corner itself to the edge behind.
pub open spec fn quad_follows<S: Scalar>(
    parent: LevelData<S>,
    origins: Seq<VertexOrigin>,
    quad: Seq<u32>,
    f: int,
    c: int,
) -> bool {
    let face = parent.topo.faces@[f];
    let edges = parent.topo.edges();
    &&& 0 <= c < face.len()
    &&& quad.len() == 4
    &&& origins[quad[0] as int] == VertexOrigin::Face(f as u32)
    &&& from_edge(origins[quad[1] as int], edges, before(face, c), face[c])
    &&& origins[quad[2] as int] == VertexOrigin::Vertex(face[c])
    &&& from_edge(origins[quad[3] as int], edges, face[c], after(face, c))
}

/// A face that is not refined keeps its corners.
pub open spec fn face_follows<S: Scalar>(
    parent: LevelData<S>,
    origins: Seq<VertexOrigin>,
    child: Seq<u32>,
    f: int,
) -> bool {
    let face = parent.topo.faces@[f];
    &&& child.len() == face.len()
    &&& forall|k: int| 0 <= k < face.len() ==> origins[#[trigger] child[k] as int] == VertexOrigin::Vertex(face[k])
}

proof fn lemma_quad<S: Scalar>(parent: LevelData<S>, f: int, c: int)
    requires
        ({
            let p = cc_parent_of(parent.topo, parent.n());
            let face = parent.topo.faces@[f];
            let b = prev_corner(c, face.len() as int);
            let row = parent.topo.face_edges@[f];
            let edges = parent.topo.edges();
            &&& p.refined_vertex_count() <= u32::MAX
            &&& 0 <= f < parent.topo.faces@.len()
            &&& 0 <= c < face.len()
            &&& face[c] < parent.n()
            &&& row[c] < edges.len()
            &&& row[b] < edges.len()
            &&& joins(edges[row[c] as int], face[c], after(face, c))
            &&& joins(edges[row[b] as int], before(face, c), face[c])
        }),
    ensures
        ({
            let p = cc_parent_of(parent.topo, parent.n());
            quad_follows(parent, cc_origins(p), p.quad(f, c), f, c)
        }),
{
    let p = cc_parent_of(parent.topo, parent.n());
    let quad = p.quad(f, c);
    let origins = cc_origins(p);
    assert(origins[quad[0] as int] == VertexOrigin::Face(f as u32));
    assert(origins[quad[1] as int] is Edge);
    assert(origins[quad[2] as int] is Vertex);
    assert(origins[quad[3] as int] is Edge);
}

proof fn lemma_kept<S: Scalar>(parent: LevelData<S>, f: int)
    requires
        cc_parent_of(parent.topo, parent.n()).refined_vertex_count() <= u32::MAX,
        0 <= f < parent.topo.faces@.len(),
        all_below(parent.topo.faces@[f], parent.n() as int),
    ensures
        ({
            let p = cc_parent_of(parent.topo, parent.n());
            face_follows(
                parent,
                cc_origins(p),
                p.faces[f].map_values(|v: u32| p.vertex_point(v as int)),
                f,
            )
        }),
{
    let p = cc_parent_of(parent.topo, parent.n());
    let face = p.faces[f];
    let kept = face.map_values(|v: u32| p.vertex_point(v as int));
    assert forall|k: int| 0 <= k < face.len() implies cc_origins(p)[#[trigger] kept[k] as int] == VertexOrigin::Vertex(
        face[k],
    ) by {
        assert(face[k] < parent.n());
    }
}

/// Every face of a Catmull-Clark refinement is a quad at a corner of its parent, or its
/// parent itself.
pub proof fn catmull_clark_faces_follow_their_parents<S: Scalar>(
    options: SchemeOptions,
    boundary_crease: S,
    parent: LevelData<S>,
    child: LevelData<S>,
    q: int,
)
    requires
        parent.wf(),
        cc_refines(parent, options, boundary_crease, child),
        0 <= q < child.topo.faces@.len(),
    ensures
        ({
            let f = child.lineage.face_parent@[q] as int;
            let origins = child.lineage.vertex_origin@;
            &&& f < parent.topo.faces@.len()
            &&& parent.face_selected@[f] ==> exists|c: int| #[trigger]
                quad_follows(parent, origins, child.topo.faces@[q], f, c)
            &&& !parent.face_selected@[f] ==> face_follows(parent, origins, child.topo.faces@[q], f)
        }),
{
    let p = cc_parent_of(parent.topo, parent.n());
    let sel = parent.face_selected@;
    let rows = cc_child_rows(p, sel);
    lemma_cc_lists(options, boundary_crease, parent, child);
    let (f, c) = lemma_located(rows, q);
    lemma_corners(parent, f);
    if sel[f] {
        let face = p.faces[f];
        let b = prev_corner(c, face.len() as int);
        lemma_edge_at(parent, f, c);
        lemma_edge_at(parent, f, b);
        assert(face[c] < parent.n());
        assert(rows[f][c] == p.quad(f, c));
        lemma_quad(parent, f, c);
    } else {
        lemma_kept(parent, f);
    }
}

/// Every corner of a face that is refined has its quad in a Catmull-Clark refinement. The
/// result is the quad.
pub proof fn catmull_clark_corners_have_their_quad<S: Scalar>(
    options: SchemeOptions,
    boundary_crease: S,
    parent: LevelData<S>,
    child: LevelData<S>,
    f: int,
    c: int,
) -> (q: int)
    requires
        parent.wf(),
        cc_refines(parent, options, boundary_crease, child),
        0 <= f < parent.topo.faces@.len(),
        parent.face_selected@[f],
        0 <= c < parent.topo.faces@[f].len(),
    ensures
        0 <= q < child.topo.faces@.len(),
        child.lineage.face_parent@[q] == f,
        quad_follows(parent, child.lineage.vertex_origin@, child.topo.faces@[q], f, c),
{
    let p = cc_parent_of(parent.topo, parent.n());
    let rows = cc_child_rows(p, parent.face_selected@);
    lemma_cc_lists(options, boundary_crease, parent, child);
    lemma_corners(parent, f);
    let face = p.faces[f];
    let b = prev_corner(c, face.len() as int);
    lemma_edge_at(parent, f, c);
    lemma_edge_at(parent, f, b);
    assert(face[c] < parent.n());
    lemma_quad(parent, f, c);
    assert(rows[f][c] == p.quad(f, c));
    lemma_flat_at(rows, f, c);
    lemma_same_starts(rows, owner_rows(rows), f);
    lemma_flat_at(owner_rows(rows), f, c);
    row_start(rows, f) + c
}

proof fn lemma_corners<S: Scalar>(level: LevelData<S>, f: int)
    requires
        level.wf(),
        0 <= f < level.topo.faces@.len(),
    ensures
        level.topo.faces@[f].len() >= 3,
        all_below(level.topo.faces@[f], level.n() as int),
        level.topo.faces@.len() <= u32::MAX,
{
}

proof fn lemma_cc_lists<S: Scalar>(options: SchemeOptions, boundary_crease: S, parent: LevelData<S>, child: LevelData<S>)
    requires
        cc_refines(parent, options, boundary_crease, child),
    ensures
        ({
            let p = cc_parent_of(parent.topo, parent.n());
            let rows = cc_child_rows(p, parent.face_selected@);
            &&& child.topo.faces@ == flat(rows)
            &&& child.lineage.face_parent@ == corner_faces(rows)
            &&& child.lineage.vertex_origin@ == cc_origins(p)
            &&& p.refined_vertex_count() <= u32::MAX
        }),
{
}

/// The triangle at corner `c` of a face, or the one in its middle for `c` equal to three,
/// goes round the same way as the face.
pub open spec fn triangle_follows<S: Scalar>(
    parent: LevelData<S>,
    origins: Seq<VertexOrigin>,
    child: Seq<u32>,
    f: int,
    c: int,
) -> bool {
    let face = parent.topo.faces@[f];
    let edges = parent.topo.edges();
    &&& face.len() == 3
    &&& child.len() == 3
    &&& 0 <= c <= 3
    &&& if c < 3 {
        &&& origins[child[0] as int] == VertexOrigin::Vertex(face[c])
        &&& from_edge(origins[child[1] as int], edges, face[c], after(face, c))
        &&& from_edge(origins[child[2] as int], edges, before(face, c), face[c])
    } else {
        &&& from_edge(origins[child[0] as int], edges, face[0], face[1])
        &&& from_edge(origins[child[1] as int], edges, face[1], face[2])
        &&& from_edge(origins[child[2] as int], edges, face[2], face[0])
    }
}

proof fn lemma_triangle<S: Scalar>(parent: LevelData<S>, f: int, c: int)
    requires
        ({
            let p = loop_parent_of(parent.topo, parent.n());
            let face = parent.topo.faces@[f];
            let row = parent.topo.face_edges@[f];
            let edges = parent.topo.edges();
            &&& p.refined_vertex_count() <= u32::MAX
            &&& 0 <= f < parent.topo.faces@.len()
            &&& 0 <= c <= 3
            &&& face.len() == 3
            &&& face[0] < parent.n() && face[1] < parent.n() && face[2] < parent.n()
            &&& row[0] < edges.len() && row[1] < edges.len() && row[2] < edges.len()
            &&& joins(edges[row[0] as int], face[0], face[1])
            &&& joins(edges[row[1] as int], face[1], face[2])
            &&& joins(edges[row[2] as int], face[2], face[0])
        }),
    ensures
        ({
            let p = loop_parent_of(parent.topo, parent.n());
            triangle_follows(parent, loop_origins(p), p.child(f, c), f, c)
        }),
{
    let p = loop_parent_of(parent.topo, parent.n());
    let kid = p.child(f, c);
    let origins = loop_origins(p);
    assert(c == 0 || c == 1 || c == 2 || c == 3);
    assert(kid.len() == 3);
    assert(origins[kid[1] as int] is Edge);
    assert(origins[kid[2] as int] is Edge);
}

proof fn lemma_kept_triangle<S: Scalar>(parent: LevelData<S>, f: int)
    requires
        loop_parent_of(parent.topo, parent.n()).refined_vertex_count() <= u32::MAX,
        0 <= f < parent.topo.faces@.len(),
        all_below(parent.topo.faces@[f], parent.n() as int),
    ensures
        ({
            let p = loop_parent_of(parent.topo, parent.n());
            face_follows(
                parent,
                loop_origins(p),
                p.faces[f].map_values(|v: u32| p.vertex_point(v as int)),
                f,
            )
        }),
{
    let p = loop_parent_of(parent.topo, parent.n());
    let face = p.faces[f];
    let kept = face.map_values(|v: u32| p.vertex_point(v as int));
    assert forall|k: int| 0 <= k < face.len() implies loop_origins(p)[#[trigger] kept[k] as int] == VertexOrigin::Vertex(
        face[k],
    ) by {
        assert(face[k] < parent.n());
    }
}

proof fn lemma_loop_lists<S: Scalar>(options: SchemeOptions, boundary_crease: S, parent: LevelData<S>, child: LevelData<S>)
    requires
        loop_refines(parent, options, boundary_crease, child),
    ensures
        ({
            let p = loop_parent_of(parent.topo, parent.n());
            let rows = loop_child_rows(p, parent.face_selected@);
            &&& child.topo.faces@ == flat(rows)
            &&& child.lineage.face_parent@ == corner_faces(rows)
            &&& child.lineage.vertex_origin@ == loop_origins(p)
            &&& p.refined_vertex_count() <= u32::MAX
        }),
{
}

/// Every face of a Loop refinement is one of the four triangles of its parent, or its
/// parent itself.
pub proof fn loop_faces_follow_their_parents<S: Scalar>(
    options: SchemeOptions,
    boundary_crease: S,
    parent: LevelData<S>,
    child: LevelData<S>,
    q: int,
)
    requires
        loop_wf(parent),
        loop_refines(parent, options, boundary_crease, child),
        0 <= q < child.topo.faces@.len(),
    ensures
        ({
            let f = child.lineage.face_parent@[q] as int;
            let origins = child.lineage.vertex_origin@;
            &&& f < parent.topo.faces@.len()
            &&& parent.face_selected@[f] ==> exists|c: int| #[trigger]
                triangle_follows(parent, origins, child.topo.faces@[q], f, c)
            &&& !parent.face_selected@[f] ==> face_follows(parent, origins, child.topo.faces@[q], f)
        }),
{
    let p = loop_parent_of(parent.topo, parent.n());
    let sel = parent.face_selected@;
    let rows = loop_child_rows(p, sel);
    lemma_loop_lists(options, boundary_crease, parent, child);
    lemma_corners(parent, 0);
    let (f, c) = lemma_located(rows, q);
    lemma_corners(parent, f);
    if sel[f] {
        let face = p.faces[f];
        assert(parent.topo.faces@[f].len() == 3);
        lemma_edge_at(parent, f, 0);
        lemma_edge_at(parent, f, 1);
        lemma_edge_at(parent, f, 2);
        assert(face[0] < parent.n() && face[1] < parent.n() && face[2] < parent.n());
        assert(rows[f][c] == p.child(f, c));
        lemma_triangle(parent, f, c);
    } else {
        lemma_kept_triangle(parent, f);
    }
}

/// Every triangle of a face that is refined is there in a Loop refinement. The result is
/// the triangle.
pub proof fn loop_faces_have_four_triangles<S: Scalar>(
    options: SchemeOptions,
    boundary_crease: S,
    parent: LevelData<S>,
    child: LevelData<S>,
    f: int,
    c: int,
) -> (q: int)
    requires
        loop_wf(parent),
        loop_refines(parent, options, boundary_crease, child),
        0 <= f < parent.topo.faces@.len(),
        parent.face_selected@[f],
        0 <= c <= 3,
    ensures
        0 <= q < child.topo.faces@.len(),
        child.lineage.face_parent@[q] == f,
        triangle_follows(parent, child.lineage.vertex_origin@, child.topo.faces@[q], f, c),
{
    let p = loop_parent_of(parent.topo, parent.n());
    let rows = loop_child_rows(p, parent.face_selected@);
    lemma_loop_lists(options, boundary_crease, parent, child);
    lemma_corners(parent, f);
    let face = p.faces[f];
    assert(parent.topo.faces@[f].len() == 3);
    lemma_edge_at(parent, f, 0);
    lemma_edge_at(parent, f, 1);
    lemma_edge_at(parent, f, 2);
    assert(face[0] < parent.n() && face[1] < parent.n() && face[2] < parent.n());
    lemma_triangle(parent, f, c);
    assert(rows[f].len() == 4);
    assert(rows[f][c] == p.child(f, c));
    lemma_flat_at(rows, f, c);
    lemma_same_starts(rows, owner_rows(rows), f);
    lemma_flat_at(owner_rows(rows), f, c);
    row_start(rows, f) + c
}

} // verus!
