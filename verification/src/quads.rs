//! Refined Catmull-Clark meshes have limits: their tables are in order.

use crate::base::same_mesh;
use crate::catmull_clark::refine::{cc_fault, cc_labels, cc_refines, lemma_all_selected, lemma_parent_ok};
use crate::catmull_clark::topology::{lemma_quad_counts, parent_of};
use crate::connectivity::{
    corner_faces, corner_keys, distinct, edge_tables, end_edges, end_points, incident, lemma_corner,
    lemma_corner_counts, lemma_distinct, lemma_incident, lemma_listed_complete, lemma_same_starts, listed,
    next_corner, pairs,
};
use crate::csr::lemma_recut;
use crate::incidence::{any_flagged, lemma_flat_locate, Topology};
use crate::level::{adjacency_of, all_true, LevelData};
use crate::limit::{limit_ready, unfolded};
use crate::options::SchemeOptions;
use crate::output::same_adjacency;
use crate::ring::{faces_at, quads_ok, row_of, rows_ok};
use crate::rows::{flat, ints, lemma_flat_row, row_start, row_starts};
use crate::scalar::Scalar;
use crate::topology::{all_below, Adjacency, Mesh};
use vstd::prelude::*;

verus! {

/// Two places with one mark make a list of at least two.
proof fn lemma_listed_twice(marks: Seq<u32>, items: Seq<u32>, i: int, j: int)
    requires
        marks.len() == items.len(),
        0 <= i < j < marks.len(),
        marks[i] == marks[j],
    ensures
        listed(marks, items, marks[j]).len() >= 2,
    decreases marks.len(),
{
    let fm = marks.drop_last();
    let fi = items.drop_last();
    if j == marks.len() - 1 {
        lemma_listed_complete(fm, fi, i);
        assert(listed(fm, fi, fm[i]).len() >= 1);
    } else {
        lemma_listed_twice(fm, fi, i, j);
    }
}

/// A vertex at a corner whose edge has two faces has another corner.
proof fn lemma_another_corner(
    faces: Seq<Seq<u32>>,
    labels: Seq<int>,
    edges: Seq<crate::hashing::EdgeKey>,
    ids: Seq<u32>,
    edge_faces: Seq<Seq<u32>>,
    f: int,
    c: int,
) -> (p1: int)
    requires
        faces.len() <= u32::MAX,
        edge_tables(edges, ids, edge_faces, labels, corner_keys(faces), corner_faces(faces)),
        0 <= f < faces.len(),
        0 <= c < faces[f].len(),
        edge_faces[ids[row_start(faces, f) + c] as int].len() >= 2,
    ensures
        0 <= p1 < flat(faces).len(),
        p1 != row_start(faces, f) + c,
        flat(faces)[p1] == faces[f][c],
{
    let verts = flat(faces);
    let owners = corner_faces(faces);
    let keys = corner_keys(faces);
    lemma_corner_counts(faces);
    lemma_corner(faces, f, c);
    let p0 = row_start(faces, f) + c;
    let v = faces[f][c];
    let e = ids[p0] as int;
    assert(edges[e] == keys[p0]);
    let row = edge_faces[e];
    assert(row == incident(labels, owners, distinct(labels)[e]));
    lemma_incident(labels, owners, distinct(labels)[e]);
    let g = if row[0] == f as u32 {
        row[1]
    } else {
        row[0]
    };
    assert(row.contains(g));
    assert(row[0] != row[1]);
    let q = choose|q: int|
        0 <= q < labels.len() && #[trigger] labels[q] == distinct(labels)[e] && owners[q] == g;
    lemma_distinct(labels);
    assert(distinct(labels)[ids[q] as int] == labels[q]);
    assert(ids[q] == e);
    assert(keys[q] == edges[e]);
    let (h, m) = lemma_flat_locate(faces, q);
    lemma_corner(faces, h, m);
    assert(h as u32 == g);
    let nm = next_corner(m, faces[h].len() as int);
    lemma_corner(faces, h, nm);
    if faces[h][m] == v {
        q
    } else {
        row_start(faces, h) + nm
    }
}

/// The edge that leaves a corner is listed at the vertex of the corner.
proof fn lemma_edge_listed(edges: Seq<crate::hashing::EdgeKey>, e: int, v: u32)
    requires
        0 <= e < edges.len() <= u32::MAX,
        edges[e].0 == v || edges[e].1 == v,
    ensures
        listed(end_points(edges), end_edges(edges.len()), v).contains(e as u32),
{
    let ends = end_points(edges);
    let items = end_edges(edges.len());
    let at = if edges[e].0 == v {
        2 * e
    } else {
        2 * e + 1
    };
    assert((2 * e) / 2 == e && (2 * e) % 2 == 0 && (2 * e + 1) / 2 == e && (2 * e + 1) % 2 == 1);
    assert(ends[at] == v);
    lemma_listed_complete(ends, items, at);
}

/// No inner vertex of a mesh has a single corner: where the one face of the
/// vertex meets its next edge, another face begins.
#[verifier::rlimit(60)]
pub(crate) proof fn lemma_inner_vertex_has_two_faces<S: Scalar>(
    t: Topology<S>,
    faces: Seq<Seq<u32>>,
    labels: Seq<int>,
    n: nat,
    v: int,
)
    requires
        t.describes(faces, labels, n),
        n <= u32::MAX,
        faces.len() <= u32::MAX,
        t.edges().len() <= u32::MAX,
        0 <= v < n,
        !t.vertex_is_boundary@[v],
    ensures
        t.vertex_faces@[v].len() != 1,
{
    let verts = flat(faces);
    let owners = corner_faces(faces);
    let ids = flat(t.face_edges@);
    lemma_corner_counts(faces);
    if t.vertex_faces@[v].len() == 1 {
        assert(t.vertex_faces@[v] == listed(verts, owners, v as u32));
        crate::connectivity::lemma_listed(verts, owners, v as u32);
        let f0 = listed(verts, owners, v as u32)[0];
        let p0 = choose|i: int| 0 <= i < verts.len() && #[trigger] verts[i] == v as u32 && owners[i] == f0;
        let (f, c) = lemma_flat_locate(faces, p0);
        lemma_corner(faces, f, c);
        let e = ids[p0] as int;
        assert(t.edges()[e] == corner_keys(faces)[p0]);
        lemma_edge_listed(t.edges(), e, v as u32);
        let list = t.vertex_edges@[v];
        assert(list == listed(end_points(t.edges()), end_edges(t.edges().len()), v as u32));
        let k = list.index_of(e as u32);
        assert(!t.edge_is_boundary@[e]) by {
            if t.edge_is_boundary@[e] {
                assert(t.edge_is_boundary@[list[k] as int]);
                assert(any_flagged(list, t.edge_is_boundary@));
                assert(t.vertex_is_boundary@[v]);
            }
        }
        assert(t.edge_faces@[e].len() >= 2);
        let p1 = lemma_another_corner(faces, labels, t.edges(), ids, t.edge_faces@, f, c);
        if p0 < p1 {
            lemma_listed_twice(verts, owners, p0, p1);
        } else {
            lemma_listed_twice(verts, owners, p1, p0);
        }
    }
}

/// A list of rows, written out with offsets, gives its rows back.
proof fn lemma_rows_written(offsets: Seq<u32>, values: Seq<u32>, rows: Seq<Seq<u32>>, n: nat, bound: int)
    requires
        ints(offsets) == row_starts(rows),
        values == flat(rows),
        rows.len() == n,
        forall|v: int| 0 <= v < n ==> all_below(#[trigger] rows[v], bound),
    ensures
        rows_ok(offsets, values, n, bound),
        forall|v: int| 0 <= v < n ==> #[trigger] row_of(offsets, values, v) == rows[v],
{
    lemma_recut(offsets, rows, values);
    assert(offsets.len() == ints(offsets).len());
    assert(offsets.len() == n + 1);
    assert forall|i: int| 0 <= i < values.len() implies (#[trigger] values[i]) < bound by {
        let (v, k) = lemma_flat_locate(rows, i);
        assert(all_below(rows[v], bound));
        assert(rows[v][k] < bound);
    }
    assert forall|v: int| 0 <= v < n implies #[trigger] row_of(offsets, values, v) == rows[v] by {
        lemma_flat_row(rows, v);
        assert(ints(offsets)[v] == row_starts(rows)[v]);
        assert(ints(offsets)[v + 1] == row_starts(rows)[v + 1]);
        assert(ints(offsets)[v] == offsets[v] as int);
        assert(ints(offsets)[v + 1] == offsets[v + 1] as int);
    }
}

/// The tables of a mesh of quads are in order.
#[verifier::rlimit(60)]
proof fn lemma_quad_level<S: Scalar>(level: LevelData<S>, labels: Seq<int>)
    requires
        level.wf(),
        level.topo.describes(level.topo.faces@, labels, level.n()),
        adjacency_of(level.adjacency, level.topo),
        pairs(level.mesh.edge_vertices@) == level.topo.edges(),
        level.mesh.edge_creases@.len() == level.topo.edges().len(),
        forall|f: int| 0 <= f < level.topo.faces@.len() ==> (#[trigger] level.topo.faces@[f]).len() == 4,
    ensures
        quads_ok(level.mesh, level.adjacency),
        unfolded(level.adjacency, level.n() as int),
{
    let t = level.topo;
    let n = level.n();
    let adj = level.adjacency;
    let mesh = level.mesh;
    let faces = t.faces@;
    let nf = faces.len();
    let ne = t.edges().len();
    crate::slots::lemma_uniform_start(faces, 4, nf as int);
    assert(faces.take(nf as int) =~= faces);
    assert(flat(faces).len() == 4 * nf);
    assert(pairs(mesh.edge_vertices@).len() == mesh.edge_vertices@.len());
    assert forall|i: int| 0 <= i < flat(faces).len() implies (#[trigger] flat(faces)[i]) < n by {
        let (f, c) = lemma_flat_locate(faces, i);
        assert(faces[f].len() >= 3 && all_below(faces[f], n as int));
        assert(faces[f][c] < n);
    }
    assert forall|f: int| 0 <= f < nf implies (#[trigger] t.face_edges@[f]).len() == faces[f].len() by {}
    lemma_same_starts(t.face_edges@, faces, 0);
    assert forall|i: int| 0 <= i < flat(t.face_edges@).len() implies (#[trigger] flat(t.face_edges@)[i]) < ne by {
        let (f, c) = lemma_flat_locate(t.face_edges@, i);
        assert(t.face_edges@[f].len() == faces[f].len() && all_below(t.face_edges@[f], ne as int));
        assert(t.face_edges@[f][c] < ne);
    }
    assert forall|e: int| 0 <= e < ne implies (#[trigger] pairs(mesh.edge_vertices@)[e]).0 < n && pairs(
        mesh.edge_vertices@,
    )[e].1 < n by {
        assert(t.edges()[e].0 < t.edges()[e].1 && t.edges()[e].1 < n);
    }
    assert forall|v: int| 0 <= v < n implies all_below(#[trigger] t.vertex_edges@[v], ne as int) by {}
    lemma_rows_written(adj.vertex_face_offsets@, adj.vertex_faces@, t.vertex_faces@, n, nf as int);
    lemma_rows_written(adj.vertex_edge_offsets@, adj.vertex_edges@, t.vertex_edges@, n, ne as int);
    reveal(quads_ok);
    assert(quads_ok(mesh, adj));
    reveal(unfolded);
    assert forall|v: int| 0 <= v < n && !(#[trigger] adj.vertex_is_boundary@[v]) implies faces_at(adj, v).len()
        != 1 by {
        lemma_inner_vertex_has_two_faces(t, faces, labels, n, v);
        assert(row_of(adj.vertex_face_offsets@, adj.vertex_faces@, v) == t.vertex_faces@[v]);
    }
}

/// A Catmull-Clark refinement of all faces is a mesh of quads that the limit
/// rules can be read off.
pub proof fn refined_quads_have_limits<S: Scalar>(
    options: SchemeOptions,
    boundary_crease: S,
    parent: LevelData<S>,
    child: LevelData<S>,
)
    requires
        parent.wf(),
        all_true(parent.face_selected@),
        cc_fault(parent_of(parent.topo, parent.n()), parent.face_selected@) is None,
        cc_refines(parent, options, boundary_crease, child),
    ensures
        limit_ready(child.mesh, child.adjacency),
        all_true(child.face_selected@),
        forall|f: int|
            0 <= f < child.mesh.face_vertex_counts@.len() ==> (#[trigger] child.mesh.face_vertex_counts@[f]) == 4,
{
    let p = parent_of(parent.topo, parent.n());
    let sel = parent.face_selected@;
    lemma_parent_ok(parent.topo, parent.n());
    lemma_all_selected(p, sel);
    lemma_quad_counts(p);
    assert(child.topo.faces@ == p.quads());
    assert forall|f: int| 0 <= f < child.topo.faces@.len() implies (#[trigger] child.topo.faces@[f]).len() == 4 by {
        assert(p.quads()[f].len() == 4);
    }
    lemma_quad_level(child, cc_labels(p, sel));
    assert forall|f: int| 0 <= f < child.mesh.face_vertex_counts@.len() implies (
    #[trigger] child.mesh.face_vertex_counts@[f]) == 4 by {
        assert(child.topo.faces@[f].len() == 4);
    }
    let parents = crate::catmull_clark::refine::cc_face_parents(p, sel);
    crate::catmull_clark::refine::lemma_parents_in_range(p, sel);
    assert forall|i: int| 0 <= i < child.face_selected@.len() implies #[trigger] child.face_selected@[i] by {
        assert(parents[i] < p.faces.len());
        assert(sel[parents[i] as int]);
    }
}

/// What holds of a mesh and its tables holds of copies of them.
pub proof fn copies_have_limits<S: Scalar>(a: Mesh<S>, b: Mesh<S>, x: Adjacency, y: Adjacency)
    requires
        limit_ready(a, x),
        same_mesh(b, a),
        same_adjacency(y, x),
    ensures
        limit_ready(b, y),
{
    reveal(quads_ok);
    reveal(unfolded);
    assert forall|v: int| 0 <= v < b.vertex_count && !(#[trigger] y.vertex_is_boundary@[v]) implies faces_at(
        y,
        v,
    ).len() != 1 by {
        assert(!x.vertex_is_boundary@[v]);
    }
}

} // verus!
