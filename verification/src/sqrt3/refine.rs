//! One level of sqrt(3) refinement: split at the centroids, then flip the old
//! edges.

use crate::connectivity::{
    corner_faces, corner_keys, edge_key, edge_key_of, key_labels, lemma_flat_at, lemma_listed, lemma_same_starts,
    listed, next_corner, owner_rows, pairs,
};
use crate::csr::{copied, lemma_row_within_flat};
use crate::error::KernelError;
use crate::hashing::{row_items, row_lists, EdgeKey, Row};
use crate::incidence::{build_topology_raw, edge_fault, lemma_flat_locate, CreaseTie, MeshFault, Topology};
use crate::level::{
    adjacency_from_topology, adjacency_of, compute_edge_data, effective_creases, fault_error, fault_text, hand_down,
    inherit, inherited_selection, lemma_proper_faces_fault, no_parents, nothing_inherited, pack_faces,
    select_by_parent, selected_edges, Inherited, LevelData,
};
use crate::loop_subdivision::refine::triangular;
use crate::options::SchemeOptions;
use crate::output::{LineageMaps, VertexOrigin};
use crate::rows::{flat, lemma_flat_take_next, row_start, views};
use crate::rules::{face_opposite_vertex, lemma_opposite_below, opposite_of};
use crate::scalar::{one, one_of, zero, zero_of, zeros, Scalar};
use crate::sharpness::{decay_sharpness, decayed, is_positive, positive};
use crate::topology::{all_below, Mesh};
use vstd::prelude::*;

verus! {

/// The parent tables that a refined mesh is made from.
pub struct Parent<S> {
    pub faces: Seq<Seq<u32>>,
    pub face_edges: Seq<Seq<u32>>,
    pub edges: Seq<EdgeKey>,
    pub edge_faces: Seq<Seq<u32>>,
    pub edge_is_boundary: Seq<bool>,
    pub creases: Seq<S>,
    pub selected: Seq<bool>,
    pub vertex_count: nat,
}

pub open spec fn parent_of<S: Scalar>(level: LevelData<S>) -> Parent<S> {
    Parent {
        faces: level.topo.faces@,
        face_edges: level.topo.face_edges@,
        edges: level.topo.edges(),
        edge_faces: level.topo.edge_faces@,
        edge_is_boundary: level.topo.edge_is_boundary@,
        creases: level.effective_edge_creases@,
        selected: level.face_selected@,
        vertex_count: level.n(),
    }
}

impl<S: Scalar> Parent<S> {
    /// Index of the point of vertex `v`; the centroids come first.
    pub open spec fn vertex_point(self, v: int) -> u32 {
        (self.faces.len() + v) as u32
    }

    pub open spec fn refined_vertex_count(self) -> nat {
        self.faces.len() + self.vertex_count
    }

    /// The triangle between the centroid of face `f` and its edge `i`.
    pub open spec fn third(self, f: int, i: int) -> Seq<u32> {
        seq![
            f as u32,
            self.vertex_point(self.faces[f][i] as int),
            self.vertex_point(self.faces[f][next_corner(i, 3)] as int),
        ]
    }

    /// The faces that face `f` is split into.
    pub open spec fn split(self, f: int) -> Seq<Seq<u32>> {
        if self.selected[f] {
            Seq::new(3, |i: int| self.third(f, i))
        } else {
            seq![self.faces[f].map_values(|v: u32| self.vertex_point(v as int))]
        }
    }

    pub open spec fn split_rows(self) -> Seq<Seq<Seq<u32>>> {
        Seq::new(self.faces.len(), |f: int| self.split(f))
    }

    /// The faces after the split, before any flip.
    pub open spec fn split_faces(self) -> Seq<Seq<u32>> {
        flat(self.split_rows())
    }

    /// The parent of each refined face.
    pub open spec fn face_parents(self) -> Seq<u32> {
        corner_faces(self.split_rows())
    }

    /// The parent edge that each face after the split lies on; none for a face
    /// that was not split.
    pub open spec fn base_edge_rows(self) -> Seq<Seq<u32>> {
        Seq::new(
            self.faces.len(),
            |f: int|
                if self.selected[f] {
                    self.face_edges[f]
                } else {
                    seq![u32::MAX]
                },
        )
    }

    pub open spec fn base_edges(self) -> Seq<u32> {
        flat(self.base_edge_rows())
    }

    /// The faces after the split that lie on edge `e`.
    pub open spec fn on_edge(self, e: int) -> Seq<u32> {
        listed(self.base_edges(), numbers(self.base_edges().len()), e as u32)
    }

    /// For each edge, the faces after the split that lie on it.
    pub open spec fn kids(self) -> Seq<Seq<u32>> {
        Seq::new(self.edges.len(), |e: int| self.on_edge(e))
    }

    /// Edge `e` is inside the selection and not sharp.
    pub open spec fn flips(self, e: int) -> bool {
        let ef = self.edge_faces[e];
        &&& !self.edge_is_boundary[e]
        &&& !S::at_most_of(one_of(), self.creases[e])
        &&& ef.len() >= 2
        &&& self.selected[ef[0] as int]
        &&& self.selected[ef[1] as int]
        &&& self.on_edge(e).len() == 2
    }

    /// The faces after the flip of edge `e`.
    pub open spec fn flip(self, faces: Seq<Seq<u32>>, e: int) -> Seq<Seq<u32>> {
        if self.flips(e) {
            let k0 = self.on_edge(e)[0] as int;
            let k1 = self.on_edge(e)[1] as int;
            let vp0 = self.vertex_point(self.edges[e].0 as int);
            let vp1 = self.vertex_point(self.edges[e].1 as int);
            match (opposite_of(faces[k0], (vp0, vp1)), opposite_of(faces[k1], (vp0, vp1))) {
                (Some(c0), Some(c1)) => faces.update(k0, seq![c0, c1, vp0]).update(k1, seq![c0, vp1, c1]),
                _ => faces,
            }
        } else {
            faces
        }
    }

    /// The faces after the flips of the first `k` edges.
    pub open spec fn flipped(self, k: int) -> Seq<Seq<u32>>
        decreases k,
    {
        if k <= 0 {
            self.split_faces()
        } else {
            self.flip(self.flipped(k - 1), k - 1)
        }
    }

    /// The refined faces.
    pub open spec fn refined_faces(self) -> Seq<Seq<u32>> {
        self.flipped(self.edges.len() as int)
    }

    /// Why a mesh cannot be refined.
    pub open spec fn fault(self) -> Option<MeshFault> {
        if self.refined_vertex_count() > u32::MAX {
            Some(MeshFault::TooLarge)
        } else if self.refined_vertex_count() == 0 {
            Some(MeshFault::NoVertices)
        } else {
            edge_fault(self.refined_faces())
        }
    }

    /// The vertices of the refined mesh: faces, vertices.
    pub open spec fn origins(self) -> Seq<VertexOrigin> {
        Seq::new(
            self.refined_vertex_count(),
            |i: int|
                if i < self.faces.len() {
                    VertexOrigin::Face(i as u32)
                } else {
                    VertexOrigin::Vertex((i - self.faces.len()) as u32)
                },
        )
    }

    /// Corner sharpness of the refined vertices.
    pub open spec fn corners(self, corners: Seq<S>, options: SchemeOptions) -> Seq<S> {
        Seq::new(
            self.refined_vertex_count(),
            |i: int|
                if i < self.faces.len() {
                    zero_of::<S>()
                } else {
                    let c = corners[i - self.faces.len()];
                    if options.corner_normalize || S::at_most_of(c, zero_of()) {
                        c
                    } else {
                        decayed(c)
                    }
                },
        )
    }

    /// The crease of edge `e` one level on.
    pub open spec fn child_crease(self, e: int, options: SchemeOptions) -> S {
        if options.crease_normalize {
            self.creases[e]
        } else {
            decayed(self.creases[e])
        }
    }

    /// What the first `k` parent edges hand down.
    pub open spec fn inherited(
        self,
        options: SchemeOptions,
        table: Map<EdgeKey, usize>,
        edge_count: nat,
        k: int,
    ) -> Inherited<S>
        decreases k,
    {
        if k <= 0 {
            nothing_inherited(edge_count)
        } else {
            let e = k - 1;
            let before = self.inherited(options, table, edge_count, e);
            let child = self.child_crease(e, options);
            if positive(self.creases[e]) && !S::at_most_of(child, zero_of()) {
                let key = edge_key_of(
                    self.vertex_point(self.edges[e].0 as int),
                    self.vertex_point(self.edges[e].1 as int),
                );
                inherit(before, table, key, child, true, e as u32)
            } else {
                before
            }
        }
    }
}

/// The numbers below `n`.
pub open spec fn numbers(n: nat) -> Seq<u32> {
    Seq::new(n, |i: int| i as u32)
}

/// `child` is the refinement of `parent`. Creases persist: an edge that is sharp in
/// the refined mesh is sharp in its topology too, since at every level only edges
/// with a crease below one are flipped.
pub open spec fn sqrt3_refines<S: Scalar>(
    parent: LevelData<S>,
    options: SchemeOptions,
    boundary_crease: S,
    child: LevelData<S>,
) -> bool {
    let p = parent_of(parent);
    let faces = p.refined_faces();
    let inherited = p.inherited(
        options,
        child.topo.edge_key_to_index@,
        child.topo.edges().len(),
        p.edges.len() as int,
    );
    &&& child.wf()
    &&& triangular(child)
    &&& child.mesh.vertex_count == p.refined_vertex_count()
    &&& child.topo.describes(faces, key_labels(corner_keys(faces)), p.refined_vertex_count())
    &&& child.topo.edge_creases@ == inherited.creases
    &&& pairs(child.mesh.edge_vertices@) == child.topo.edges()
    &&& child.mesh.edge_creases@ == inherited.creases
    &&& child.mesh.vertex_corners@ == p.corners(parent.mesh.vertex_corners@, options)
    &&& child.face_selected@ == inherited_selection(p.face_parents(), p.selected)
    &&& child.edge_has_selected_face@ == selected_edges(child.topo.edge_faces@, child.face_selected@)
    &&& child.effective_edge_creases@ == effective_creases(
        inherited.creases,
        child.topo.edge_faces@,
        child.face_selected@,
        boundary_crease,
    )
    &&& child.effective_vertex_corners@.len() == 0
    &&& child.lineage.vertex_origin@ == p.origins()
    &&& child.lineage.face_parent@ == p.face_parents()
    &&& child.lineage.edge_parent@ == inherited.parents
    &&& adjacency_of(child.adjacency, child.topo)
}

/// A proper face of the refined mesh; a triangle if it is selected.
pub open spec fn proper(face: Seq<u32>, n: int, selected: bool) -> bool {
    &&& 3 <= face.len() <= u32::MAX
    &&& all_below(face, n)
    &&& selected ==> face.len() == 3
}

pub open spec fn all_proper(faces: Seq<Seq<u32>>, n: int, selected: Seq<bool>) -> bool {
    &&& faces.len() == selected.len()
    &&& forall|q: int| 0 <= q < faces.len() ==> proper(#[trigger] faces[q], n, selected[q])
}

/// The faces after the split are proper, and so are their parents.
#[verifier::rlimit(60)]
pub proof fn lemma_split_proper<S: Scalar>(level: LevelData<S>)
    requires
        level.wf(),
        triangular(level),
        parent_of(level).refined_vertex_count() <= u32::MAX,
    ensures
        ({
            let p = parent_of(level);
            &&& all_proper(
                p.split_faces(),
                p.refined_vertex_count() as int,
                inherited_selection(p.face_parents(), p.selected),
            )
            &&& all_below(p.face_parents(), p.faces.len() as int)
            &&& p.base_edges().len() == p.split_faces().len()
            &&& p.split_faces().len() <= flat(p.faces).len()
        }),
{
    let p = parent_of(level);
    let n = level.n();
    let rows = p.split_rows();
    let owners = owner_rows(rows);
    let faces = p.split_faces();
    let sel = inherited_selection(p.face_parents(), p.selected);
    lemma_same_starts(owners, rows, 0);
    assert forall|q: int| 0 <= q < faces.len() implies proper(
        #[trigger] faces[q],
        p.refined_vertex_count() as int,
        sel[q],
    ) && p.face_parents()[q] < p.faces.len() by {
        let (f, c) = lemma_flat_locate(rows, q);
        lemma_same_starts(owners, rows, f);
        lemma_flat_at(owners, f, c);
        assert(p.faces[f].len() >= 3 && all_below(p.faces[f], n as int));
        lemma_row_within_flat(p.faces, f);
        if p.selected[f] {
            assert(p.faces[f].len() == 3);
            assert(p.faces[f][0] < n && p.faces[f][1] < n && p.faces[f][2] < n);
        } else {
            let row = p.faces[f].map_values(|v: u32| p.vertex_point(v as int));
            assert forall|k: int| 0 <= k < row.len() implies (#[trigger] row[k]) < p.refined_vertex_count() by {
                assert(p.faces[f][k] < n);
            }
        }
    }
    let parents = p.face_parents();
    assert forall|q: int| 0 <= q < parents.len() implies (#[trigger] parents[q]) < p.faces.len() by {
        assert(proper(faces[q], p.refined_vertex_count() as int, sel[q]));
    }
    assert forall|f: int| 0 <= f < p.faces.len() implies (#[trigger] p.base_edge_rows()[f]).len()
        == rows[f].len() by {
        assert(p.face_edges[f].len() == p.faces[f].len());
        if p.selected[f] {
            assert(p.faces[f].len() == 3);
        }
    }
    lemma_same_starts(p.base_edge_rows(), rows, 0);
    lemma_flat_len_le(rows, p.faces, level);
}

proof fn lemma_flat_len_le<S: Scalar>(rows: Seq<Seq<Seq<u32>>>, faces: Seq<Seq<u32>>, level: LevelData<S>)
    requires
        rows == parent_of(level).split_rows(),
        faces == level.topo.faces@,
        level.wf(),
        triangular(level),
    ensures
        flat(rows).len() <= flat(faces).len(),
{
    assert forall|k: int| 0 <= k <= faces.len() implies row_start(rows, k) <= row_start(faces, k) by {
        lemma_starts_le(rows, faces, level, k);
    }
    let n = faces.len() as int;
    assert(rows.take(n) =~= rows);
    assert(faces.take(n) =~= faces);
    assert(row_start(rows, n) <= row_start(faces, n));
}

proof fn lemma_starts_le<S: Scalar>(rows: Seq<Seq<Seq<u32>>>, faces: Seq<Seq<u32>>, level: LevelData<S>, k: int)
    requires
        rows == parent_of(level).split_rows(),
        faces == level.topo.faces@,
        level.wf(),
        triangular(level),
        0 <= k <= faces.len(),
    ensures
        row_start(rows, k) <= row_start(faces, k),
    decreases k,
{
    if k > 0 {
        lemma_starts_le(rows, faces, level, k - 1);
        lemma_flat_take_next(rows, k - 1);
        lemma_flat_take_next(faces, k - 1);
        assert(faces[k - 1].len() >= 3);
        if level.face_selected@[k - 1] {
            assert(faces[k - 1].len() == 3);
        }
    } else {
        assert(rows.take(0) =~= Seq::<Seq<Seq<u32>>>::empty());
        assert(faces.take(0) =~= Seq::<Seq<u32>>::empty());
    }
}

/// The faces on an edge are faces after the split.
proof fn lemma_on_edge<S: Scalar>(p: Parent<S>, e: int)
    requires
        p.base_edges().len() <= u32::MAX,
    ensures
        all_below(p.on_edge(e), p.base_edges().len() as int),
{
    let marks = p.base_edges();
    let items = numbers(marks.len());
    lemma_listed(marks, items, e as u32);
    let l = p.on_edge(e);
    assert forall|k: int| 0 <= k < l.len() implies (#[trigger] l[k]) < marks.len() by {
        let i = choose|i: int| 0 <= i < marks.len() && #[trigger] marks[i] == e as u32 && items[i] == l[k];
    }
}

/// Flips keep the number of faces.
pub proof fn lemma_flipped_len<S: Scalar>(p: Parent<S>, k: int)
    requires
        p.base_edges().len() == p.split_faces().len(),
        p.base_edges().len() <= u32::MAX,
    ensures
        p.flipped(k).len() == p.split_faces().len(),
    decreases k,
{
    if k > 0 {
        lemma_flipped_len(p, k - 1);
        lemma_on_edge(p, k - 1);
        if p.flips(k - 1) {
            let l = p.on_edge(k - 1);
            assert(l[0] < p.split_faces().len() && l[1] < p.split_faces().len());
        }
    }
}

/// A flip keeps the faces proper.
proof fn lemma_flip_proper<S: Scalar>(p: Parent<S>, faces: Seq<Seq<u32>>, e: int, n: int, selected: Seq<bool>)
    requires
        all_proper(faces, n, selected),
        n == p.refined_vertex_count(),
        n <= u32::MAX,
        faces.len() == p.base_edges().len(),
        faces.len() <= u32::MAX,
        0 <= e < p.edges.len(),
        p.edges[e].0 < p.vertex_count,
        p.edges[e].1 < p.vertex_count,
    ensures
        all_proper(p.flip(faces, e), n, selected),
{
    if p.flips(e) {
        lemma_on_edge(p, e);
        let l = p.on_edge(e);
        assert(l[0] < faces.len() && l[1] < faces.len());
        let k0 = l[0] as int;
        let k1 = l[1] as int;
        let vp0 = p.vertex_point(p.edges[e].0 as int);
        let vp1 = p.vertex_point(p.edges[e].1 as int);
        assert(proper(faces[k0], n, selected[k0]));
        assert(proper(faces[k1], n, selected[k1]));
        lemma_opposite_below(faces[k0], (vp0, vp1), n as nat);
        lemma_opposite_below(faces[k1], (vp0, vp1), n as nat);
        let next = p.flip(faces, e);
        assert forall|q: int| 0 <= q < next.len() implies proper(#[trigger] next[q], n, selected[q]) by {
            assert(proper(faces[q], n, selected[q]));
        }
    }
}

/// Splits the faces, and lists the new faces on each old edge.
fn split_faces<S: Scalar>(level: &LevelData<S>) -> (r: (Vec<Vec<u32>>, Vec<u32>, Vec<Row>))
    requires
        level.wf(),
        triangular(*level),
        parent_of(*level).refined_vertex_count() <= u32::MAX,
    ensures
        views(r.0@) == parent_of(*level).split_faces(),
        r.1@ == parent_of(*level).face_parents(),
        row_lists(r.2@) == parent_of(*level).kids(),
{
    let topo: &Topology<S> = &level.topo;
    let n: u32 = level.mesh.vertex_count;
    let ghost p = parent_of(*level);
    let ghost rows = p.split_rows();
    let ghost owners = owner_rows(rows);
    let ghost marks = p.base_edges();
    let ghost mark_rows = p.base_edge_rows();
    let ghost items = numbers(marks.len());
    let ghost ne = topo.edges().len();
    proof {
        lemma_split_proper(*level);
    }
    let face_count: usize = topo.faces.len();
    let edge_count: usize = topo.edge_vertices.len();
    let mut faces: Vec<Vec<u32>> = Vec::new();
    let mut parents: Vec<u32> = Vec::new();
    let mut kids: Vec<Row> = Vec::new();
    let mut e: usize = 0;
    while e < edge_count
        invariant
            e <= edge_count,
            kids@.len() == e,
            forall|j: int| 0 <= j < e ==> row_items(#[trigger] kids@[j]) == Seq::<u32>::empty(),
        decreases edge_count - e,
    {
        kids.push(Row::new());
        e += 1;
    }
    assert(row_lists(kids@) =~= Seq::new(ne, |e: int| listed(marks.take(0), items.take(0), e as u32)));
    let mut fi: usize = 0;
    assert(rows.take(0) =~= Seq::<Seq<Seq<u32>>>::empty());
    assert(owners.take(0) =~= Seq::<Seq<u32>>::empty());
    assert(views(faces@) =~= flat(rows.take(0)));
    while fi < face_count
        invariant
            topo == &level.topo,
            n == level.n(),
            p == parent_of(*level),
            rows == p.split_rows(),
            owners == owner_rows(rows),
            marks == p.base_edges(),
            mark_rows == p.base_edge_rows(),
            items == numbers(marks.len()),
            ne == topo.edges().len(),
            level.wf(),
            triangular(*level),
            p.refined_vertex_count() <= u32::MAX,
            face_count == p.faces.len(),
            edge_count == ne,
            marks.len() == p.split_faces().len(),
            marks.len() < u32::MAX,
            fi <= face_count,
            views(faces@) == flat(rows.take(fi as int)),
            parents@ == flat(owners.take(fi as int)),
            faces@.len() == row_start(rows, fi as int),
            row_lists(kids@) == Seq::new(
                ne,
                |e: int| listed(marks.take(faces@.len() as int), items.take(faces@.len() as int), e as u32),
            ),
        decreases face_count - fi,
    {
        let ghost f = fi as int;
        let ghost before = views(faces@);
        let ghost parents_before = parents@;
        let ghost start = faces@.len() as int;
        let verts: &[u32] = topo.faces.row(fi);
        let edges: &[u32] = topo.face_edges.row(fi);
        proof {
            assert(p.faces[f].len() >= 3 && all_below(p.faces[f], n as int));
            assert(p.face_edges[f].len() == p.faces[f].len());
            assert(all_below(p.face_edges[f], p.edges.len() as int));
            assert forall|f: int| 0 <= f < p.faces.len() implies (#[trigger] mark_rows[f]).len() == rows[f].len() by {
                assert(p.face_edges[f].len() == p.faces[f].len());
                if p.selected[f] {
                    assert(p.faces[f].len() == 3);
                }
            }
            lemma_same_starts(mark_rows, rows, f);
            crate::rows::lemma_flat_row(rows, f);
        }
        if level.face_selected[fi] {
            assert(p.faces[f].len() == 3);
            assert(views(faces@) =~= before + rows[f].take(0));
            assert(parents@ =~= parents_before + owners[f].take(0));
            let mut i: usize = 0;
            while i < 3
                invariant
                    n == level.n(),
                    p == parent_of(*level),
                    rows == p.split_rows(),
                    owners == owner_rows(rows),
                    marks == p.base_edges(),
                    mark_rows == p.base_edge_rows(),
                    items == numbers(marks.len()),
                    p.refined_vertex_count() <= u32::MAX,
                    p.vertex_count == n,
                    face_count == p.faces.len(),
                    face_count <= u32::MAX,
                    p.edges.len() == ne,
                    marks.len() < u32::MAX,
                    fi < face_count,
                    f == fi,
                    p.selected[f],
                    verts@ == p.faces[f],
                    edges@ == p.face_edges[f],
                    edges@.len() == 3,
                    verts@.len() == 3,
                    all_below(verts@, n as int),
                    all_below(edges@, ne as int),
                    i <= 3,
                    start == row_start(mark_rows, f),
                    start + 3 <= marks.len(),
                    faces@.len() == start + i,
                    views(faces@) == before + rows[f].take(i as int),
                    parents@ == parents_before + owners[f].take(i as int),
                    row_lists(kids@) == Seq::new(
                        ne,
                        |e: int|
                            listed(marks.take(faces@.len() as int), items.take(faces@.len() as int), e as u32),
                    ),
                    2 * ne <= u32::MAX,
                decreases 3 - i,
            {
                let next: usize = if i == 2 {
                    0
                } else {
                    i + 1
                };
                assert(verts@[i as int] < n);
                assert(verts@[next as int] < n);
                assert(edges@[i as int] < ne);
                let child: usize = faces.len();
                let mut tri: Vec<u32> = Vec::new();
                tri.push(fi as u32);
                tri.push((face_count + verts[i] as usize) as u32);
                tri.push((face_count + verts[next] as usize) as u32);
                assert(tri@ =~= p.third(f, i as int));
                let ghost vb = views(faces@);
                faces.push(tri);
                parents.push(fi as u32);
                assert(views(faces@) =~= vb.push(tri@));
                let ghost kb = row_lists(kids@);
                assert(kids@.len() == kb.len());
                let at: usize = edges[i] as usize;
                kids[at].push(child as u32);
                proof {
                    lemma_flat_at(mark_rows, f, i as int);
                    assert(marks[child as int] == edges@[i as int]);
                    assert(marks.take(child + 1).drop_last() =~= marks.take(child as int));
                    assert(items.take(child + 1).drop_last() =~= items.take(child as int));
                    assert(row_lists(kids@) =~= kb.update(at as int, kb[at as int].push(child as u32)));
                    assert(row_lists(kids@) =~= Seq::new(
                        ne,
                        |e: int| listed(marks.take(child + 1), items.take(child + 1), e as u32),
                    ));
                }
                i += 1;
                assert(views(faces@) =~= before + rows[f].take(i as int));
                assert(parents@ =~= parents_before + owners[f].take(i as int));
            }
            assert(rows[f].take(i as int) =~= rows[f]);
            assert(owners[f].take(i as int) =~= owners[f]);
        } else {
            let ghost moved = p.faces[f].map_values(|v: u32| p.vertex_point(v as int));
            let mut face: Vec<u32> = Vec::new();
            let mut c: usize = 0;
            while c < verts.len()
                invariant
                    p == parent_of(*level),
                    p.refined_vertex_count() <= u32::MAX,
                    p.vertex_count == n,
                    face_count == p.faces.len(),
                    moved == p.faces[f].map_values(|v: u32| p.vertex_point(v as int)),
                    verts@ == p.faces[f],
                    all_below(verts@, n as int),
                    c <= verts.len(),
                    face@ == moved.take(c as int),
                decreases verts.len() - c,
            {
                assert(verts@[c as int] < n);
                face.push((face_count + verts[c] as usize) as u32);
                c += 1;
                assert(face@ =~= moved.take(c as int));
            }
            assert(face@ =~= moved);
            faces.push(face);
            parents.push(fi as u32);
            assert(views(faces@) =~= before + rows[f]);
            assert(parents@ =~= parents_before + owners[f]);
            proof {
                lemma_flat_at(mark_rows, f, 0);
                assert(marks[start] == u32::MAX);
                assert(marks.take(start + 1).drop_last() =~= marks.take(start));
                assert(items.take(start + 1).drop_last() =~= items.take(start));
                assert(row_lists(kids@) =~= Seq::new(
                    ne,
                    |e: int| listed(marks.take(start + 1), items.take(start + 1), e as u32),
                ));
            }
        }
        proof {
            lemma_flat_take_next(rows, f);
            lemma_flat_take_next(owners, f);
            assert(views(faces@).len() == faces@.len());
        }
        fi += 1;
    }
    assert(rows.take(fi as int) =~= rows);
    assert(owners.take(fi as int) =~= owners);
    assert(views(faces@).len() == faces@.len());
    assert(marks.take(faces@.len() as int) =~= marks);
    assert(items.take(faces@.len() as int) =~= items);
    assert(row_lists(kids@) =~= p.kids());
    (faces, parents, kids)
}

/// A level that can be refined.
#[verifier::opaque]
pub open spec fn ready<S: Scalar>(level: LevelData<S>) -> bool {
    level.wf() && triangular(level)
}

proof fn lemma_ready_edge<S: Scalar>(level: LevelData<S>, e: int)
    requires
        ready(level),
        0 <= e < level.topo.edges().len(),
    ensures
        level.topo.edges()[e].0 < level.n(),
        level.topo.edges()[e].1 < level.n(),
{
    reveal(ready);
    assert(level.topo.edges()[e].0 < level.topo.edges()[e].1 && level.topo.edges()[e].1 < level.n());
}

/// Flips one old edge, given the faces on it.
fn flip_edge<S: Scalar>(level: &LevelData<S>, faces: &mut Vec<Vec<u32>>, children: &[u32], ei: usize)
    requires
        ready(*level),
        ei < level.topo.edges().len(),
        parent_of(*level).refined_vertex_count() <= u32::MAX,
        children@ == parent_of(*level).on_edge(ei as int),
        all_below(children@, old(faces)@.len() as int),
    ensures
        views(final(faces)@) == parent_of(*level).flip(views(old(faces)@), ei as int),
        final(faces)@.len() == old(faces)@.len(),
{
    reveal(ready);
    let ghost p = parent_of(*level);
    let ghost e = ei as int;
    let ghost before = views(faces@);
    let topo: &Topology<S> = &level.topo;
    let face_count: usize = topo.faces.len();
    proof {
        assert(p.edges[e].0 < p.edges[e].1 && p.edges[e].1 < p.vertex_count);
        assert(topo.edge_faces@[e].len() > 0 && all_below(topo.edge_faces@[e], topo.faces@.len() as int));
    }
    let ef: &[u32] = topo.edge_faces.row(ei);
    assert(ef@.len() >= 2 ==> ef@[0] < p.faces.len() && ef@[1] < p.faces.len());
    if topo.edge_is_boundary[ei] || one::<S>().at_most(level.effective_edge_creases[ei]) || ef.len() < 2
        || !level.face_selected[ef[0] as usize] || !level.face_selected[ef[1] as usize] || children.len() != 2 {
        assert(!p.flips(e));
        return;
    }
    assert(p.flips(e));
    let k0: usize = children[0] as usize;
    let k1: usize = children[1] as usize;
    assert(children@[0] < faces@.len() && children@[1] < faces@.len());
    let v0: usize = topo.edge_vertices[ei][0] as usize;
    let v1: usize = topo.edge_vertices[ei][1] as usize;
    let vp0: u32 = (face_count + v0) as u32;
    let vp1: u32 = (face_count + v1) as u32;
    assert(before[k0 as int] == faces@[k0 as int]@);
    assert(before[k1 as int] == faces@[k1 as int]@);
    let o0: Option<u32> = face_opposite_vertex(&faces[k0], vp0, vp1);
    let o1: Option<u32> = face_opposite_vertex(&faces[k1], vp0, vp1);
    match (o0, o1) {
        (Some(c0), Some(c1)) => {
            let mut t0: Vec<u32> = Vec::new();
            t0.push(c0);
            t0.push(c1);
            t0.push(vp0);
            let mut t1: Vec<u32> = Vec::new();
            t1.push(c0);
            t1.push(vp1);
            t1.push(c1);
            assert(t0@ =~= seq![c0, c1, vp0]);
            assert(t1@ =~= seq![c0, vp1, c1]);
            faces[k0] = t0;
            faces[k1] = t1;
            assert(views(faces@) =~= before.update(k0 as int, t0@).update(k1 as int, t1@));
        },
        _ => {},
    }
}

/// Flips the old edges.
fn flip_edges<S: Scalar>(level: &LevelData<S>, faces: &mut Vec<Vec<u32>>, kids: &[Row])
    requires
        ready(*level),
        parent_of(*level).refined_vertex_count() <= u32::MAX,
        views(old(faces)@) == parent_of(*level).split_faces(),
        row_lists(kids@) == parent_of(*level).kids(),
        parent_of(*level).base_edges().len() == parent_of(*level).split_faces().len(),
        parent_of(*level).base_edges().len() <= u32::MAX,
        all_proper(
            parent_of(*level).split_faces(),
            parent_of(*level).refined_vertex_count() as int,
            inherited_selection(parent_of(*level).face_parents(), level.face_selected@),
        ),
    ensures
        views(final(faces)@) == parent_of(*level).refined_faces(),
        all_proper(
            parent_of(*level).refined_faces(),
            parent_of(*level).refined_vertex_count() as int,
            inherited_selection(parent_of(*level).face_parents(), level.face_selected@),
        ),
{
    let ghost p = parent_of(*level);
    let ghost sel = inherited_selection(p.face_parents(), p.selected);
    let ghost total = p.refined_vertex_count() as int;
    proof {
        assert(views(faces@).len() == faces@.len());
        assert(row_lists(kids@).len() == kids@.len());
    }
    let mut ei: usize = 0;
    while ei < kids.len()
        invariant
            p == parent_of(*level),
            total == p.refined_vertex_count(),
            total <= u32::MAX,
            ready(*level),
            kids@.len() == p.edges.len(),
            row_lists(kids@) == p.kids(),
            p.base_edges().len() <= u32::MAX,
            ei <= p.edges.len(),
            views(faces@) == p.flipped(ei as int),
            faces@.len() == p.base_edges().len(),
            all_proper(views(faces@), total, sel),
        decreases p.edges.len() - ei,
    {
        let ghost e = ei as int;
        proof {
            lemma_ready_edge(*level, e);
            lemma_on_edge(p, e);
            lemma_flip_proper(p, views(faces@), e, total, sel);
            assert(row_lists(kids@)[e] == p.on_edge(e));
            assert(row_lists(kids@)[e] == row_items(kids@[e]));
        }
        flip_edge(level, faces, kids[ei].as_slice(), ei);
        ei += 1;
    }
}

/// One level of refinement. Creases persist, as an edge is flipped at any level only
/// if its crease is below one.
#[verifier::rlimit(100)]
pub fn refine_topology_once<S: Scalar>(
    parent: &LevelData<S>,
    options: &SchemeOptions,
    selection_boundary_crease: S,
) -> (r: Result<LevelData<S>, KernelError>)
    requires
        parent.wf(),
        triangular(*parent),
    ensures
        match parent_of(*parent).fault() {
            Some(fault) => r == Err::<LevelData<S>, _>(KernelError::InvalidTopology(fault_text(fault))),
            None => r is Ok && sqrt3_refines(*parent, *options, selection_boundary_crease, r->Ok_0),
        },
{
    let ghost p = parent_of(*parent);
    let ghost sel = inherited_selection(p.face_parents(), p.selected);
    let n: u32 = parent.mesh.vertex_count;
    let face_count: usize = parent.topo.faces.len();
    let total: u64 = face_count as u64 + n as u64;
    if total > u32::MAX as u64 {
        return Err(fault_error(MeshFault::TooLarge));
    }
    if total == 0 {
        return Err(fault_error(MeshFault::NoVertices));
    }
    let (mut faces, face_parent, kids) = split_faces(parent);
    proof {
        lemma_split_proper(*parent);
        reveal(ready);
    }
    flip_edges(parent, &mut faces, &kids);
    proof {
        lemma_split_proper(*parent);
        assert forall|i: int| 0 <= i < faces@.len() implies (#[trigger] faces@[i])@.len() <= u32::MAX by {
            assert(proper(views(faces@)[i], total as int, sel[i]));
        }
        assert forall|q: int| 0 <= q < p.refined_faces().len() implies 3 <= (#[trigger] p.refined_faces()[q]).len()
            <= u32::MAX && all_below(p.refined_faces()[q], total as int) by {
            assert(proper(p.refined_faces()[q], total as int, sel[q]));
        }
        lemma_proper_faces_fault(p.refined_faces(), total as int);
    }
    let (counts, indices) = pack_faces(&faces);
    let bare = Mesh {
        vertex_count: total as u32,
        face_vertex_counts: counts,
        face_vertex_indices: indices,
        edge_vertices: Vec::new(),
        edge_creases: Vec::new(),
        vertex_corners: Vec::new(),
    };
    let mut topo: Topology<S> = match build_topology_raw(&bare, true, CreaseTie::Greater) {
        Ok(topo) => topo,
        Err(fault) => {
            return Err(fault_error(fault));
        },
    };
    let ghost nn = p.refined_vertex_count();
    let (edge_creases, edge_parent) = inherit_creases(parent, &topo, options);
    topo.edge_creases = copied(&edge_creases);
    assert(topo.sound(nn));
    assert(topo.describes(p.refined_faces(), key_labels(corner_keys(p.refined_faces())), nn));
    let (corners, origins) = refined_vertices(&parent.mesh.vertex_corners, face_count, options, Ghost(p));
    let face_selected: Vec<bool> = select_by_parent(&face_parent, &parent.face_selected);
    let adjacency = adjacency_from_topology(&topo, Ghost(nn));
    let (edge_has_selected_face, effective_edge_creases) = compute_edge_data(
        &topo,
        &face_selected,
        selection_boundary_crease,
        Ghost(nn),
    );
    let mesh = Mesh {
        vertex_count: total as u32,
        face_vertex_counts: bare.face_vertex_counts,
        face_vertex_indices: bare.face_vertex_indices,
        edge_vertices: copied(&topo.edge_vertices),
        edge_creases,
        vertex_corners: corners,
    };
    let child = LevelData {
        mesh,
        topo,
        face_selected,
        effective_edge_creases,
        edge_has_selected_face,
        effective_vertex_corners: Vec::new(),
        lineage: LineageMaps { vertex_origin: origins, face_parent, edge_parent },
        adjacency,
    };
    proof {
        assert(triangular(child)) by {
            assert forall|f: int|
                0 <= f < child.face_selected@.len() && child.face_selected@[f] implies (
            #[trigger] child.topo.faces@[f]).len() == 3 by {
                assert(proper(p.refined_faces()[f], total as int, sel[f]));
            }
        }
    }
    Ok(child)
}

/// Creases and parents of the refined edges.
fn inherit_creases<S: Scalar>(parent: &LevelData<S>, topo: &Topology<S>, options: &SchemeOptions) -> (r: (
    Vec<S>,
    Vec<u32>,
))
    requires
        parent.wf(),
        parent_of(*parent).refined_vertex_count() <= u32::MAX,
        forall|k: EdgeKey| #[trigger]
            topo.edge_key_to_index@.contains_key(k) ==> topo.edge_key_to_index@[k] < topo.edges().len(),
    ensures
        (Inherited { creases: r.0@, parents: r.1@ }) == parent_of(*parent).inherited(
            *options,
            topo.edge_key_to_index@,
            topo.edges().len(),
            parent.topo.edges().len() as int,
        ),
        r.0@.len() == topo.edges().len(),
        r.1@.len() == topo.edges().len(),
{
    let ghost p = parent_of(*parent);
    let face_count: usize = parent.topo.faces.len();
    let edge_count: usize = parent.topo.edge_vertices.len();
    let ghost table = topo.edge_key_to_index@;
    let ghost child_edges = topo.edges().len();
    let mut edge_creases: Vec<S> = zeros::<S>(topo.edge_vertices.len());
    let mut edge_parent: Vec<u32> = no_parents(topo.edge_vertices.len());
    let mut ei: usize = 0;
    while ei < edge_count
        invariant
            p == parent_of(*parent),
            parent.wf(),
            face_count == p.faces.len(),
            edge_count == p.edges.len(),
            p.refined_vertex_count() <= u32::MAX,
            ei <= edge_count,
            table == topo.edge_key_to_index@,
            child_edges == topo.edges().len(),
            edge_creases@.len() == child_edges,
            edge_parent@.len() == child_edges,
            forall|k: EdgeKey| #[trigger] table.contains_key(k) ==> table[k] < child_edges,
            (Inherited { creases: edge_creases@, parents: edge_parent@ }) == p.inherited(
                *options,
                table,
                child_edges,
                ei as int,
            ),
        decreases edge_count - ei,
    {
        assert(p.edges[ei as int].0 < p.edges[ei as int].1 && p.edges[ei as int].1 < p.vertex_count);
        let crease: S = parent.effective_edge_creases[ei];
        let child: S = if options.crease_normalize {
            crease
        } else {
            decay_sharpness(crease)
        };
        if is_positive(crease) && !child.at_most(zero()) {
            let v0: usize = parent.topo.edge_vertices[ei][0] as usize;
            let v1: usize = parent.topo.edge_vertices[ei][1] as usize;
            let key: EdgeKey = edge_key((face_count + v0) as u32, (face_count + v1) as u32);
            let table: &crate::hashing::EdgeMap<usize> = &topo.edge_key_to_index;
            hand_down(&mut edge_creases, &mut edge_parent, table, key, child, true, ei as u32);
        }
        ei += 1;
    }
    (edge_creases, edge_parent)
}

/// Corner sharpness and origin of the refined vertices.
fn refined_vertices<S: Scalar>(
    parent_corners: &[S],
    face_count: usize,
    options: &SchemeOptions,
    Ghost(p): Ghost<Parent<S>>,
) -> (r: (Vec<S>, Vec<VertexOrigin>))
    requires
        face_count == p.faces.len(),
        parent_corners@.len() == p.vertex_count,
        p.refined_vertex_count() <= u32::MAX,
    ensures
        r.0@ == p.corners(parent_corners@, *options),
        r.1@ == p.origins(),
{
    let total: usize = face_count + parent_corners.len();
    let ghost all = p.corners(parent_corners@, *options);
    let ghost from = p.origins();
    let mut corners: Vec<S> = Vec::new();
    let mut origins: Vec<VertexOrigin> = Vec::new();
    let mut i: usize = 0;
    while i < total
        invariant
            i <= total,
            face_count == p.faces.len(),
            parent_corners@.len() == p.vertex_count,
            total == p.refined_vertex_count(),
            total <= u32::MAX,
            all == p.corners(parent_corners@, *options),
            from == p.origins(),
            corners@ == all.take(i as int),
            origins@ == from.take(i as int),
        decreases total - i,
    {
        if i < face_count {
            corners.push(zero());
            origins.push(VertexOrigin::Face(i as u32));
        } else {
            let c: S = parent_corners[i - face_count];
            corners.push(
                if options.corner_normalize || c.at_most(zero()) {
                    c
                } else {
                    decay_sharpness(c)
                },
            );
            origins.push(VertexOrigin::Vertex((i - face_count) as u32));
        }
        i += 1;
        assert(corners@ =~= all.take(i as int));
        assert(origins@ =~= from.take(i as int));
    }
    assert(all.take(i as int) =~= all);
    assert(from.take(i as int) =~= from);
    (corners, origins)
}

} // verus!
