//! One level of Loop refinement.

use super::topology::{build_loop_refined_uniform, lemma_child_counts, parent_of, Parent};
use crate::connectivity::{
    corner_faces, corner_keys, edge_key, edge_key_of, key_labels, lemma_flat_at, lemma_same_starts, owner_rows, pairs,
};
use crate::csr::{copied, lemma_row_within_flat};
use crate::error::KernelError;
use crate::hashing::EdgeKey;
use crate::incidence::{
    build_topology_raw, edge_fault, lemma_flat_locate, CreaseTie, MeshFault, RefinedUniform, Topology,
};
use crate::level::{
    adjacency_from_topology, adjacency_of, all_true, check_all_true, compute_edge_data, corner_counts,
    effective_creases, fault_error, fault_text, hand_down, inherit, inherited_selection, lemma_proper_faces_fault,
    no_parents, nothing_inherited, pack_faces, select_by_parent, selected_edges, Inherited, LevelData,
};
use crate::options::SchemeOptions;
use crate::output::{LineageMaps, VertexOrigin};
use crate::rows::{flat, lemma_flat_take_next, views};
use crate::rules::{creases_at, effective_corner_at};
use crate::scalar::{zero, zero_of, zeros, Scalar};
use crate::sharpness::{auto_corner_of, decay_sharpness, decayed};
use crate::slots::lemma_uniform_start;
use crate::topology::{all_below, Mesh};
use vstd::prelude::*;

verus! {

/// The selected faces are triangles.
pub open spec fn triangular<S: Scalar>(level: LevelData<S>) -> bool {
    forall|f: int|
        0 <= f < level.face_selected@.len() && level.face_selected@[f] ==> (#[trigger] level.topo.faces@[f]).len()
            == 3
}

/// A level of the Loop scheme.
pub open spec fn loop_wf<S: Scalar>(level: LevelData<S>) -> bool {
    &&& level.wf()
    &&& triangular(level)
    &&& level.effective_vertex_corners@.len() == level.n()
}

/// The corners of a mesh, with those that creases make.
pub open spec fn effective_corners<S: Scalar>(
    corners: Seq<S>,
    auto: bool,
    vertex_edges: Seq<Seq<u32>>,
    creases: Seq<S>,
) -> Seq<S> {
    Seq::new(
        corners.len(),
        |v: int|
            if auto {
                S::larger_of(corners[v], auto_corner_of(creases_at(vertex_edges[v], creases)))
            } else {
                corners[v]
            },
    )
}

pub(crate) fn compute_effective_vertex_corners<S: Scalar>(
    corners: &[S],
    topo: &Topology<S>,
    creases: &[S],
    options: &SchemeOptions,
) -> (r: Vec<S>)
    requires
        topo.sound(corners@.len()),
        creases@.len() == topo.edges().len(),
    ensures
        r@ == effective_corners(corners@, options.auto_corner, topo.vertex_edges@, creases@),
{
    let ghost all = effective_corners(corners@, options.auto_corner, topo.vertex_edges@, creases@);
    let mut out: Vec<S> = Vec::new();
    let mut v: usize = 0;
    while v < corners.len()
        invariant
            v <= corners.len(),
            topo.sound(corners@.len()),
            creases@.len() == topo.edges().len(),
            all == effective_corners(corners@, options.auto_corner, topo.vertex_edges@, creases@),
            out@ == all.take(v as int),
        decreases corners.len() - v,
    {
        assert(all_below(topo.vertex_edges@[v as int], topo.edges().len() as int));
        let explicit: S = corners[v];
        out.push(
            if options.auto_corner {
                effective_corner_at(explicit, true, topo.vertex_edges.row(v), creases)
            } else {
                explicit
            },
        );
        v += 1;
        assert(out@ =~= all.take(v as int));
    }
    assert(out@ =~= all);
    out
}

// ---------------------------------------------------------------------------
// The refined faces
// ---------------------------------------------------------------------------
/// The faces that face `f` becomes: four triangles if it is selected, else
/// itself between the vertex points.
pub open spec fn loop_children(p: Parent, selected: Seq<bool>, f: int) -> Seq<Seq<u32>> {
    if selected[f] {
        Seq::new(4, |j: int| p.child(f, j))
    } else {
        seq![p.faces[f].map_values(|v: u32| p.vertex_point(v as int))]
    }
}

pub open spec fn loop_child_rows(p: Parent, selected: Seq<bool>) -> Seq<Seq<Seq<u32>>> {
    Seq::new(p.faces.len(), |f: int| loop_children(p, selected, f))
}

/// The refined faces.
pub open spec fn loop_faces(p: Parent, selected: Seq<bool>) -> Seq<Seq<u32>> {
    flat(loop_child_rows(p, selected))
}

/// The parent of each refined face.
pub open spec fn loop_face_parents(p: Parent, selected: Seq<bool>) -> Seq<u32> {
    corner_faces(loop_child_rows(p, selected))
}

/// How corners are put on edges: by slots where all faces are refined, else by
/// end points.
pub open spec fn loop_labels(p: Parent, selected: Seq<bool>) -> Seq<int> {
    if all_true(selected) {
        p.slots()
    } else {
        key_labels(corner_keys(loop_faces(p, selected)))
    }
}

/// Why a mesh cannot be refined.
pub open spec fn loop_fault(p: Parent, selected: Seq<bool>) -> Option<MeshFault> {
    if p.refined_vertex_count() > u32::MAX {
        Some(MeshFault::TooLarge)
    } else if all_true(selected) {
        if 12 * p.faces.len() >= u32::MAX || 2 * p.slot_count() > u32::MAX {
            Some(MeshFault::TooLarge)
        } else {
            None
        }
    } else {
        edge_fault(loop_faces(p, selected))
    }
}

/// The vertices of the refined mesh: edges, vertices.
pub open spec fn loop_origins(p: Parent) -> Seq<VertexOrigin> {
    Seq::new(
        p.refined_vertex_count(),
        |i: int|
            if i < p.edges.len() {
                VertexOrigin::Edge(i as u32)
            } else {
                VertexOrigin::Vertex((i - p.edges.len()) as u32)
            },
    )
}

/// Corner sharpness of the refined vertices: vertex points keep theirs.
pub open spec fn loop_corners<S: Scalar>(p: Parent, corners: Seq<S>) -> Seq<S> {
    Seq::new(
        p.refined_vertex_count(),
        |i: int|
            if i < p.edges.len() {
                zero_of::<S>()
            } else {
                corners[i - p.edges.len()]
            },
    )
}

/// What the first `k` parent edges hand down.
pub open spec fn loop_inherited<S: Scalar>(
    p: Parent,
    creases: Seq<S>,
    table: Map<EdgeKey, usize>,
    edge_count: nat,
    k: int,
) -> Inherited<S>
    decreases k,
{
    if k <= 0 {
        nothing_inherited(edge_count)
    } else {
        let e = k - 1;
        let before = loop_inherited(p, creases, table, edge_count, e);
        let child = decayed(creases[e]);
        if S::at_most_of(creases[e], zero_of()) || S::at_most_of(child, zero_of()) {
            before
        } else {
            let key0 = edge_key_of(p.vertex_point(p.edges[e].0 as int), e as u32);
            let key1 = edge_key_of(p.vertex_point(p.edges[e].1 as int), e as u32);
            let first = inherit(before, table, key0, child, true, e as u32);
            inherit(first, table, key1, child, true, e as u32)
        }
    }
}

/// `child` is the refinement of `parent`.
pub open spec fn loop_refines<S: Scalar>(
    parent: LevelData<S>,
    options: SchemeOptions,
    boundary_crease: S,
    child: LevelData<S>,
) -> bool {
    let p = parent_of(parent.topo, parent.n());
    let sel = parent.face_selected@;
    let faces = loop_faces(p, sel);
    let inherited = loop_inherited(
        p,
        parent.effective_edge_creases@,
        child.topo.edge_key_to_index@,
        child.topo.edges().len(),
        p.edges.len() as int,
    );
    &&& loop_wf(child)
    &&& child.mesh.vertex_count == p.refined_vertex_count()
    &&& child.topo.describes(faces, loop_labels(p, sel), p.refined_vertex_count())
    &&& child.topo.edge_creases@ == inherited.creases
    &&& pairs(child.mesh.edge_vertices@) == child.topo.edges()
    &&& child.mesh.edge_creases@ == inherited.creases
    &&& child.mesh.vertex_corners@ == loop_corners(p, parent.mesh.vertex_corners@)
    &&& child.face_selected@ == inherited_selection(loop_face_parents(p, sel), sel)
    &&& child.edge_has_selected_face@ == selected_edges(child.topo.edge_faces@, child.face_selected@)
    &&& child.effective_edge_creases@ == effective_creases(
        inherited.creases,
        child.topo.edge_faces@,
        child.face_selected@,
        boundary_crease,
    )
    &&& child.effective_vertex_corners@ == effective_corners(
        child.mesh.vertex_corners@,
        options.auto_corner,
        child.topo.vertex_edges@,
        child.effective_edge_creases@,
    )
    &&& child.lineage.vertex_origin@ == loop_origins(p)
    &&& child.lineage.face_parent@ == loop_face_parents(p, sel)
    &&& child.lineage.edge_parent@ == inherited.parents
    &&& adjacency_of(child.adjacency, child.topo)
}

/// Where every face is refined the refined faces are the children.
pub proof fn lemma_all_selected(p: Parent, selected: Seq<bool>)
    requires
        selected.len() == p.faces.len(),
        all_true(selected),
    ensures
        loop_faces(p, selected) == p.children(),
        loop_face_parents(p, selected) == Seq::new(4 * p.faces.len(), |q: int| (q / 4) as u32),
{
    let rows = loop_child_rows(p, selected);
    let owners = owner_rows(rows);
    let nf = p.faces.len() as int;
    assert forall|f: int| 0 <= f < nf implies (#[trigger] rows[f]).len() == 4 by {
        assert(selected[f]);
    }
    assert forall|f: int| 0 <= f < nf implies (#[trigger] owners[f]).len() == 4 by {
        assert(rows[f].len() == 4);
    }
    lemma_uniform_start(rows, 4, nf);
    lemma_uniform_start(owners, 4, nf);
    assert(rows.take(nf) =~= rows);
    assert(owners.take(nf) =~= owners);
    assert forall|q: int| 0 <= q < 4 * nf implies flat(rows)[q] == p.children()[q] && flat(owners)[q] == (q
        / 4) as u32 by {
        let f = q / 4;
        let j = q % 4;
        assert(selected[f]);
        assert(rows[f].len() == 4 && owners[f].len() == 4);
        lemma_uniform_start(rows, 4, f);
        lemma_uniform_start(owners, 4, f);
        lemma_flat_at(rows, f, j);
        lemma_flat_at(owners, f, j);
    }
    assert(loop_faces(p, selected) =~= p.children());
    assert(loop_face_parents(p, selected) =~= Seq::new(4 * p.faces.len(), |q: int| (q / 4) as u32));
}

proof fn lemma_parent_ok<S: Scalar>(level: LevelData<S>)
    requires
        loop_wf(level),
        all_true(level.face_selected@),
        parent_of(level.topo, level.n()).refined_vertex_count() <= u32::MAX,
        12 * level.topo.faces@.len() < u32::MAX,
        2 * parent_of(level.topo, level.n()).slot_count() <= u32::MAX,
    ensures
        parent_of(level.topo, level.n()).ok(),
{
    reveal(Parent::ok);
    let t = level.topo;
    assert forall|f: int| 0 <= f < t.faces@.len() implies (#[trigger] t.faces@[f]).len() == 3 by {
        assert(level.face_selected@[f]);
    }
    assert forall|f: int| 0 <= f < t.faces@.len() implies (#[trigger] t.face_edges@[f]).len() == 3 && all_below(
        t.face_edges@[f],
        t.edges().len() as int,
    ) by {
        assert(t.faces@[f].len() == 3);
    }
}

/// The refined faces are proper faces of the refined mesh.
pub proof fn lemma_loop_faces_proper<S: Scalar>(level: LevelData<S>)
    requires
        loop_wf(level),
        parent_of(level.topo, level.n()).refined_vertex_count() <= u32::MAX,
    ensures
        ({
            let p = parent_of(level.topo, level.n());
            let faces = loop_faces(p, level.face_selected@);
            &&& forall|q: int|
                0 <= q < faces.len() ==> 3 <= (#[trigger] faces[q]).len() <= u32::MAX && all_below(
                    faces[q],
                    p.refined_vertex_count() as int,
                )
            &&& forall|q: int|
                0 <= q < faces.len() && inherited_selection(loop_face_parents(p, level.face_selected@),
                    level.face_selected@)[q] ==> (#[trigger] faces[q]).len() == 3
            &&& loop_face_parents(p, level.face_selected@).len() == faces.len()
            &&& all_below(loop_face_parents(p, level.face_selected@), p.faces.len() as int)
        }),
{
    let p = parent_of(level.topo, level.n());
    let n = level.n();
    let selected = level.face_selected@;
    let rows = loop_child_rows(p, selected);
    let owners = owner_rows(rows);
    let faces = loop_faces(p, selected);
    lemma_same_starts(owners, rows, 0);
    assert forall|q: int| 0 <= q < faces.len() implies 3 <= (#[trigger] faces[q]).len() <= u32::MAX && all_below(
        faces[q],
        p.refined_vertex_count() as int,
    ) && (inherited_selection(loop_face_parents(p, selected), selected)[q] ==> faces[q].len() == 3)
        && loop_face_parents(p, selected)[q] < p.faces.len() by {
        let (f, c) = lemma_flat_locate(rows, q);
        lemma_same_starts(owners, rows, f);
        lemma_flat_at(owners, f, c);
        assert(p.faces[f].len() >= 3 && all_below(p.faces[f], n as int));
        assert(p.face_edges[f].len() == p.faces[f].len());
        assert(all_below(p.face_edges[f], p.edges.len() as int));
        lemma_row_within_flat(p.faces, f);
        if selected[f] {
            assert(p.faces[f].len() == 3);
            assert(p.face_edges[f][0] < p.edges.len());
            assert(p.face_edges[f][1] < p.edges.len());
            assert(p.face_edges[f][2] < p.edges.len());
            assert(p.faces[f][0] < n && p.faces[f][1] < n && p.faces[f][2] < n);
        } else {
            let row = p.faces[f].map_values(|v: u32| p.vertex_point(v as int));
            assert forall|k: int| 0 <= k < row.len() implies (#[trigger] row[k]) < p.refined_vertex_count() by {
                assert(p.faces[f][k] < n);
            }
        }
    }
    let parents = loop_face_parents(p, selected);
    assert forall|q: int| 0 <= q < parents.len() implies (#[trigger] parents[q]) < p.faces.len() by {
        assert(3 <= faces[q].len());
    }
}

/// The refined faces, when some faces are left as they are.
fn split_faces<S: Scalar>(level: &LevelData<S>) -> (r: (Vec<Vec<u32>>, Vec<u32>))
    requires
        loop_wf(*level),
        parent_of(level.topo, level.n()).refined_vertex_count() <= u32::MAX,
    ensures
        views(r.0@) == loop_faces(parent_of(level.topo, level.n()), level.face_selected@),
        r.1@ == loop_face_parents(parent_of(level.topo, level.n()), level.face_selected@),
{
    let topo: &Topology<S> = &level.topo;
    let n: u32 = level.mesh.vertex_count;
    let ghost p = parent_of(*topo, n as nat);
    let ghost rows = loop_child_rows(p, level.face_selected@);
    let ghost owners = owner_rows(rows);
    let face_count: usize = topo.faces.len();
    let edge_count: u32 = topo.edge_vertices.len() as u32;
    let mut faces: Vec<Vec<u32>> = Vec::new();
    let mut parents: Vec<u32> = Vec::new();
    let mut fi: usize = 0;
    assert(rows.take(0) =~= Seq::<Seq<Seq<u32>>>::empty());
    assert(owners.take(0) =~= Seq::<Seq<u32>>::empty());
    assert(views(faces@) =~= flat(rows.take(0)));
    while fi < face_count
        invariant
            topo == &level.topo,
            n == level.n(),
            p == parent_of(*topo, n as nat),
            rows == loop_child_rows(p, level.face_selected@),
            owners == owner_rows(rows),
            loop_wf(*level),
            p.refined_vertex_count() <= u32::MAX,
            face_count == p.faces.len(),
            edge_count == p.edges.len(),
            fi <= face_count,
            views(faces@) == flat(rows.take(fi as int)),
            parents@ == flat(owners.take(fi as int)),
        decreases face_count - fi,
    {
        let ghost f = fi as int;
        let ghost before = views(faces@);
        let ghost parents_before = parents@;
        let verts: &[u32] = topo.faces.row(fi);
        let edges: &[u32] = topo.face_edges.row(fi);
        proof {
            assert(p.faces[f].len() >= 3 && all_below(p.faces[f], n as int));
            assert(p.face_edges[f].len() == p.faces[f].len());
            assert(all_below(p.face_edges[f], p.edges.len() as int));
        }
        if level.face_selected[fi] {
            assert(p.faces[f].len() == 3);
            assert(views(faces@) =~= before + rows[f].take(0));
            assert(parents@ =~= parents_before + owners[f].take(0));
            let mut j: usize = 0;
            while j < 4
                invariant
                    p == parent_of(*topo, n as nat),
                    rows == loop_child_rows(p, level.face_selected@),
                    owners == owner_rows(rows),
                    p.refined_vertex_count() <= u32::MAX,
                    p.vertex_count == n,
                    face_count == p.faces.len(),
                    face_count <= u32::MAX,
                    edge_count == p.edges.len(),
                    fi < face_count,
                    f == fi,
                    level.face_selected@[f],
                    verts@ == p.faces[f],
                    edges@ == p.face_edges[f],
                    edges@.len() == 3,
                    verts@.len() == 3,
                    all_below(verts@, n as int),
                    j <= 4,
                    views(faces@) == before + rows[f].take(j as int),
                    parents@ == parents_before + owners[f].take(j as int),
                decreases 4 - j,
            {
                let mut tri: Vec<u32> = Vec::new();
                if j == 3 {
                    tri.push(edges[0]);
                    tri.push(edges[1]);
                    tri.push(edges[2]);
                } else {
                    assert(verts@[j as int] < n);
                    tri.push(edge_count + verts[j]);
                    tri.push(edges[j]);
                    tri.push(
                        if j == 0 {
                            edges[2]
                        } else {
                            edges[j - 1]
                        },
                    );
                }
                assert(tri@ =~= p.child(f, j as int));
                let ghost vb = views(faces@);
                faces.push(tri);
                parents.push(fi as u32);
                assert(views(faces@) =~= vb.push(tri@));
                j += 1;
                assert(views(faces@) =~= before + rows[f].take(j as int));
                assert(parents@ =~= parents_before + owners[f].take(j as int));
            }
            assert(rows[f].take(j as int) =~= rows[f]);
            assert(owners[f].take(j as int) =~= owners[f]);
        } else {
            let ghost moved = p.faces[f].map_values(|v: u32| p.vertex_point(v as int));
            let mut face: Vec<u32> = Vec::new();
            let mut c: usize = 0;
            while c < verts.len()
                invariant
                    p == parent_of(*topo, n as nat),
                    p.refined_vertex_count() <= u32::MAX,
                    p.vertex_count == n,
                    edge_count == p.edges.len(),
                    moved == p.faces[f].map_values(|v: u32| p.vertex_point(v as int)),
                    verts@ == p.faces[f],
                    all_below(verts@, n as int),
                    c <= verts.len(),
                    face@ == moved.take(c as int),
                decreases verts.len() - c,
            {
                assert(verts@[c as int] < n);
                face.push(edge_count + verts[c]);
                c += 1;
                assert(face@ =~= moved.take(c as int));
            }
            assert(face@ =~= moved);
            faces.push(face);
            parents.push(fi as u32);
            assert(views(faces@) =~= before + rows[f]);
            assert(parents@ =~= parents_before + owners[f]);
        }
        proof {
            lemma_flat_take_next(rows, f);
            lemma_flat_take_next(owners, f);
        }
        fi += 1;
    }
    assert(rows.take(fi as int) =~= rows);
    assert(owners.take(fi as int) =~= owners);
    (faces, parents)
}

/// Tables of the refined mesh, with no creases yet, and the parents of its
/// faces.
fn refined_tables<S: Scalar>(parent: &LevelData<S>) -> (r: Result<RefinedUniform<S>, MeshFault>)
    requires
        loop_wf(*parent),
    ensures
        ({
            let p = parent_of(parent.topo, parent.n());
            let sel = parent.face_selected@;
            let faces = loop_faces(p, sel);
            match r {
                Ok(t) => {
                    &&& loop_fault(p, sel) is None
                    &&& t.face_vertex_counts@ == corner_counts(faces)
                    &&& t.face_vertex_indices@ == flat(faces)
                    &&& t.face_parent@ == loop_face_parents(p, sel)
                    &&& t.topology.describes(faces, loop_labels(p, sel), p.refined_vertex_count())
                    &&& t.topology.sound(p.refined_vertex_count())
                    &&& t.topology.edge_creases@ == Seq::new(
                        t.topology.edges().len(),
                        |e: int| zero_of::<S>(),
                    )
                },
                Err(fault) => loop_fault(p, sel) == Some(fault),
            }
        }),
{
    let ghost p = parent_of(parent.topo, parent.n());
    let ghost sel = parent.face_selected@;
    let n: u32 = parent.mesh.vertex_count;
    let face_count: usize = parent.topo.faces.len();
    let edge_count: usize = parent.topo.edge_vertices.len();
    let total: u64 = edge_count as u64 + n as u64;
    if total > u32::MAX as u64 {
        return Err(MeshFault::TooLarge);
    }
    if check_all_true(&parent.face_selected) {
        let fc: u64 = face_count as u64;
        if 12 * fc >= u32::MAX as u64 || 2 * (3 * fc + 2 * edge_count as u64) > u32::MAX as u64 {
            return Err(MeshFault::TooLarge);
        }
        proof {
            lemma_parent_ok(*parent);
            lemma_all_selected(p, sel);
            lemma_child_counts(p);
        }
        let r = build_loop_refined_uniform(&parent.topo, n);
        assert(r.face_vertex_counts@ =~= corner_counts(p.children()));
        return Ok(r);
    }
    let (faces, parents) = split_faces(parent);
    proof {
        lemma_loop_faces_proper(*parent);
        assert forall|i: int| 0 <= i < faces@.len() implies (#[trigger] faces@[i])@.len() <= u32::MAX by {
            assert(views(faces@)[i].len() <= u32::MAX);
        }
    }
    let (counts, indices) = pack_faces(&faces);
    assert(n > 0) by {
        if p.faces.len() > 0 {
            assert(p.faces[0].len() >= 3 && all_below(p.faces[0], n as int));
            assert(p.faces[0][0] < n);
        }
    }
    let mesh = Mesh {
        vertex_count: total as u32,
        face_vertex_counts: counts,
        face_vertex_indices: indices,
        edge_vertices: Vec::new(),
        edge_creases: Vec::new(),
        vertex_corners: Vec::new(),
    };
    proof {
        lemma_proper_faces_fault(loop_faces(p, sel), total as int);
    }
    match build_topology_raw(&mesh, true, CreaseTie::Greater) {
        Ok(topology) => {
            assert(topology.edge_creases@ =~= Seq::new(topology.edges().len(), |e: int| zero_of::<S>()));
            Ok(
                RefinedUniform {
                    face_vertex_counts: mesh.face_vertex_counts,
                    face_vertex_indices: mesh.face_vertex_indices,
                    face_parent: parents,
                    topology,
                },
            )
        },
        Err(fault) => Err(fault),
    }
}

/// One level of refinement.
#[verifier::rlimit(60)]
pub fn refine_topology_once<S: Scalar>(
    parent: &LevelData<S>,
    options: &SchemeOptions,
    selection_boundary_crease: S,
) -> (r: Result<LevelData<S>, KernelError>)
    requires
        loop_wf(*parent),
    ensures
        match loop_fault(parent_of(parent.topo, parent.n()), parent.face_selected@) {
            Some(fault) => r == Err::<LevelData<S>, _>(KernelError::InvalidTopology(fault_text(fault))),
            None => r is Ok && loop_refines(*parent, *options, selection_boundary_crease, r->Ok_0),
        },
{
    let ghost p = parent_of(parent.topo, parent.n());
    let ghost sel = parent.face_selected@;
    let tables: RefinedUniform<S> = match refined_tables(parent) {
        Ok(tables) => tables,
        Err(fault) => {
            return Err(fault_error(fault));
        },
    };
    let RefinedUniform { face_vertex_counts, face_vertex_indices, face_parent, topology } = tables;
    let mut topo: Topology<S> = topology;
    let n: usize = parent.mesh.vertex_count as usize;
    let edge_count: usize = parent.topo.edge_vertices.len();
    let total: usize = edge_count + n;
    let ghost nn = p.refined_vertex_count();
    let (edge_creases, edge_parent) = inherit_creases(parent, &topo);
    topo.edge_creases = copied(&edge_creases);
    assert(topo.sound(nn));
    assert(topo.describes(loop_faces(p, sel), loop_labels(p, sel), nn));
    let (corners, origins) = refined_vertices(&parent.mesh.vertex_corners, edge_count, Ghost(p));
    proof {
        lemma_loop_faces_proper(*parent);
    }
    let face_selected: Vec<bool> = select_by_parent(&face_parent, &parent.face_selected);
    let adjacency = adjacency_from_topology(&topo, Ghost(nn));
    let (edge_has_selected_face, effective_edge_creases) = compute_edge_data(
        &topo,
        &face_selected,
        selection_boundary_crease,
        Ghost(nn),
    );
    let effective_vertex_corners: Vec<S> = compute_effective_vertex_corners(
        &corners,
        &topo,
        &effective_edge_creases,
        options,
    );
    let mesh = Mesh {
        vertex_count: total as u32,
        face_vertex_counts,
        face_vertex_indices,
        edge_vertices: copied(&topo.edge_vertices),
        edge_creases,
        vertex_corners: corners,
    };
    Ok(
        LevelData {
            mesh,
            topo,
            face_selected,
            effective_edge_creases,
            edge_has_selected_face,
            effective_vertex_corners,
            lineage: LineageMaps { vertex_origin: origins, face_parent, edge_parent },
            adjacency,
        },
    )
}

/// Creases and parents of the refined edges.
fn inherit_creases<S: Scalar>(parent: &LevelData<S>, topo: &Topology<S>) -> (r: (Vec<S>, Vec<u32>))
    requires
        parent.wf(),
        parent_of(parent.topo, parent.n()).refined_vertex_count() <= u32::MAX,
        forall|k: EdgeKey| #[trigger]
            topo.edge_key_to_index@.contains_key(k) ==> topo.edge_key_to_index@[k] < topo.edges().len(),
    ensures
        (Inherited { creases: r.0@, parents: r.1@ }) == loop_inherited(
            parent_of(parent.topo, parent.n()),
            parent.effective_edge_creases@,
            topo.edge_key_to_index@,
            topo.edges().len(),
            parent.topo.edges().len() as int,
        ),
        r.0@.len() == topo.edges().len(),
        r.1@.len() == topo.edges().len(),
{
    let ghost p = parent_of(parent.topo, parent.n());
    let edge_count: usize = parent.topo.edge_vertices.len();
    let ghost creases = parent.effective_edge_creases@;
    let ghost table = topo.edge_key_to_index@;
    let ghost child_edges = topo.edges().len();
    let mut edge_creases: Vec<S> = zeros::<S>(topo.edge_vertices.len());
    let mut edge_parent: Vec<u32> = no_parents(topo.edge_vertices.len());
    let mut ei: usize = 0;
    while ei < edge_count
        invariant
            p == parent_of(parent.topo, parent.n()),
            parent.wf(),
            creases == parent.effective_edge_creases@,
            edge_count == p.edges.len(),
            p.refined_vertex_count() <= u32::MAX,
            ei <= edge_count,
            table == topo.edge_key_to_index@,
            child_edges == topo.edges().len(),
            edge_creases@.len() == child_edges,
            edge_parent@.len() == child_edges,
            forall|k: EdgeKey| #[trigger] table.contains_key(k) ==> table[k] < child_edges,
            (Inherited { creases: edge_creases@, parents: edge_parent@ }) == loop_inherited(
                p,
                creases,
                table,
                child_edges,
                ei as int,
            ),
        decreases edge_count - ei,
    {
        assert(p.edges[ei as int].0 < p.edges[ei as int].1 && p.edges[ei as int].1 < p.vertex_count);
        let crease: S = parent.effective_edge_creases[ei];
        let child: S = decay_sharpness(crease);
        if !crease.at_most(zero()) && !child.at_most(zero()) {
            let v0: u32 = parent.topo.edge_vertices[ei][0];
            let v1: u32 = parent.topo.edge_vertices[ei][1];
            let key0: EdgeKey = edge_key(edge_count as u32 + v0, ei as u32);
            let key1: EdgeKey = edge_key(edge_count as u32 + v1, ei as u32);
            let table: &crate::hashing::EdgeMap<usize> = &topo.edge_key_to_index;
            hand_down(&mut edge_creases, &mut edge_parent, table, key0, child, true, ei as u32);
            hand_down(&mut edge_creases, &mut edge_parent, table, key1, child, true, ei as u32);
        }
        ei += 1;
    }
    (edge_creases, edge_parent)
}

/// Corner sharpness and origin of the refined vertices.
fn refined_vertices<S: Scalar>(
    parent_corners: &[S],
    edge_count: usize,
    Ghost(p): Ghost<Parent>,
) -> (r: (Vec<S>, Vec<VertexOrigin>))
    requires
        edge_count == p.edges.len(),
        parent_corners@.len() == p.vertex_count,
        p.refined_vertex_count() <= u32::MAX,
    ensures
        r.0@ == loop_corners(p, parent_corners@),
        r.1@ == loop_origins(p),
{
    let total: usize = edge_count + parent_corners.len();
    let ghost all = loop_corners(p, parent_corners@);
    let ghost from = loop_origins(p);
    let mut corners: Vec<S> = Vec::new();
    let mut origins: Vec<VertexOrigin> = Vec::new();
    let mut i: usize = 0;
    while i < total
        invariant
            i <= total,
            edge_count == p.edges.len(),
            parent_corners@.len() == p.vertex_count,
            total == p.refined_vertex_count(),
            total <= u32::MAX,
            all == loop_corners(p, parent_corners@),
            from == loop_origins(p),
            corners@ == all.take(i as int),
            origins@ == from.take(i as int),
        decreases total - i,
    {
        if i < edge_count {
            corners.push(zero());
            origins.push(VertexOrigin::Edge(i as u32));
        } else {
            corners.push(parent_corners[i - edge_count]);
            origins.push(VertexOrigin::Vertex((i - edge_count) as u32));
        }
        i += 1;
        assert(corners@ =~= all.take(i as int));
        assert(origins@ =~= from.take(i as int));
    }
    assert(all.take(i as int) =~= all);
    assert(from.take(i as int) =~= from);
    (corners, origins)
}

} // verus!
