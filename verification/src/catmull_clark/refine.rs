//! One level of Catmull-Clark refinement.

use super::sharpness::{child_corner, child_creases, child_edge_creases, decay_corner_sharpness};
use super::topology::{build_cc_refined_uniform, lemma_quad_counts, parent_of, Parent};
use crate::connectivity::{
    corner_faces, corner_keys, edge_key, edge_key_of, key_labels, lemma_same_starts, owner_rows, pairs, prev_corner,
};
use crate::csr::{copied, lemma_row_within_flat};
use crate::error::KernelError;
use crate::hashing::EdgeKey;
use crate::incidence::{
    build_topology_raw, edge_fault, lemma_flat_locate, CreaseTie, MeshFault, RefinedUniform, Topology,
};
use crate::level::{
    adjacency_from_topology, adjacency_of, all_true, check_all_true, compute_edge_data, corner_counts,
    effective_creases, inherited_selection, lemma_proper_faces_fault, select_by_parent, fault_error, fault_text,
    hand_down, inherit, no_parents, nothing_inherited, pack_faces, selected_edges, Inherited, LevelData,
};
use crate::options::SchemeOptions;
use crate::output::{LineageMaps, VertexOrigin};
use crate::rows::{flat, lemma_flat_take_next, views};
use crate::scalar::{zero, zero_of, zeros, Scalar};
use crate::sharpness::{is_positive, positive};
use crate::topology::{all_below, Mesh};
use vstd::prelude::*;

verus! {

// ---------------------------------------------------------------------------
// The refined faces
// ---------------------------------------------------------------------------
/// The faces that face `f` becomes: a quad per corner if it is selected, else
/// itself between the vertex points.
pub open spec fn cc_children(p: Parent, selected: Seq<bool>, f: int) -> Seq<Seq<u32>> {
    if selected[f] {
        Seq::new(p.faces[f].len(), |c: int| p.quad(f, c))
    } else {
        seq![p.faces[f].map_values(|v: u32| p.vertex_point(v as int))]
    }
}

pub open spec fn cc_child_rows(p: Parent, selected: Seq<bool>) -> Seq<Seq<Seq<u32>>> {
    Seq::new(p.faces.len(), |f: int| cc_children(p, selected, f))
}

/// The refined faces.
pub open spec fn cc_faces(p: Parent, selected: Seq<bool>) -> Seq<Seq<u32>> {
    flat(cc_child_rows(p, selected))
}

/// The parent of each refined face.
pub open spec fn cc_face_parents(p: Parent, selected: Seq<bool>) -> Seq<u32> {
    corner_faces(cc_child_rows(p, selected))
}

/// How corners are put on edges: by slots where all faces are refined, else by
/// end points.
pub open spec fn cc_labels(p: Parent, selected: Seq<bool>) -> Seq<int> {
    if all_true(selected) {
        p.slots()
    } else {
        key_labels(corner_keys(cc_faces(p, selected)))
    }
}

/// Why a mesh cannot be refined.
pub open spec fn cc_fault(p: Parent, selected: Seq<bool>) -> Option<MeshFault> {
    if p.refined_vertex_count() > u32::MAX {
        Some(MeshFault::TooLarge)
    } else if all_true(selected) {
        if 4 * flat(p.faces).len() >= u32::MAX || 2 * p.slot_count() > u32::MAX {
            Some(MeshFault::TooLarge)
        } else {
            None
        }
    } else {
        edge_fault(cc_faces(p, selected))
    }
}

/// The vertices of the refined mesh: faces, edges, vertices.
pub open spec fn cc_origins(p: Parent) -> Seq<VertexOrigin> {
    Seq::new(
        p.refined_vertex_count(),
        |i: int|
            if i < p.faces.len() {
                VertexOrigin::Face(i as u32)
            } else if i < p.faces.len() + p.edges.len() {
                VertexOrigin::Edge((i - p.faces.len()) as u32)
            } else {
                VertexOrigin::Vertex((i - p.faces.len() - p.edges.len()) as u32)
            },
    )
}

/// Corner sharpness of the refined vertices.
pub open spec fn cc_corners<S: Scalar>(p: Parent, corners: Seq<S>, options: SchemeOptions) -> Seq<S> {
    Seq::new(
        p.refined_vertex_count(),
        |i: int|
            if i < p.faces.len() + p.edges.len() {
                zero_of::<S>()
            } else {
                child_corner(corners[i - p.faces.len() - p.edges.len()], options.corner_normalize)
            },
    )
}

/// What the first `k` parent edges hand down.
pub open spec fn cc_inherited<S: Scalar>(
    p: Parent,
    vertex_edges: Seq<Seq<u32>>,
    creases: Seq<S>,
    options: SchemeOptions,
    table: Map<EdgeKey, usize>,
    edge_count: nat,
    k: int,
) -> Inherited<S>
    decreases k,
{
    if k <= 0 {
        nothing_inherited(edge_count)
    } else {
        let e = k - 1;
        let before = cc_inherited(p, vertex_edges, creases, options, table, edge_count, e);
        if positive(creases[e]) {
            let (c0, c1) = child_creases(e, p.edges, vertex_edges, creases, options);
            let key0 = edge_key_of(p.vertex_point(p.edges[e].0 as int), p.edge_point(e));
            let key1 = edge_key_of(p.vertex_point(p.edges[e].1 as int), p.edge_point(e));
            let first = inherit(before, table, key0, c0, positive(c0), e as u32);
            inherit(first, table, key1, c1, positive(c1), e as u32)
        } else {
            before
        }
    }
}

/// `child` is the refinement of `parent`.
pub open spec fn cc_refines<S: Scalar>(
    parent: LevelData<S>,
    options: SchemeOptions,
    boundary_crease: S,
    child: LevelData<S>,
) -> bool {
    let p = parent_of(parent.topo, parent.n());
    let sel = parent.face_selected@;
    let faces = cc_faces(p, sel);
    let inherited = cc_inherited(
        p,
        parent.topo.vertex_edges@,
        parent.effective_edge_creases@,
        options,
        child.topo.edge_key_to_index@,
        child.topo.edges().len(),
        p.edges.len() as int,
    );
    &&& child.wf()
    &&& child.mesh.vertex_count == p.refined_vertex_count()
    &&& child.topo.describes(faces, cc_labels(p, sel), p.refined_vertex_count())
    &&& child.topo.edge_creases@ == inherited.creases
    &&& pairs(child.mesh.edge_vertices@) == child.topo.edges()
    &&& child.mesh.edge_creases@ == inherited.creases
    &&& child.mesh.vertex_corners@ == cc_corners(p, parent.mesh.vertex_corners@, options)
    &&& child.face_selected@ == inherited_selection(cc_face_parents(p, sel), sel)
    &&& child.edge_has_selected_face@ == selected_edges(child.topo.edge_faces@, child.face_selected@)
    &&& child.effective_edge_creases@ == effective_creases(
        inherited.creases,
        child.topo.edge_faces@,
        child.face_selected@,
        boundary_crease,
    )
    &&& child.effective_vertex_corners@.len() == 0
    &&& child.lineage.vertex_origin@ == cc_origins(p)
    &&& child.lineage.face_parent@ == cc_face_parents(p, sel)
    &&& child.lineage.edge_parent@ == inherited.parents
    &&& adjacency_of(child.adjacency, child.topo)
}

/// Where every face is refined the refined faces are the quads.
pub proof fn lemma_all_selected(p: Parent, selected: Seq<bool>)
    requires
        selected.len() == p.faces.len(),
        all_true(selected),
    ensures
        cc_faces(p, selected) == p.quads(),
        cc_face_parents(p, selected) == corner_faces(p.faces),
{
    assert forall|f: int| 0 <= f < p.faces.len() implies cc_child_rows(p, selected)[f] == p.quad_rows()[f] by {
        assert(selected[f]);
    }
    assert(cc_child_rows(p, selected) =~= p.quad_rows());
    assert(owner_rows(p.quad_rows()) =~= owner_rows(p.faces)) by {
        assert forall|f: int| 0 <= f < p.faces.len() implies owner_rows(p.quad_rows())[f] == owner_rows(
            p.faces,
        )[f] by {
            assert(owner_rows(p.quad_rows())[f] =~= owner_rows(p.faces)[f]);
        }
    }
}

/// The parent's tables are usable, apart from the sizes of the refined mesh.
pub proof fn lemma_parent_ok<S: Scalar>(t: Topology<S>, n: nat)
    requires
        t.sound(n),
        parent_of(t, n).refined_vertex_count() <= u32::MAX,
        4 * flat(t.faces@).len() < u32::MAX,
        2 * parent_of(t, n).slot_count() <= u32::MAX,
    ensures
        parent_of(t, n).ok(),
{
    reveal(Parent::ok);
}

/// The refined faces are proper faces of the refined mesh.
pub proof fn lemma_cc_faces_proper<S: Scalar>(t: Topology<S>, n: nat, selected: Seq<bool>)
    requires
        t.sound(n),
        parent_of(t, n).refined_vertex_count() <= u32::MAX,
        selected.len() == t.faces@.len(),
    ensures
        ({
            let p = parent_of(t, n);
            forall|q: int|
                0 <= q < cc_faces(p, selected).len() ==> 3 <= (#[trigger] cc_faces(p, selected)[q]).len() <= u32::MAX
                    && all_below(cc_faces(p, selected)[q], p.refined_vertex_count() as int)
        }),
{
    let p = parent_of(t, n);
    let rows = cc_child_rows(p, selected);
    assert forall|q: int| 0 <= q < cc_faces(p, selected).len() implies 3 <= (#[trigger] cc_faces(
        p,
        selected,
    )[q]).len() <= u32::MAX && all_below(cc_faces(p, selected)[q], p.refined_vertex_count() as int) by {
        let (f, c) = lemma_flat_locate(rows, q);
        assert(p.faces[f].len() >= 3 && all_below(p.faces[f], n as int));
        assert(p.face_edges[f].len() == p.faces[f].len());
        assert(all_below(p.face_edges[f], p.edges.len() as int));
        lemma_row_within_flat(p.faces, f);
        if selected[f] {
            let prev = prev_corner(c, p.faces[f].len() as int);
            assert(p.face_edges[f][c] < p.edges.len());
            assert(p.face_edges[f][prev] < p.edges.len());
            assert(p.faces[f][c] < n);
        } else {
            let row = p.faces[f].map_values(|v: u32| p.vertex_point(v as int));
            assert forall|k: int| 0 <= k < row.len() implies (#[trigger] row[k]) < p.refined_vertex_count() by {
                assert(p.faces[f][k] < n);
            }
        }
    }
}

/// The refined faces, when some faces are left as they are.
fn split_faces<S: Scalar>(topo: &Topology<S>, n: u32, selected: &[bool]) -> (r: (Vec<Vec<u32>>, Vec<u32>))
    requires
        topo.sound(n as nat),
        selected@.len() == topo.faces@.len(),
        parent_of(*topo, n as nat).refined_vertex_count() <= u32::MAX,
    ensures
        views(r.0@) == cc_faces(parent_of(*topo, n as nat), selected@),
        r.1@ == cc_face_parents(parent_of(*topo, n as nat), selected@),
{
    let ghost p = parent_of(*topo, n as nat);
    let ghost rows = cc_child_rows(p, selected@);
    let ghost owners = owner_rows(rows);
    let face_count: usize = topo.faces.len();
    let edge_count: usize = topo.edge_vertices.len();
    let mut faces: Vec<Vec<u32>> = Vec::new();
    let mut parents: Vec<u32> = Vec::new();
    let mut fi: usize = 0;
    assert(rows.take(0) =~= Seq::<Seq<Seq<u32>>>::empty());
    assert(owners.take(0) =~= Seq::<Seq<u32>>::empty());
    assert(views(faces@) =~= flat(rows.take(0)));
    while fi < face_count
        invariant
            p == parent_of(*topo, n as nat),
            rows == cc_child_rows(p, selected@),
            owners == owner_rows(rows),
            topo.sound(n as nat),
            selected@.len() == topo.faces@.len(),
            p.refined_vertex_count() <= u32::MAX,
            face_count == p.faces.len(),
            edge_count == p.edges.len(),
            fi <= face_count,
            views(faces@) == flat(rows.take(fi as int)),
            parents@ == flat(owners.take(fi as int)),
        decreases face_count - fi,
    {
        let ghost f = fi as int;
        let ghost before = views(faces@);
        let ghost parents_before = parents@;
        let verts: &[u32] = topo.faces.row(fi);
        let edges: &[u32] = topo.face_edges.row(fi);
        proof {
            assert(p.faces[f].len() >= 3 && all_below(p.faces[f], n as int));
            assert(p.face_edges[f].len() == p.faces[f].len());
            assert(all_below(p.face_edges[f], p.edges.len() as int));
        }
        if selected[fi] {
            let cc: usize = verts.len();
            let mut c: usize = 0;
            assert(views(faces@) =~= before + rows[f].take(0));
            assert(parents@ =~= parents_before + owners[f].take(0));
            while c < cc
                invariant
                    p == parent_of(*topo, n as nat),
                    rows == cc_child_rows(p, selected@),
                    owners == owner_rows(rows),
                    p.refined_vertex_count() <= u32::MAX,
                    p.vertex_count == n,
                    face_count == p.faces.len(),
                    edge_count == p.edges.len(),
                    fi < face_count,
                    f == fi,
                    selected@[f],
                    verts@ == p.faces[f],
                    edges@ == p.face_edges[f],
                    edges@.len() == verts@.len(),
                    cc == verts@.len(),
                    cc >= 3,
                    all_below(verts@, n as int),
                    all_below(edges@, p.edges.len() as int),
                    c <= cc,
                    views(faces@) == before + rows[f].take(c as int),
                    parents@ == parents_before + owners[f].take(c as int),
                decreases cc - c,
            {
                let prev: usize = if c == 0 {
                    cc - 1
                } else {
                    c - 1
                };
                assert(edges@[c as int] < p.edges.len());
                assert(edges@[prev as int] < p.edges.len());
                assert(verts@[c as int] < n);
                let mut quad: Vec<u32> = Vec::new();
                quad.push(fi as u32);
                quad.push((face_count + edges[prev] as usize) as u32);
                quad.push((face_count + edge_count + verts[c] as usize) as u32);
                quad.push((face_count + edges[c] as usize) as u32);
                assert(quad@ =~= p.quad(f, c as int));
                let ghost vb = views(faces@);
                faces.push(quad);
                parents.push(fi as u32);
                assert(views(faces@) =~= vb.push(quad@));
                c += 1;
                assert(views(faces@) =~= before + rows[f].take(c as int));
                assert(parents@ =~= parents_before + owners[f].take(c as int));
            }
            assert(rows[f].take(c as int) =~= rows[f]);
            assert(owners[f].take(c as int) =~= owners[f]);
        } else {
            let ghost moved = p.faces[f].map_values(|v: u32| p.vertex_point(v as int));
            let mut face: Vec<u32> = Vec::new();
            let mut c: usize = 0;
            while c < verts.len()
                invariant
                    p == parent_of(*topo, n as nat),
                    p.refined_vertex_count() <= u32::MAX,
                    p.vertex_count == n,
                    face_count == p.faces.len(),
                    edge_count == p.edges.len(),
                    moved == p.faces[f].map_values(|v: u32| p.vertex_point(v as int)),
                    verts@ == p.faces[f],
                    all_below(verts@, n as int),
                    c <= verts.len(),
                    face@ == moved.take(c as int),
                decreases verts.len() - c,
            {
                assert(verts@[c as int] < n);
                face.push((face_count + edge_count + verts[c] as usize) as u32);
                c += 1;
                assert(face@ =~= moved.take(c as int));
            }
            assert(face@ =~= moved);
            faces.push(face);
            parents.push(fi as u32);
            assert(views(faces@) =~= before + rows[f]);
            assert(parents@ =~= parents_before + owners[f]);
        }
        proof {
            lemma_flat_take_next(rows, f);
            lemma_flat_take_next(owners, f);
        }
        fi += 1;
    }
    assert(rows.take(fi as int) =~= rows);
    assert(owners.take(fi as int) =~= owners);
    (faces, parents)
}

/// Tables of the refined mesh, with no creases yet, and the parents of its
/// faces.
fn refined_tables<S: Scalar>(parent: &LevelData<S>) -> (r: Result<RefinedUniform<S>, MeshFault>)
    requires
        parent.wf(),
    ensures
        ({
            let p = parent_of(parent.topo, parent.n());
            let sel = parent.face_selected@;
            let faces = cc_faces(p, sel);
            match r {
                Ok(t) => {
                    &&& cc_fault(p, sel) is None
                    &&& t.face_vertex_counts@ == corner_counts(faces)
                    &&& t.face_vertex_indices@ == flat(faces)
                    &&& t.face_parent@ == cc_face_parents(p, sel)
                    &&& t.topology.describes(faces, cc_labels(p, sel), p.refined_vertex_count())
                    &&& t.topology.sound(p.refined_vertex_count())
                    &&& t.topology.edge_creases@ == Seq::new(
                        t.topology.edges().len(),
                        |e: int| zero_of::<S>(),
                    )
                },
                Err(fault) => cc_fault(p, sel) == Some(fault),
            }
        }),
{
    let ghost p = parent_of(parent.topo, parent.n());
    let ghost sel = parent.face_selected@;
    let n: u32 = parent.mesh.vertex_count;
    let face_count: usize = parent.topo.faces.len();
    let edge_count: usize = parent.topo.edge_vertices.len();
    let total: u64 = face_count as u64 + edge_count as u64 + n as u64;
    if total > u32::MAX as u64 {
        return Err(MeshFault::TooLarge);
    }
    if check_all_true(&parent.face_selected) {
        let corners: u64 = parent.topo.faces.flat_values().len() as u64;
        if 4 * corners >= u32::MAX as u64 || 2 * (corners + 2 * edge_count as u64) > u32::MAX as u64 {
            return Err(MeshFault::TooLarge);
        }
        proof {
            lemma_parent_ok(parent.topo, n as nat);
            lemma_all_selected(p, sel);
            lemma_quad_counts(p);
        }
        let r = build_cc_refined_uniform(&parent.topo, n);
        assert(r.face_vertex_counts@ =~= corner_counts(p.quads()));
        return Ok(r);
    }
    let (faces, parents) = split_faces(&parent.topo, n, &parent.face_selected);
    proof {
        lemma_cc_faces_proper(parent.topo, n as nat, sel);
        assert forall|i: int| 0 <= i < faces@.len() implies (#[trigger] faces@[i])@.len() <= u32::MAX by {
            assert(views(faces@)[i].len() <= u32::MAX);
        }
    }
    let (counts, indices) = pack_faces(&faces);
    let mesh = Mesh {
        vertex_count: total as u32,
        face_vertex_counts: counts,
        face_vertex_indices: indices,
        edge_vertices: Vec::new(),
        edge_creases: Vec::new(),
        vertex_corners: Vec::new(),
    };
    proof {
        lemma_proper_faces_fault(cc_faces(p, sel), total as int);
    }
    match build_topology_raw(&mesh, true, CreaseTie::Greater) {
        Ok(topology) => {
            assert(topology.edge_creases@ =~= Seq::new(topology.edges().len(), |e: int| zero_of::<S>()));
            Ok(
                RefinedUniform {
                    face_vertex_counts: mesh.face_vertex_counts,
                    face_vertex_indices: mesh.face_vertex_indices,
                    face_parent: parents,
                    topology,
                },
            )
        },
        Err(fault) => Err(fault),
    }
}

/// One level of refinement.
pub fn refine_topology_once<S: Scalar>(
    parent: &LevelData<S>,
    options: &SchemeOptions,
    selection_boundary_crease: S,
) -> (r: Result<LevelData<S>, KernelError>)
    requires
        parent.wf(),
    ensures
        match cc_fault(parent_of(parent.topo, parent.n()), parent.face_selected@) {
            Some(fault) => r == Err::<LevelData<S>, _>(KernelError::InvalidTopology(fault_text(fault))),
            None => r is Ok && cc_refines(*parent, *options, selection_boundary_crease, r->Ok_0),
        },
{
    let ghost p = parent_of(parent.topo, parent.n());
    let ghost sel = parent.face_selected@;
    let tables: RefinedUniform<S> = match refined_tables(parent) {
        Ok(tables) => tables,
        Err(fault) => {
            return Err(fault_error(fault));
        },
    };
    let RefinedUniform { face_vertex_counts, face_vertex_indices, face_parent, topology } = tables;
    let mut topo: Topology<S> = topology;
    let n: usize = parent.mesh.vertex_count as usize;
    let face_count: usize = parent.topo.faces.len();
    let edge_count: usize = parent.topo.edge_vertices.len();
    let total: usize = face_count + edge_count + n;
    let ghost nn = p.refined_vertex_count();
    // Creases.
    let ghost creases = parent.effective_edge_creases@;
    let ghost table = topo.edge_key_to_index@;
    let ghost child_edges = topo.edges().len();
    let ghost bare = topo;
    let mut edge_creases: Vec<S> = zeros::<S>(topo.edge_vertices.len());
    let mut edge_parent: Vec<u32> = no_parents(topo.edge_vertices.len());
    let mut ei: usize = 0;
    while ei < edge_count
        invariant
            p == parent_of(parent.topo, parent.n()),
            parent.wf(),
            creases == parent.effective_edge_creases@,
            n == p.vertex_count,
            face_count == p.faces.len(),
            edge_count == p.edges.len(),
            p.refined_vertex_count() <= u32::MAX,
            ei <= edge_count,
            table == topo.edge_key_to_index@,
            child_edges == topo.edges().len(),
            edge_creases@.len() == child_edges,
            edge_parent@.len() == child_edges,
            forall|k: EdgeKey| #[trigger] table.contains_key(k) ==> table[k] < child_edges,
            (Inherited { creases: edge_creases@, parents: edge_parent@ }) == cc_inherited(
                p,
                parent.topo.vertex_edges@,
                creases,
                *options,
                table,
                child_edges,
                ei as int,
            ),
        decreases edge_count - ei,
    {
        assert(p.edges[ei as int].0 < p.edges[ei as int].1 && p.edges[ei as int].1 < p.vertex_count);
        if is_positive(parent.effective_edge_creases[ei]) {
            let v0: usize = parent.topo.edge_vertices[ei][0] as usize;
            let v1: usize = parent.topo.edge_vertices[ei][1] as usize;
            let (c0, c1) = child_edge_creases(
                ei,
                &parent.topo,
                &parent.effective_edge_creases,
                options,
                Ghost(parent.n()),
            );
            let point: u32 = (face_count + ei) as u32;
            let key0: EdgeKey = edge_key((face_count + edge_count + v0) as u32, point);
            let key1: EdgeKey = edge_key((face_count + edge_count + v1) as u32, point);
            hand_down(
                &mut edge_creases,
                &mut edge_parent,
                &topo.edge_key_to_index,
                key0,
                c0,
                is_positive(c0),
                ei as u32,
            );
            hand_down(
                &mut edge_creases,
                &mut edge_parent,
                &topo.edge_key_to_index,
                key1,
                c1,
                is_positive(c1),
                ei as u32,
            );
        }
        ei += 1;
    }
    topo.edge_creases = copied(&edge_creases);
    assert(topo.sound(nn));
    assert(topo.describes(cc_faces(p, sel), cc_labels(p, sel), nn));
    // Corners and origins.
    let (corners, origins) = refined_vertices(&parent.mesh.vertex_corners, face_count, edge_count, options, Ghost(p));
    // Selection.
    proof {
        lemma_parents_in_range(p, sel);
        assert(face_parent@.len() == cc_faces(p, sel).len()) by {
            lemma_same_starts(owner_rows(cc_child_rows(p, sel)), cc_child_rows(p, sel), 0);
        }
    }
    let face_selected: Vec<bool> = select_by_parent(&face_parent, &parent.face_selected);
    let mesh = Mesh {
        vertex_count: total as u32,
        face_vertex_counts,
        face_vertex_indices,
        edge_vertices: copied(&topo.edge_vertices),
        edge_creases,
        vertex_corners: corners,
    };
    let adjacency = adjacency_from_topology(&topo, Ghost(nn));
    let (edge_has_selected_face, effective_edge_creases) = compute_edge_data(
        &topo,
        &face_selected,
        selection_boundary_crease,
        Ghost(nn),
    );
    let child = LevelData {
        mesh,
        topo,
        face_selected,
        effective_edge_creases,
        edge_has_selected_face,
        effective_vertex_corners: Vec::new(),
        lineage: LineageMaps { vertex_origin: origins, face_parent, edge_parent },
        adjacency,
    };
    Ok(child)
}

pub proof fn lemma_parents_in_range(p: Parent, selected: Seq<bool>)
    requires
        p.faces.len() <= u32::MAX,
    ensures
        all_below(cc_face_parents(p, selected), p.faces.len() as int),
{
    let rows = owner_rows(cc_child_rows(p, selected));
    assert forall|i: int| 0 <= i < flat(rows).len() implies (#[trigger] flat(rows)[i]) < p.faces.len() by {
        let (f, c) = lemma_flat_locate(rows, i);
    }
}

/// Corner sharpness and origin of the refined vertices.
fn refined_vertices<S: Scalar>(
    parent_corners: &[S],
    face_count: usize,
    edge_count: usize,
    options: &SchemeOptions,
    Ghost(p): Ghost<Parent>,
) -> (r: (Vec<S>, Vec<VertexOrigin>))
    requires
        face_count == p.faces.len(),
        edge_count == p.edges.len(),
        parent_corners@.len() == p.vertex_count,
        p.refined_vertex_count() <= u32::MAX,
    ensures
        r.0@ == cc_corners(p, parent_corners@, *options),
        r.1@ == cc_origins(p),
{
    let total: usize = face_count + edge_count + parent_corners.len();
    let ghost all = cc_corners(p, parent_corners@, *options);
    let ghost from = cc_origins(p);
    let mut corners: Vec<S> = Vec::new();
    let mut origins: Vec<VertexOrigin> = Vec::new();
    let mut i: usize = 0;
    while i < total
        invariant
            i <= total,
            face_count == p.faces.len(),
            edge_count == p.edges.len(),
            parent_corners@.len() == p.vertex_count,
            total == p.refined_vertex_count(),
            total <= u32::MAX,
            all == cc_corners(p, parent_corners@, *options),
            from == cc_origins(p),
            corners@ == all.take(i as int),
            origins@ == from.take(i as int),
        decreases total - i,
    {
        if i < face_count {
            corners.push(zero());
            origins.push(VertexOrigin::Face(i as u32));
        } else if i < face_count + edge_count {
            corners.push(zero());
            origins.push(VertexOrigin::Edge((i - face_count) as u32));
        } else {
            let c: S = parent_corners[i - face_count - edge_count];
            corners.push(
                if options.corner_normalize {
                    c
                } else {
                    decay_corner_sharpness(c, options.corner_rule)
                },
            );
            origins.push(VertexOrigin::Vertex((i - face_count - edge_count) as u32));
        }
        i += 1;
        assert(corners@ =~= all.take(i as int));
        assert(origins@ =~= from.take(i as int));
    }
    assert(all.take(i as int) =~= all);
    assert(from.take(i as int) =~= from);
    (corners, origins)
}

} // verus!
