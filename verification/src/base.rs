//! The first level of a refinement, for each scheme.

use crate::connectivity::{corner_keys, key_labels, pairs};
use crate::csr::copied;
use crate::doo_sabin::topology::ds_describes;
use crate::error::KernelError;
use crate::incidence::{
    build_topology_raw, decoded, edge_crease_list, face_fault, face_start, lemma_decoded_flat, lemma_no_face_fault,
    mesh_fault, CreaseTie, MeshFault, Topology,
};
use crate::level::{
    compute_edge_data, corner_counts, effective_creases, empty_adjacency, fault_error, fault_text, no_adjacency,
    selected_edges, LevelData,
};
use crate::loop_subdivision::refine::{compute_effective_vertex_corners, effective_corners, loop_wf, triangular};
use crate::options::{Scheme, SchemeOptions};
use crate::output::LineageMaps;
use crate::rows::flat;
use crate::scalar::Scalar;
use crate::topology::Mesh;
use vstd::prelude::*;

verus! {

/// Two meshes with the same contents.
pub open spec fn same_mesh<S>(a: Mesh<S>, b: Mesh<S>) -> bool {
    &&& a.vertex_count == b.vertex_count
    &&& a.face_vertex_counts@ == b.face_vertex_counts@
    &&& a.face_vertex_indices@ == b.face_vertex_indices@
    &&& a.edge_vertices@ == b.edge_vertices@
    &&& a.edge_creases@ == b.edge_creases@
    &&& a.vertex_corners@ == b.vertex_corners@
}

pub(crate) fn copy_mesh<S: Scalar>(mesh: &Mesh<S>) -> (r: Mesh<S>)
    ensures
        same_mesh(r, *mesh),
{
    Mesh {
        vertex_count: mesh.vertex_count,
        face_vertex_counts: copied(&mesh.face_vertex_counts),
        face_vertex_indices: copied(&mesh.face_vertex_indices),
        edge_vertices: copied(&mesh.edge_vertices),
        edge_creases: copied(&mesh.edge_creases),
        vertex_corners: copied(&mesh.vertex_corners),
    }
}

/// The faces of a mesh.
pub open spec fn mesh_faces<S>(mesh: Mesh<S>) -> Seq<Seq<u32>> {
    decoded(mesh.face_vertex_counts@, mesh.face_vertex_indices@)
}

/// The fault of a mesh under a scheme.
pub open spec fn fault_of<S>(scheme: Scheme, mesh: Mesh<S>) -> Option<MeshFault> {
    mesh_fault(
        mesh.face_vertex_counts@,
        mesh.face_vertex_indices@,
        mesh.vertex_count as int,
        scheme != Scheme::DooSabin,
    )
}

/// The message of a fault under a scheme.
pub open spec fn fault_text_of(scheme: Scheme, fault: MeshFault) -> &'static str {
    if scheme == Scheme::DooSabin {
        crate::doo_sabin::topology::fault_text(fault)
    } else {
        fault_text(fault)
    }
}

/// A selected face is not a triangle.
pub open spec fn selects_polygon(faces: Seq<Seq<u32>>, selected: Seq<bool>) -> bool {
    exists|f: int| 0 <= f < faces.len() && selected[f] && (#[trigger] faces[f]).len() != 3
}

/// Why a scheme cannot start from a mesh with a selection of its faces.
pub open spec fn base_fault<S>(scheme: Scheme, mesh: Mesh<S>, selected: Seq<bool>) -> Option<&'static str> {
    let faces = mesh_faces(mesh);
    match fault_of(scheme, mesh) {
        Some(fault) => Some(fault_text_of(scheme, fault)),
        None => if selected.len() != faces.len() {
            Some(
                match scheme {
                    Scheme::CatmullClark => "selected-face mask length does not match current face count",
                    Scheme::Loop => "selected-face mask length does not match current face count",
                    Scheme::Sqrt3 => "selected-face mask length does not match face count",
                    Scheme::DooSabin => "selected-face mask length does not match face count",
                },
            )
        } else {
            match scheme {
                Scheme::CatmullClark => if faces.len() == 0 {
                    Some("empty topology is not refinable")
                } else {
                    None
                },
                Scheme::Loop => if selects_polygon(faces, selected) {
                    Some("loop subdivision requires selected faces to be triangles")
                } else {
                    None
                },
                Scheme::Sqrt3 => if selects_polygon(faces, selected) {
                    Some("sqrt3 requires selected faces to be triangles")
                } else {
                    None
                },
                Scheme::DooSabin => None,
            }
        },
    }
}

/// The tables of a mesh under a scheme.
pub open spec fn base_topology<S: Scalar>(scheme: Scheme, mesh: Mesh<S>, t: Topology<S>) -> bool {
    let faces = mesh_faces(mesh);
    let n = mesh.vertex_count as nat;
    &&& if scheme == Scheme::DooSabin {
        ds_describes(t, faces, n)
    } else {
        t.describes(faces, key_labels(corner_keys(faces)), n)
    }
    &&& t.edge_creases@ == edge_crease_list(
        if scheme == Scheme::DooSabin {
            CreaseTie::Maximum
        } else {
            CreaseTie::Greater
        },
        pairs(mesh.edge_vertices@),
        mesh.edge_creases@,
        t.edges(),
    )
}

/// A level that a scheme can refine.
#[verifier::opaque]
pub open spec fn level_ok<S: Scalar>(scheme: Scheme, level: LevelData<S>) -> bool {
    match scheme {
        Scheme::CatmullClark => level.wf(),
        Scheme::Loop => loop_wf(level),
        Scheme::Sqrt3 => level.wf() && triangular(level),
        Scheme::DooSabin => level.wf(),
    }
}

/// The first level of a refinement.
#[verifier::opaque]
pub open spec fn is_base<S: Scalar>(
    scheme: Scheme,
    options: SchemeOptions,
    mesh: Mesh<S>,
    selected: Seq<bool>,
    boundary_crease: S,
    level: LevelData<S>,
) -> bool {
    &&& level_ok(scheme, level)
    &&& same_mesh(level.mesh, mesh)
    &&& base_topology(scheme, mesh, level.topo)
    &&& level.face_selected@ == selected
    &&& level.edge_has_selected_face@ == selected_edges(level.topo.edge_faces@, selected)
    &&& level.effective_edge_creases@ == effective_creases(
        level.topo.edge_creases@,
        level.topo.edge_faces@,
        selected,
        boundary_crease,
    )
    &&& level.effective_vertex_corners@ == (if scheme == Scheme::Loop {
        effective_corners(
            mesh.vertex_corners@,
            options.auto_corner,
            level.topo.vertex_edges@,
            level.effective_edge_creases@,
        )
    } else {
        Seq::empty()
    })
    &&& level.lineage.vertex_origin@.len() == 0
    &&& level.lineage.face_parent@.len() == 0
    &&& level.lineage.edge_parent@.len() == 0
    &&& no_adjacency(level.adjacency)
}

/// The buffers of a valid mesh are those of its faces.
pub proof fn lemma_mesh_faces<S>(scheme: Scheme, mesh: Mesh<S>)
    requires
        mesh.broken_rule() is None,
        fault_of(scheme, mesh) is None,
    ensures
        mesh.face_vertex_counts@ == corner_counts(mesh_faces(mesh)),
        mesh.face_vertex_indices@ == flat(mesh_faces(mesh)),
{
    let counts = mesh.face_vertex_counts@;
    let indices = mesh.face_vertex_indices@;
    let n = mesh.vertex_count as int;
    let faces = mesh_faces(mesh);
    lemma_no_face_fault(counts, indices, n, counts.len() as int);
    assert forall|f: int| 0 <= f < counts.len() implies #[trigger] face_start(counts, f) + counts[f]
        <= indices.len() by {
        assert(face_fault(counts, indices, n, f) is None);
    }
    lemma_decoded_flat(counts, indices, counts.len() as int);
    assert(counts.take(counts.len() as int) =~= counts);
    assert(faces.take(faces.len() as int) =~= faces);
    assert(indices.take(indices.len() as int) =~= indices);
    assert forall|f: int| 0 <= f < counts.len() implies corner_counts(faces)[f] == counts[f] by {
        assert(face_start(counts, f) + counts[f] <= indices.len());
        crate::topology::lemma_count_sum_monotone(counts, 0, f);
        assert(counts.take(0) =~= Seq::<u32>::empty());
    }
    assert(counts =~= corner_counts(faces));
}

fn check_selects_polygon<S: Scalar>(topo: &Topology<S>, selected: &[bool]) -> (r: bool)
    requires
        topo.faces.wf(),
        selected@.len() == topo.faces@.len(),
    ensures
        r == selects_polygon(topo.faces@, selected@),
{
    let mut f: usize = 0;
    while f < selected.len()
        invariant
            f <= selected.len(),
            topo.faces.wf(),
            selected@.len() == topo.faces@.len(),
            forall|g: int| 0 <= g < f && selected@[g] ==> (#[trigger] topo.faces@[g]).len() == 3,
        decreases selected.len() - f,
    {
        if selected[f] && topo.faces.row_len(f) != 3 {
            assert(topo.faces@[f as int].len() != 3);
            return true;
        }
        f += 1;
    }
    false
}

fn base_tables<S: Scalar>(scheme: Scheme, mesh: &Mesh<S>) -> (r: Result<Topology<S>, KernelError>)
    ensures
        match fault_of(scheme, *mesh) {
            Some(fault) => r == Err::<Topology<S>, _>(
                KernelError::InvalidTopology(fault_text_of(scheme, fault)),
            ),
            None => r is Ok && base_topology(scheme, *mesh, r->Ok_0) && r->Ok_0.sound(mesh.vertex_count as nat),
        },
{
    match scheme {
        Scheme::DooSabin => crate::doo_sabin::topology::build_topology(mesh),
        _ => match build_topology_raw(mesh, true, CreaseTie::Greater) {
            Ok(topo) => Ok(topo),
            Err(fault) => Err(fault_error(fault)),
        },
    }
}

/// The first level of a refinement.
#[verifier::rlimit(60)]
pub fn base_level_data<S: Scalar>(
    scheme: Scheme,
    options: &SchemeOptions,
    mesh: &Mesh<S>,
    face_selected: Vec<bool>,
    selection_boundary_crease: S,
) -> (r: Result<LevelData<S>, KernelError>)
    requires
        mesh.broken_rule() is None,
    ensures
        match base_fault(scheme, *mesh, face_selected@) {
            Some(text) => r == Err::<LevelData<S>, _>(KernelError::InvalidTopology(text)),
            None => r is Ok && is_base(
                scheme,
                *options,
                *mesh,
                face_selected@,
                selection_boundary_crease,
                r->Ok_0,
            ) && level_ok(scheme, r->Ok_0),
        },
{
    let topo: Topology<S> = match base_tables(scheme, mesh) {
        Ok(topo) => topo,
        Err(error) => {
            return Err(error);
        },
    };
    let ghost n = mesh.vertex_count as nat;
    assert(topo.faces@ == mesh_faces(*mesh));
    if face_selected.len() != topo.faces.len() {
        return Err(
            match scheme {
                Scheme::CatmullClark => KernelError::InvalidTopology(
                    "selected-face mask length does not match current face count",
                ),
                Scheme::Loop => KernelError::InvalidTopology(
                    "selected-face mask length does not match current face count",
                ),
                Scheme::Sqrt3 => KernelError::InvalidTopology(
                    "selected-face mask length does not match face count",
                ),
                Scheme::DooSabin => KernelError::InvalidTopology(
                    "selected-face mask length does not match face count",
                ),
            },
        );
    }
    match scheme {
        Scheme::CatmullClark => {
            if topo.faces.len() == 0 {
                return Err(KernelError::InvalidTopology("empty topology is not refinable"));
            }
        },
        Scheme::Loop => {
            if check_selects_polygon(&topo, &face_selected) {
                return Err(
                    KernelError::InvalidTopology("loop subdivision requires selected faces to be triangles"),
                );
            }
        },
        Scheme::Sqrt3 => {
            if check_selects_polygon(&topo, &face_selected) {
                return Err(KernelError::InvalidTopology("sqrt3 requires selected faces to be triangles"));
            }
        },
        Scheme::DooSabin => {},
    }
    let (edge_has_selected_face, effective_edge_creases) = compute_edge_data(
        &topo,
        &face_selected,
        selection_boundary_crease,
        Ghost(n),
    );
    let effective_vertex_corners: Vec<S> = match scheme {
        Scheme::Loop => compute_effective_vertex_corners(
            &mesh.vertex_corners,
            &topo,
            &effective_edge_creases,
            options,
        ),
        _ => Vec::new(),
    };
    assert(scheme != Scheme::Loop ==> effective_vertex_corners@ =~= Seq::<S>::empty());
    let level = LevelData {
        mesh: copy_mesh(mesh),
        topo,
        face_selected,
        effective_edge_creases,
        edge_has_selected_face,
        effective_vertex_corners,
        lineage: LineageMaps::default(),
        adjacency: empty_adjacency(),
    };
    proof {
        reveal(level_ok);
        reveal(is_base);
        lemma_mesh_faces(scheme, *mesh);
        assert(level.wf());
        if scheme == Scheme::Loop || scheme == Scheme::Sqrt3 {
            assert(triangular(level)) by {
                assert forall|f: int|
                    0 <= f < level.face_selected@.len() && level.face_selected@[f] implies (
                #[trigger] level.topo.faces@[f]).len() == 3 by {}
            }
        }
    }
    Ok(level)
}

} // verus!
