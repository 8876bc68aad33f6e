//! One level of a refinement: a mesh, its tables and what is sharp in it.

use crate::connectivity::pairs;
use crate::csr::copied;
use crate::error::KernelError;
use crate::hashing::{edge_map_get, EdgeKey, EdgeMap};
use crate::incidence::{
    any_flagged, check_any_flagged, decoded, edge_fault, first_face_fault, mesh_fault, MeshFault, Topology,
};
use crate::output::LineageMaps;
use crate::rows::{flat, ints, lemma_flat_row, row_starts};
use crate::scalar::{zero_of, Scalar};
use crate::sharpness::{is_positive, positive};
use crate::topology::{all_below, Adjacency, Mesh};
use vstd::prelude::*;

verus! {

/// One level of a refinement.
pub struct LevelData<S> {
    pub mesh: Mesh<S>,
    pub topo: Topology<S>,
    pub face_selected: Vec<bool>,
    /// Creases, with the boundary of the selection sharpened.
    pub effective_edge_creases: Vec<S>,
    pub edge_has_selected_face: Vec<bool>,
    /// Corners, with those that creases make; the Loop scheme only.
    pub effective_vertex_corners: Vec<S>,
    pub lineage: LineageMaps,
    pub adjacency: Adjacency,
}

/// Number of corners of each face.
pub open spec fn corner_counts(faces: Seq<Seq<u32>>) -> Seq<u32> {
    faces.map_values(|f: Seq<u32>| f.len() as u32)
}

impl<S: Scalar> LevelData<S> {
    pub open spec fn n(self) -> nat {
        self.mesh.vertex_count as nat
    }

    /// The tables are sound and belong to the mesh.
    pub open spec fn wf(self) -> bool {
        &&& self.topo.sound(self.n())
        &&& self.mesh.face_vertex_counts@ == corner_counts(self.topo.faces@)
        &&& self.mesh.face_vertex_indices@ == flat(self.topo.faces@)
        &&& self.mesh.vertex_corners@.len() == self.n()
        &&& self.face_selected@.len() == self.topo.faces@.len()
        &&& self.effective_edge_creases@.len() == self.topo.edges().len()
        &&& self.edge_has_selected_face@.len() == self.topo.edges().len()
    }
}

// ---------------------------------------------------------------------------
// Errors
// ---------------------------------------------------------------------------
/// The message of a fault.
pub open spec fn fault_text(fault: MeshFault) -> &'static str {
    match fault {
        MeshFault::NoVertices => "mesh has no vertices",
        MeshFault::ShortFace => "face has fewer than three corners",
        MeshFault::Underflow => "face index buffer underflow while decoding faces",
        MeshFault::MissingVertex => "face index references missing vertex",
        MeshFault::TrailingData => "face index buffer has trailing data",
        MeshFault::DegenerateEdge => "degenerate face edge uses duplicate vertices",
        MeshFault::NonManifoldEdge => "non-manifold edge has more than two incident faces",
        MeshFault::TooLarge => "mesh does not fit 32-bit indices",
    }
}

/// The error of a fault.
pub fn fault_error(fault: MeshFault) -> (r: KernelError)
    ensures
        r == KernelError::InvalidTopology(fault_text(fault)),
{
    match fault {
        MeshFault::NoVertices => KernelError::InvalidTopology("mesh has no vertices"),
        MeshFault::ShortFace => KernelError::InvalidTopology("face has fewer than three corners"),
        MeshFault::Underflow => KernelError::InvalidTopology(
            "face index buffer underflow while decoding faces",
        ),
        MeshFault::MissingVertex => KernelError::InvalidTopology("face index references missing vertex"),
        MeshFault::TrailingData => KernelError::InvalidTopology("face index buffer has trailing data"),
        MeshFault::DegenerateEdge => KernelError::InvalidTopology(
            "degenerate face edge uses duplicate vertices",
        ),
        MeshFault::NonManifoldEdge => KernelError::InvalidTopology(
            "non-manifold edge has more than two incident faces",
        ),
        MeshFault::TooLarge => KernelError::InvalidTopology("mesh does not fit 32-bit indices"),
    }
}

// ---------------------------------------------------------------------------
// Selection
// ---------------------------------------------------------------------------
pub open spec fn all_true(flags: Seq<bool>) -> bool {
    forall|i: int| 0 <= i < flags.len() ==> #[trigger] flags[i]
}

pub(crate) fn check_all_true(flags: &[bool]) -> (r: bool)
    ensures
        r == all_true(flags@),
{
    let mut i: usize = 0;
    while i < flags.len()
        invariant
            i <= flags.len(),
            forall|j: int| 0 <= j < i ==> #[trigger] flags@[j],
        decreases flags.len() - i,
    {
        if !flags[i] {
            assert(!flags@[i as int]);
            return false;
        }
        i += 1;
    }
    true
}

/// The edges with a selected face.
pub open spec fn selected_edges(edge_faces: Seq<Seq<u32>>, selected: Seq<bool>) -> Seq<bool> {
    edge_faces.map_values(|row: Seq<u32>| any_flagged(row, selected))
}

/// Exactly one of the two sides of the edge is selected.
pub open spec fn selection_ends(row: Seq<u32>, selected: Seq<bool>) -> bool {
    let s0 = row.len() > 0 && selected[row[0] as int];
    let s1 = row.len() > 1 && selected[row[1] as int];
    s0 != s1
}

/// The creases, at least `boundary_crease` along the boundary of a selection
/// that leaves faces out.
pub open spec fn effective_creases<S: Scalar>(
    creases: Seq<S>,
    edge_faces: Seq<Seq<u32>>,
    selected: Seq<bool>,
    boundary_crease: S,
) -> Seq<S> {
    Seq::new(
        creases.len(),
        |e: int|
            if !all_true(selected) && selection_ends(edge_faces[e], selected) && positive(boundary_crease) {
                S::larger_of(creases[e], boundary_crease)
            } else {
                creases[e]
            },
    )
}

/// The edges with a selected face, and the effective creases.
pub(crate) fn compute_edge_data<S: Scalar>(
    topo: &Topology<S>,
    face_selected: &[bool],
    selection_boundary_crease: S,
    Ghost(n): Ghost<nat>,
) -> (r: (Vec<bool>, Vec<S>))
    requires
        topo.sound(n),
        face_selected@.len() == topo.faces@.len(),
    ensures
        r.0@ == selected_edges(topo.edge_faces@, face_selected@),
        r.1@ == effective_creases(
            topo.edge_creases@,
            topo.edge_faces@,
            face_selected@,
            selection_boundary_crease,
        ),
{
    let ghost sel = selected_edges(topo.edge_faces@, face_selected@);
    let ghost eff = effective_creases(
        topo.edge_creases@,
        topo.edge_faces@,
        face_selected@,
        selection_boundary_crease,
    );
    let all: bool = check_all_true(face_selected);
    let sharpen: bool = is_positive(selection_boundary_crease);
    let mut has_selected: Vec<bool> = Vec::new();
    let mut creases: Vec<S> = Vec::new();
    let mut e: usize = 0;
    while e < topo.edge_creases.len()
        invariant
            e <= topo.edge_creases.len(),
            topo.sound(n),
            face_selected@.len() == topo.faces@.len(),
            sel == selected_edges(topo.edge_faces@, face_selected@),
            eff == effective_creases(
                topo.edge_creases@,
                topo.edge_faces@,
                face_selected@,
                selection_boundary_crease,
            ),
            all == all_true(face_selected@),
            sharpen == positive(selection_boundary_crease),
            has_selected@ == sel.take(e as int),
            creases@ == eff.take(e as int),
        decreases topo.edge_creases.len() - e,
    {
        let row: &[u32] = topo.edge_faces.row(e);
        assert(topo.edge_faces@[e as int].len() > 0 && all_below(
            topo.edge_faces@[e as int],
            topo.faces@.len() as int,
        ));
        has_selected.push(check_any_flagged(row, face_selected));
        assert(row@[0] < face_selected@.len());
        assert(row@.len() > 1 ==> row@[1] < face_selected@.len());
        let s0: bool = row.len() > 0 && face_selected[row[0] as usize];
        let s1: bool = row.len() > 1 && face_selected[row[1] as usize];
        let base: S = topo.edge_creases[e];
        creases.push(
            if !all && s0 != s1 && sharpen {
                base.larger(selection_boundary_crease)
            } else {
                base
            },
        );
        e += 1;
        assert(has_selected@ =~= sel.take(e as int));
        assert(creases@ =~= eff.take(e as int));
    }
    assert(sel.take(e as int) =~= sel);
    assert(eff.take(e as int) =~= eff);
    (has_selected, creases)
}

// ---------------------------------------------------------------------------
// Adjacency
// ---------------------------------------------------------------------------
/// The two faces of an edge, `u32::MAX` where there is none.
pub open spec fn face_pair(row: Seq<u32>) -> EdgeKey {
    (
        if row.len() > 0 {
            row[0]
        } else {
            u32::MAX
        },
        if row.len() > 1 {
            row[1]
        } else {
            u32::MAX
        },
    )
}

pub open spec fn face_pairs(rows: Seq<Seq<u32>>) -> Seq<EdgeKey> {
    rows.map_values(|row: Seq<u32>| face_pair(row))
}

/// The adjacency tables are those of a topology.
pub open spec fn adjacency_of<S: Scalar>(adjacency: Adjacency, topo: Topology<S>) -> bool {
    &&& adjacency.face_edges@ == flat(topo.face_edges@)
    &&& pairs(adjacency.edge_faces@) == face_pairs(topo.edge_faces@)
    &&& ints(adjacency.vertex_edge_offsets@) == row_starts(topo.vertex_edges@)
    &&& adjacency.vertex_edges@ == flat(topo.vertex_edges@)
    &&& ints(adjacency.vertex_face_offsets@) == row_starts(topo.vertex_faces@)
    &&& adjacency.vertex_faces@ == flat(topo.vertex_faces@)
    &&& adjacency.edge_is_boundary@ == topo.edge_is_boundary@
    &&& adjacency.vertex_is_boundary@ == topo.vertex_is_boundary@
}

/// Writes a topology out as adjacency tables.
pub(crate) fn adjacency_from_topology<S: Scalar>(topo: &Topology<S>, Ghost(n): Ghost<nat>) -> (r: Adjacency)
    requires
        topo.sound(n),
    ensures
        adjacency_of(r, *topo),
{
    let (_, face_edges) = topo.face_edges.duplicate().into_parts();
    let (vertex_edge_offsets, vertex_edges) = topo.vertex_edges.duplicate().into_parts();
    let (vertex_face_offsets, vertex_faces) = topo.vertex_faces.duplicate().into_parts();
    let ghost all = face_pairs(topo.edge_faces@);
    let mut edge_faces: Vec<[u32; 2]> = Vec::new();
    let mut e: usize = 0;
    while e < topo.edge_faces.len()
        invariant
            e <= topo.edge_faces@.len(),
            topo.edge_faces.wf(),
            all == face_pairs(topo.edge_faces@),
            pairs(edge_faces@) == all.take(e as int),
        decreases topo.edge_faces@.len() - e,
    {
        let row: &[u32] = topo.edge_faces.row(e);
        let f0: u32 = if row.len() > 0 {
            row[0]
        } else {
            u32::MAX
        };
        let f1: u32 = if row.len() > 1 {
            row[1]
        } else {
            u32::MAX
        };
        let ghost before = pairs(edge_faces@);
        edge_faces.push([f0, f1]);
        assert(pairs(edge_faces@) =~= before.push((f0, f1)));
        e += 1;
        assert(pairs(edge_faces@) =~= all.take(e as int));
    }
    assert(all.take(e as int) =~= all);
    Adjacency {
        face_edges,
        edge_faces,
        vertex_edge_offsets,
        vertex_edges,
        vertex_face_offsets,
        vertex_faces,
        edge_is_boundary: copied(&topo.edge_is_boundary),
        vertex_is_boundary: copied(&topo.vertex_is_boundary),
    }
}

/// All tables are empty: the base level has not been refined.
pub open spec fn no_adjacency(a: Adjacency) -> bool {
    &&& a.face_edges@.len() == 0
    &&& a.edge_faces@.len() == 0
    &&& a.vertex_edge_offsets@.len() == 0
    &&& a.vertex_edges@.len() == 0
    &&& a.vertex_face_offsets@.len() == 0
    &&& a.vertex_faces@.len() == 0
    &&& a.edge_is_boundary@.len() == 0
    &&& a.vertex_is_boundary@.len() == 0
}

pub(crate) fn empty_adjacency() -> (r: Adjacency)
    ensures
        no_adjacency(r),
{
    Adjacency {
        face_edges: Vec::new(),
        edge_faces: Vec::new(),
        vertex_edge_offsets: Vec::new(),
        vertex_edges: Vec::new(),
        vertex_face_offsets: Vec::new(),
        vertex_faces: Vec::new(),
        edge_is_boundary: Vec::new(),
        vertex_is_boundary: Vec::new(),
    }
}

// ---------------------------------------------------------------------------
// Creases of the children
// ---------------------------------------------------------------------------
/// Creases and parents of the refined edges, while they are handed down.
#[verifier::ext_equal]
pub struct Inherited<S> {
    pub creases: Seq<S>,
    pub parents: Seq<u32>,
}

/// Nothing handed down yet.
pub open spec fn nothing_inherited<S: Scalar>(edge_count: nat) -> Inherited<S> {
    Inherited {
        creases: Seq::new(edge_count, |e: int| zero_of::<S>()),
        parents: Seq::new(edge_count, |e: int| u32::MAX),
    }
}

/// The refined edge `key`, if there is one, gets parent `e`, and the crease if
/// `sharp` holds.
pub open spec fn inherit<S>(
    state: Inherited<S>,
    table: Map<EdgeKey, usize>,
    key: EdgeKey,
    crease: S,
    sharp: bool,
    e: u32,
) -> Inherited<S> {
    if table.contains_key(key) {
        Inherited {
            creases: if sharp {
                state.creases.update(table[key] as int, crease)
            } else {
                state.creases
            },
            parents: state.parents.update(table[key] as int, e),
        }
    } else {
        state
    }
}

/// Hands a crease down to the refined edge `key`, if there is one.
pub(crate) fn hand_down<S: Scalar>(
    creases: &mut Vec<S>,
    parents: &mut Vec<u32>,
    table: &EdgeMap<usize>,
    key: EdgeKey,
    crease: S,
    sharp: bool,
    e: u32,
)
    requires
        old(creases)@.len() == old(parents)@.len(),
        forall|k: EdgeKey| #[trigger] table@.contains_key(k) ==> table@[k] < old(creases)@.len(),
    ensures
        (Inherited { creases: final(creases)@, parents: final(parents)@ }) == inherit(
            Inherited { creases: old(creases)@, parents: old(parents)@ },
            table@,
            key,
            crease,
            sharp,
            e,
        ),
        final(creases)@.len() == old(creases)@.len(),
        final(parents)@.len() == old(parents)@.len(),
{
    match edge_map_get(table, key) {
        Some(at) => {
            assert(table@.contains_key(key));
            if sharp {
                creases[at] = crease;
            }
            parents[at] = e;
        },
        None => {},
    }
}

pub(crate) fn no_parents(count: usize) -> (r: Vec<u32>)
    ensures
        r@ == Seq::new(count as nat, |e: int| u32::MAX),
{
    let mut out: Vec<u32> = Vec::new();
    let mut i: usize = 0;
    while i < count
        invariant
            i <= count,
            out@.len() == i,
            forall|j: int| 0 <= j < i ==> out@[j] == u32::MAX,
        decreases count - i,
    {
        out.push(u32::MAX);
        i += 1;
    }
    assert(out@ =~= Seq::new(count as nat, |e: int| u32::MAX));
    out
}

// ---------------------------------------------------------------------------
// Lists of refined faces
// ---------------------------------------------------------------------------
/// Refined faces as a list of lists.
pub(crate) fn pack_faces(faces: &[Vec<u32>]) -> (r: (Vec<u32>, Vec<u32>))
    requires
        forall|i: int| 0 <= i < faces@.len() ==> (#[trigger] faces@[i])@.len() <= u32::MAX,
    ensures
        r.0@ == corner_counts(crate::rows::views(faces@)),
        r.1@ == flat(crate::rows::views(faces@)),
{
    let ghost rows = crate::rows::views(faces@);
    let mut counts: Vec<u32> = Vec::new();
    let mut indices: Vec<u32> = Vec::new();
    let mut i: usize = 0;
    assert(rows.take(0) =~= Seq::<Seq<u32>>::empty());
    while i < faces.len()
        invariant
            i <= faces.len(),
            rows == crate::rows::views(faces@),
            counts@ == corner_counts(rows).take(i as int),
            indices@ == flat(rows.take(i as int)),
        decreases faces.len() - i,
    {
        let face: &Vec<u32> = &faces[i];
        let ghost before = indices@;
        counts.push(face.len() as u32);
        let mut k: usize = 0;
        while k < face.len()
            invariant
                k <= face.len(),
                indices@ == before + face@.take(k as int),
            decreases face.len() - k,
        {
            indices.push(face[k]);
            k += 1;
            assert(indices@ =~= before + face@.take(k as int));
        }
        assert(face@.take(k as int) =~= rows[i as int]);
        proof {
            crate::rows::lemma_flat_take_next(rows, i as int);
        }
        i += 1;
        assert(counts@ =~= corner_counts(rows).take(i as int));
    }
    assert(rows.take(i as int) =~= rows);
    assert(counts@ =~= corner_counts(rows));
    (counts, indices)
}

/// The parts of a list of faces decode to the faces.
pub proof fn lemma_faces_decode(faces: Seq<Seq<u32>>)
    requires
        forall|i: int| 0 <= i < faces.len() ==> (#[trigger] faces[i]).len() <= u32::MAX,
    ensures
        decoded(corner_counts(faces), flat(faces)) == faces,
        crate::topology::count_sum(corner_counts(faces)) == flat(faces).len(),
{
    let counts = corner_counts(faces);
    assert forall|f: int| 0 <= f <= faces.len() implies #[trigger] crate::incidence::face_start(counts, f)
        == crate::rows::row_start(faces, f) by {
        lemma_face_starts(faces, f);
    }
    assert forall|f: int| 0 <= f < faces.len() implies decoded(counts, flat(faces))[f]
        == faces[f] by {
        crate::rows::lemma_flat_row(faces, f);
        assert(crate::incidence::face_start(counts, f) == crate::rows::row_start(faces, f));
    }
    assert(decoded(counts, flat(faces)) =~= faces);
    assert(crate::incidence::face_start(counts, faces.len() as int) == crate::rows::row_start(
        faces,
        faces.len() as int,
    ));
    assert(counts.take(counts.len() as int) =~= counts);
    assert(faces.take(faces.len() as int) =~= faces);
}

pub proof fn lemma_face_starts(faces: Seq<Seq<u32>>, f: int)
    requires
        forall|i: int| 0 <= i < faces.len() ==> (#[trigger] faces[i]).len() <= u32::MAX,
        0 <= f <= faces.len(),
    ensures
        crate::incidence::face_start(corner_counts(faces), f) == crate::rows::row_start(faces, f),
    decreases f,
{
    let counts = corner_counts(faces);
    if f > 0 {
        lemma_face_starts(faces, f - 1);
        assert(counts.take(f).drop_last() =~= counts.take(f - 1));
        crate::rows::lemma_flat_take_next(faces, f - 1);
        assert(faces[f - 1].len() <= u32::MAX);
    } else {
        assert(counts.take(0) =~= Seq::<u32>::empty());
        assert(faces.take(0) =~= Seq::<Seq<u32>>::empty());
    }
}

/// A refined face takes the selection of its parent.
pub open spec fn inherited_selection(parents: Seq<u32>, selected: Seq<bool>) -> Seq<bool> {
    parents.map_values(|f: u32| selected[f as int])
}

/// The selection of each refined face.
pub(crate) fn select_by_parent(parents: &[u32], selected: &[bool]) -> (r: Vec<bool>)
    requires
        all_below(parents@, selected@.len() as int),
    ensures
        r@ == inherited_selection(parents@, selected@),
{
    let ghost all = inherited_selection(parents@, selected@);
    let mut out: Vec<bool> = Vec::new();
    let mut i: usize = 0;
    while i < parents.len()
        invariant
            i <= parents.len(),
            all_below(parents@, selected@.len() as int),
            all == inherited_selection(parents@, selected@),
            out@ == all.take(i as int),
        decreases parents.len() - i,
    {
        assert(parents@[i as int] < selected@.len());
        out.push(selected[parents[i] as usize]);
        i += 1;
        assert(out@ =~= all.take(i as int));
    }
    assert(out@ =~= all);
    out
}

/// Of proper faces only the edges can be at fault.
pub proof fn lemma_proper_faces_fault(faces: Seq<Seq<u32>>, n: int)
    requires
        n > 0,
        forall|q: int|
            0 <= q < faces.len() ==> 3 <= (#[trigger] faces[q]).len() <= u32::MAX && all_below(faces[q], n),
    ensures
        mesh_fault(corner_counts(faces), flat(faces), n, true) == edge_fault(faces),
        decoded(corner_counts(faces), flat(faces)) == faces,
{
    lemma_faces_decode(faces);
    let counts = corner_counts(faces);
    assert forall|k: int| 0 <= k <= faces.len() implies first_face_fault(counts, flat(faces), n, k) is None by {
        lemma_proper_prefix(faces, n, k);
    }
}

pub proof fn lemma_proper_prefix(faces: Seq<Seq<u32>>, n: int, k: int)
    requires
        0 <= k <= faces.len(),
        forall|q: int|
            0 <= q < faces.len() ==> 3 <= (#[trigger] faces[q]).len() <= u32::MAX && all_below(faces[q], n),
        decoded(corner_counts(faces), flat(faces)) == faces,
    ensures
        first_face_fault(corner_counts(faces), flat(faces), n, k) is None,
    decreases k,
{
    if k > 0 {
        lemma_proper_prefix(faces, n, k - 1);
        assert(3 <= faces[k - 1].len() <= u32::MAX && all_below(faces[k - 1], n));
        lemma_face_starts(faces, k - 1);
        lemma_flat_row(faces, k - 1);
    }
}

} // verus!
