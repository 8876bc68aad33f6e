//! Incidence tables for the Doo-Sabin scheme: a vertex lists each of its faces
//! once.

use crate::connectivity::{corner_keys, distinct, has_item, key_labels, lemma_distinct, pairs, vertex_face_lists};
use crate::csr::{lemma_packed_fits, CsrVec};
use crate::error::KernelError;
use crate::hashing::{row_items, row_lists, Row};
use crate::incidence::{
    build_topology_raw, decoded, edge_crease_list, mesh_fault, CreaseTie, MeshFault, Topology,
};
use crate::rows::{flat, lemma_flat_take_next, row_start};
use crate::scalar::Scalar;
use crate::topology::{all_below, Mesh};
use vstd::prelude::*;

verus! {

/// The message of a fault.
pub open spec fn fault_text(fault: MeshFault) -> &'static str {
    match fault {
        MeshFault::NoVertices => "mesh has no vertices",
        MeshFault::ShortFace => "invalid face",
        MeshFault::Underflow => "invalid face",
        MeshFault::MissingVertex => "face index out of bounds",
        MeshFault::TrailingData => "face index buffer has trailing data",
        MeshFault::DegenerateEdge => "degenerate face edge",
        MeshFault::NonManifoldEdge => "non-manifold edge",
        MeshFault::TooLarge => "mesh does not fit 32-bit indices",
    }
}

/// The error of a fault.
pub fn fault_error(fault: MeshFault) -> (r: KernelError)
    ensures
        r == KernelError::InvalidTopology(fault_text(fault)),
{
    match fault {
        MeshFault::NoVertices => KernelError::InvalidTopology("mesh has no vertices"),
        MeshFault::ShortFace => KernelError::InvalidTopology("invalid face"),
        MeshFault::Underflow => KernelError::InvalidTopology("invalid face"),
        MeshFault::MissingVertex => KernelError::InvalidTopology("face index out of bounds"),
        MeshFault::TrailingData => KernelError::InvalidTopology("face index buffer has trailing data"),
        MeshFault::DegenerateEdge => KernelError::InvalidTopology("degenerate face edge"),
        MeshFault::NonManifoldEdge => KernelError::InvalidTopology("non-manifold edge"),
        MeshFault::TooLarge => KernelError::InvalidTopology("mesh does not fit 32-bit indices"),
    }
}

/// Each row without its repetitions.
pub open spec fn distinct_rows(rows: Seq<Seq<u32>>) -> Seq<Seq<u32>> {
    rows.map_values(|row: Seq<u32>| distinct(row))
}

/// The tables are those of `faces` over `n` vertices.
pub open spec fn ds_describes<S: Scalar>(t: Topology<S>, faces: Seq<Seq<u32>>, n: nat) -> bool {
    &&& t.describes_edges(faces, key_labels(corner_keys(faces)), n)
    &&& t.vertex_faces@ == distinct_rows(vertex_face_lists(faces, n))
}

proof fn lemma_distinct_rows_fit(rows: Seq<Seq<u32>>, k: int)
    requires
        0 <= k <= rows.len(),
    ensures
        row_start(distinct_rows(rows), k) <= row_start(rows, k),
    decreases k,
{
    if k > 0 {
        lemma_distinct_rows_fit(rows, k - 1);
        lemma_flat_take_next(rows, k - 1);
        lemma_flat_take_next(distinct_rows(rows), k - 1);
        lemma_distinct(rows[k - 1]);
    } else {
        assert(rows.take(0) =~= Seq::<Seq<u32>>::empty());
        assert(distinct_rows(rows).take(0) =~= Seq::<Seq<u32>>::empty());
    }
}

/// A row without its repetitions.
fn dedup_row(src: &[u32]) -> (r: Row)
    ensures
        row_items(r) == distinct(src@),
{
    let mut row: Row = Row::new();
    let mut k: usize = 0;
    assert(src@.take(0) =~= Seq::<u32>::empty());
    while k < src.len()
        invariant
            k <= src.len(),
            row_items(row) == distinct(src@.take(k as int)),
        decreases src.len() - k,
    {
        assert(src@.take(k + 1).drop_last() =~= src@.take(k as int));
        if !has_item(row.as_slice(), src[k]) {
            row.push(src[k]);
        }
        k += 1;
    }
    assert(src@.take(k as int) =~= src@);
    row
}

proof fn lemma_distinct_rows_packed(rows: CsrVec)
    requires
        rows.packed(),
    ensures
        flat(distinct_rows(rows@)).len() <= u32::MAX,
{
    let n = rows@.len() as int;
    let all = distinct_rows(rows@);
    assert(all.take(n) =~= all);
    assert(rows@.take(n) =~= rows@);
    lemma_distinct_rows_fit(rows@, n);
    lemma_packed_fits(rows);
}

/// Drops the repetitions in each row.
fn dedup_rows(rows: &CsrVec) -> (r: CsrVec)
    requires
        rows.packed(),
    ensures
        r.packed(),
        r@ == distinct_rows(rows@),
{
    let ghost all = distinct_rows(rows@);
    let mut out: Vec<Row> = Vec::new();
    let mut i: usize = 0;
    while i < rows.len()
        invariant
            i <= rows@.len(),
            rows.wf(),
            all == distinct_rows(rows@),
            row_lists(out@) == all.take(i as int),
        decreases rows@.len() - i,
    {
        let row: Row = dedup_row(rows.row(i));
        let ghost before = row_lists(out@);
        out.push(row);
        assert(row_lists(out@) =~= before.push(row_items(row)));
        i += 1;
        assert(row_lists(out@) =~= all.take(i as int));
    }
    proof {
        assert(all.take(i as int) =~= all);
        lemma_distinct_rows_packed(*rows);
    }
    CsrVec::from_rows(&out)
}

/// The incidence tables of a mesh.
pub fn build_topology<S: Scalar>(mesh: &Mesh<S>) -> (r: Result<Topology<S>, KernelError>)
    ensures
        match mesh_fault(
            mesh.face_vertex_counts@,
            mesh.face_vertex_indices@,
            mesh.vertex_count as int,
            false,
        ) {
            Some(fault) => r == Err::<Topology<S>, _>(KernelError::InvalidTopology(fault_text(fault))),
            None => r is Ok && ds_describes(
                r->Ok_0,
                decoded(mesh.face_vertex_counts@, mesh.face_vertex_indices@),
                mesh.vertex_count as nat,
            ) && r->Ok_0.sound(mesh.vertex_count as nat) && r->Ok_0.edge_creases@ == edge_crease_list(
                CreaseTie::Maximum,
                pairs(mesh.edge_vertices@),
                mesh.edge_creases@,
                r->Ok_0.edges(),
            ),
        },
{
    match build_topology_raw(mesh, false, CreaseTie::Maximum) {
        Ok(t) => {
            let mut t = t;
            let ghost old_t = t;
            let ghost n = mesh.vertex_count as nat;
            let vertex_faces: CsrVec = dedup_rows(&t.vertex_faces);
            t.vertex_faces = vertex_faces;
            proof {
                assert forall|v: int| 0 <= v < n implies all_below(
                    #[trigger] t.vertex_faces@[v],
                    t.faces@.len() as int,
                ) by {
                    let row = old_t.vertex_faces@[v];
                    assert(all_below(row, old_t.faces@.len() as int));
                    lemma_distinct(row);
                    assert forall|k: int| 0 <= k < distinct(row).len() implies (#[trigger] distinct(row)[k])
                        < t.faces@.len() by {
                        assert(distinct(row).contains(distinct(row)[k]));
                        let q = row.index_of(distinct(row)[k]);
                        assert(row[q] < old_t.faces@.len());
                    }
                }
                assert(t.sound(n));
            }
            Ok(t)
        },
        Err(fault) => Err(fault_error(fault)),
    }
}

} // verus!
