//! The face-varying rows of the Doo-Sabin scheme. A refined vertex is a corner
//! of a face, and its stencil stays inside that face.

use crate::connectivity::{corner_faces, lemma_corner_counts, owners_of};
use crate::csr::starts_of;
use crate::face_varying::{lemma_owners_below, remapped, value_in_face, Corners};
use crate::level::LevelData;
use crate::rows::{flat, views};
use crate::scalar::{one, one_of, Scalar};
use crate::stencil::{identity_entry, identity_row, merge};
use crate::topology::all_below;
use vstd::prelude::*;

verus! {

/// The rows of the linear mode: each corner copies the corner it comes from.
pub open spec fn ds_linear_rows<S: Scalar>(child_verts: Seq<u32>, values: Seq<u32>) -> Seq<Seq<(u32, S)>> {
    child_verts.map_values(|cv: u32| identity_row::<S>(values[cv as int]))
}

/// The value of `u` in face `f`, else the number of the vertex.
pub open spec fn own_value(faces: Seq<Seq<u32>>, values: Seq<u32>, f: int, u: u32) -> u32 {
    match value_in_face(faces, values, f, u) {
        Some(x) => x,
        None => u,
    }
}

/// The row of a refined vertex in values of the face that it is a corner of.
pub open spec fn ds_smooth_row<S: Scalar>(
    faces: Seq<Seq<u32>>,
    values: Seq<u32>,
    rows: Seq<Seq<(u32, S)>>,
    cv: int,
) -> Seq<(u32, S)> {
    remapped(rows[cv], |u: u32| own_value(faces, values, corner_faces(faces)[cv] as int, u))
}

/// The rows of the smooth modes.
pub open spec fn ds_smooth_rows<S: Scalar>(
    faces: Seq<Seq<u32>>,
    child_verts: Seq<u32>,
    values: Seq<u32>,
    rows: Seq<Seq<(u32, S)>>,
) -> Seq<Seq<(u32, S)>> {
    child_verts.map_values(|cv: u32| ds_smooth_row(faces, values, rows, cv as int))
}

/// The stencils of the linear mode.
pub(crate) fn all_linear_copy_corners<S: Scalar>(child_verts: &[u32], values: &[u32]) -> (r: Vec<Vec<(u32, S)>>)
    requires
        all_below(child_verts@, values@.len() as int),
    ensures
        views(r@) == ds_linear_rows::<S>(child_verts@, values@),
{
    let ghost all = ds_linear_rows::<S>(child_verts@, values@);
    let mut out: Vec<Vec<(u32, S)>> = Vec::new();
    let mut i: usize = 0;
    while i < child_verts.len()
        invariant
            i <= child_verts.len(),
            all_below(child_verts@, values@.len() as int),
            all == ds_linear_rows::<S>(child_verts@, values@),
            views(out@) == all.take(i as int),
        decreases child_verts.len() - i,
    {
        assert(child_verts@[i as int] < values@.len());
        let ghost before = views(out@);
        let row: Vec<(u32, S)> = identity_entry(values[child_verts[i] as usize]);
        out.push(row);
        assert(views(out@) =~= before.push(row@));
        i += 1;
        assert(views(out@) =~= all.take(i as int));
    }
    assert(views(out@) =~= all);
    out
}

fn smooth_stencil<S: Scalar>(corners: &Corners, row: &[(u32, S)], f: usize) -> (r: Vec<(u32, S)>)
    requires
        corners.wf(),
        f < corners.faces@.len(),
    ensures
        r@ == remapped(row@, |u: u32| own_value(corners.faces@, corners.values@, f as int, u)),
{
    let ghost value = |u: u32| own_value(corners.faces@, corners.values@, f as int, u);
    let mut out: Vec<(u32, S)> = Vec::new();
    let mut k: usize = 0;
    assert(row@.take(0) =~= Seq::<(u32, S)>::empty());
    while k < row.len()
        invariant
            k <= row.len(),
            corners.wf(),
            f < corners.faces@.len(),
            value == (|u: u32| own_value(corners.faces@, corners.values@, f as int, u)),
            out@ == remapped(row@.take(k as int), value),
        decreases row.len() - k,
    {
        let (u, w) = row[k];
        let x: u32 = match corners.fvar_in_face(f, u) {
            Some(x) => x,
            None => u,
        };
        assert(x == value(u));
        assert(row@.take(k + 1).drop_last() =~= row@.take(k as int));
        merge(&mut out, &[(x, one::<S>())], w);
        assert([(x, one_of::<S>())]@ =~= seq![(x, one_of::<S>())]);
        k += 1;
    }
    assert(row@.take(k as int) =~= row@);
    out
}

/// The stencils of the smooth modes.
pub(crate) fn smooth_doo_sabin<S: Scalar>(
    parent: &LevelData<S>,
    child_verts: &[u32],
    rows: &[Vec<(u32, S)>],
    values: &[u32],
) -> (r: Vec<Vec<(u32, S)>>)
    requires
        parent.wf(),
        flat(parent.topo.faces@).len() <= values@.len(),
        rows@.len() == flat(parent.topo.faces@).len(),
        all_below(child_verts@, rows@.len() as int),
    ensures
        views(r@) == ds_smooth_rows::<S>(parent.topo.faces@, child_verts@, values@, views(rows@)),
{
    let starts: Vec<u32> = starts_of(&parent.topo.faces);
    let corners = Corners { faces: &parent.topo.faces, starts: starts.as_slice(), values };
    let owners: Vec<u32> = owners_of(&parent.topo.faces);
    let ghost faces = parent.topo.faces@;
    proof {
        reveal(Corners::wf);
        lemma_corner_counts(faces);
        lemma_owners_below(faces);
    }
    let ghost all = ds_smooth_rows::<S>(faces, child_verts@, values@, views(rows@));
    let mut out: Vec<Vec<(u32, S)>> = Vec::new();
    let mut i: usize = 0;
    while i < child_verts.len()
        invariant
            i <= child_verts.len(),
            corners.wf(),
            corners.faces@ == faces,
            corners.values@ == values@,
            owners@ == corner_faces(faces),
            owners@.len() == rows@.len(),
            all_below(owners@, faces.len() as int),
            all_below(child_verts@, rows@.len() as int),
            all == ds_smooth_rows::<S>(faces, child_verts@, values@, views(rows@)),
            views(out@) == all.take(i as int),
        decreases child_verts.len() - i,
    {
        assert(child_verts@[i as int] < rows@.len());
        let cv: usize = child_verts[i] as usize;
        assert(owners@[cv as int] < faces.len());
        assert(views(rows@)[cv as int] == rows@[cv as int]@);
        let row: Vec<(u32, S)> = smooth_stencil(&corners, &rows[cv], owners[cv] as usize);
        assert(row@ == all[i as int]);
        let ghost before = views(out@);
        out.push(row);
        assert(views(out@) =~= before.push(row@));
        i += 1;
        assert(views(out@) =~= all.take(i as int));
    }
    assert(views(out@) =~= all);
    out
}

/// A smooth row of a refined vertex reads values of one face only: it never
/// mixes values across a seam.
pub proof fn smooth_rows_stay_in_their_face(
    faces: Seq<Seq<u32>>,
    values: Seq<u32>,
    f: int,
    u: u32,
)
    requires
        0 <= f < faces.len(),
        flat(faces).len() <= values.len(),
        faces[f].contains(u),
    ensures
        exists|c: int|
            0 <= c < faces[f].len() && faces[f][c] == u && #[trigger] values[crate::rows::row_start(faces, f) + c]
                == own_value(faces, values, f, u),
{
    crate::face_varying::lemma_has_corner(faces[f], u);
    crate::rules::lemma_corner_at_vertex(faces[f], u);
    let c = crate::rules::corner_at_vertex(faces[f], u)->Some_0;
    assert(values[crate::rows::row_start(faces, f) + c] == own_value(faces, values, f, u));
}

} // verus!
