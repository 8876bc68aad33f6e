//! The linear face-varying rows of the Catmull-Clark scheme.

use crate::connectivity::{next_corner, prev_corner};
use crate::csr::starts_of;
use crate::face_varying::{face_value_row, face_value_stencil, Corners};
use crate::level::LevelData;
use crate::rows::{flat, lemma_flat_row, lemma_flat_take_next, row_start, views};
use crate::rules::{midpoint, midpoint_row};
use crate::scalar::Scalar;
use crate::stencil::{identity_entry, identity_row};
use vstd::prelude::*;

verus! {

/// The four rows of the quad at corner `i` of face `f`: the face, the edge
/// before, the corner itself, the edge behind.
pub open spec fn quad_value_rows<S: Scalar>(
    faces: Seq<Seq<u32>>,
    values: Seq<u32>,
    f: int,
    i: int,
) -> Seq<Seq<(u32, S)>> {
    let n = faces[f].len() as int;
    let start = row_start(faces, f);
    let own = values[start + i];
    seq![
        face_value_row::<S>(faces, values, f),
        midpoint_row::<S>((values[start + prev_corner(i, n)], own)),
        identity_row::<S>(own),
        midpoint_row::<S>((own, values[start + next_corner(i, n)])),
    ]
}

pub open spec fn face_value_rows<S: Scalar>(
    faces: Seq<Seq<u32>>,
    values: Seq<u32>,
    selected: Seq<bool>,
    f: int,
) -> Seq<Seq<(u32, S)>> {
    if selected[f] {
        flat(Seq::new(faces[f].len(), |i: int| quad_value_rows::<S>(faces, values, f, i)))
    } else {
        Seq::new(faces[f].len(), |i: int| identity_row::<S>(values[row_start(faces, f) + i]))
    }
}

/// The rows of the linear mode, in the order of the refined corners.
pub open spec fn cc_linear_rows<S: Scalar>(parent: LevelData<S>, values: Seq<u32>) -> Seq<Seq<(u32, S)>> {
    flat(
        Seq::new(
            parent.topo.faces@.len(),
            |f: int| face_value_rows::<S>(parent.topo.faces@, values, parent.face_selected@, f),
        ),
    )
}

fn push_row<S: Scalar>(out: &mut Vec<Vec<(u32, S)>>, row: Vec<(u32, S)>)
    ensures
        views(final(out)@) == views(old(out)@).push(row@),
{
    let ghost before = views(out@);
    out.push(row);
    assert(views(out@) =~= before.push(row@));
}

/// Appends the rows of one face.
fn add_face<S: Scalar>(corners: &Corners, selected: bool, f: usize, out: &mut Vec<Vec<(u32, S)>>, Ghost(sel): Ghost<
    Seq<bool>,
>)
    requires
        corners.wf(),
        f < corners.faces@.len(),
        corners.faces@[f as int].len() >= 3,
        selected == sel[f as int],
    ensures
        views(final(out)@) == views(old(out)@) + face_value_rows::<S>(corners.faces@, corners.values@, sel, f as int),
{
    reveal(Corners::wf);
    let ghost faces = corners.faces@;
    let ghost values = corners.values@;
    let ghost before = views(out@);
    let n: usize = corners.faces.row_len(f);
    proof {
        lemma_flat_row(faces, f as int);
        assert(corners.starts@[f as int] == row_start(faces, f as int));
    }
    let total: usize = corners.values.len();
    let start: usize = corners.starts[f] as usize;
    if selected {
        let ghost quads = Seq::new(n as nat, |i: int| quad_value_rows::<S>(faces, values, f as int, i));
        let mut i: usize = 0;
        assert(quads.take(0) =~= Seq::<Seq<Seq<(u32, S)>>>::empty());
        assert(before + flat(quads.take(0)) =~= before);
        while i < n
            invariant
                i <= n,
                corners.wf(),
                faces == corners.faces@,
                values == corners.values@,
                f < faces.len(),
                n == faces[f as int].len(),
                n >= 3,
                start == row_start(faces, f as int),
                start + n <= total,
                total == values.len(),
                quads == Seq::new(n as nat, |i: int| quad_value_rows::<S>(faces, values, f as int, i)),
                views(out@) == before + flat(quads.take(i as int)),
            decreases n - i,
        {
            let prev: usize = if i == 0 {
                n - 1
            } else {
                i - 1
            };
            let next: usize = if i + 1 == n {
                0
            } else {
                i + 1
            };
            let own: u32 = corners.values[start + i];
            let ghost at = views(out@);
            push_row(out, face_value_stencil(corners, f));
            push_row(out, midpoint(corners.values[start + prev], own));
            push_row(out, identity_entry(own));
            push_row(out, midpoint(own, corners.values[start + next]));
            proof {
                assert(views(out@) =~= at + quads[i as int]);
                lemma_flat_take_next(quads, i as int);
                assert(at + quads[i as int] =~= before + flat(quads.take(i + 1)));
            }
            i += 1;
        }
        assert(quads.take(i as int) =~= quads);
    } else {
        let ghost all = face_value_rows::<S>(faces, values, sel, f as int);
        let mut i: usize = 0;
        assert(before + all.take(0) =~= before);
        while i < n
            invariant
                i <= n,
                values == corners.values@,
                n == faces[f as int].len(),
                start == row_start(faces, f as int),
                start + n <= total,
                total == values.len(),
                !sel[f as int],
                all == face_value_rows::<S>(faces, values, sel, f as int),
                views(out@) == before + all.take(i as int),
            decreases n - i,
        {
            push_row(out, identity_entry(corners.values[start + i]));
            i += 1;
            assert(views(out@) =~= before + all.take(i as int));
        }
        assert(all.take(i as int) =~= all);
    }
}

/// The stencils of the linear mode.
pub(crate) fn all_linear_stencils<S: Scalar>(parent: &LevelData<S>, values: &[u32]) -> (r: Vec<Vec<(u32, S)>>)
    requires
        parent.wf(),
        flat(parent.topo.faces@).len() <= values@.len(),
    ensures
        views(r@) == cc_linear_rows(*parent, values@),
{
    let starts: Vec<u32> = starts_of(&parent.topo.faces);
    let corners = Corners { faces: &parent.topo.faces, starts: starts.as_slice(), values };
    proof {
        reveal(Corners::wf);
    }
    let ghost faces = parent.topo.faces@;
    let ghost sel = parent.face_selected@;
    let ghost all = Seq::new(faces.len(), |f: int| face_value_rows::<S>(faces, values@, sel, f));
    let mut out: Vec<Vec<(u32, S)>> = Vec::new();
    let mut f: usize = 0;
    assert(all.take(0) =~= Seq::<Seq<Seq<(u32, S)>>>::empty());
    assert(views(out@) =~= flat(all.take(0)));
    while f < parent.topo.faces.len()
        invariant
            f <= faces.len(),
            parent.wf(),
            corners.wf(),
            corners.faces@ == faces,
            corners.values@ == values@,
            faces == parent.topo.faces@,
            sel == parent.face_selected@,
            all == Seq::new(faces.len(), |f: int| face_value_rows::<S>(faces, values@, sel, f)),
            views(out@) == flat(all.take(f as int)),
        decreases faces.len() - f,
    {
        assert(parent.topo.faces@[f as int].len() >= 3);
        add_face(&corners, parent.face_selected[f], f, &mut out, Ghost(sel));
        proof {
            lemma_flat_take_next(all, f as int);
        }
        f += 1;
    }
    assert(all.take(f as int) =~= all);
    out
}

} // verus!
