//! What the faces of a sqrt(3) refinement are made of.

use crate::channels::{belongs, linear_values_are_means, mean_of_face};
use crate::connectivity::{
    edge_key_of, face_keys, lemma_flat_at, lemma_listed, lemma_same_starts, next_corner, owner_rows,
};
use crate::face_varying::linear_row;
use crate::incidence::lemma_flat_locate;
use crate::level::LevelData;
use crate::loop_subdivision::refine::triangular;
use crate::options::SchemeOptions;
use crate::rules::{first_off_edge, opposite_of};
use crate::scalar::Scalar;
use crate::sqrt3::refine::{lemma_split_proper, numbers, parent_of, sqrt3_refines, Parent};
use crate::topology::all_below;
use crate::weights::reads_exactly;
use vstd::prelude::*;

verus! {

/// A refined vertex is a centroid or the point of a vertex of face `f`.
pub(crate) open spec fn tells<S: Scalar>(p: Parent<S>, cv: u32, f: int) -> bool {
    cv < p.faces.len() || exists|c: int|
        0 <= c < p.faces[f].len() && cv == #[trigger] p.vertex_point(p.faces[f][c] as int)
}

pub(crate) open spec fn row_tells<S: Scalar>(p: Parent<S>, row: Seq<u32>, f: int) -> bool {
    forall|k: int| 0 <= k < row.len() ==> tells(p, #[trigger] row[k], f)
}

/// Face `f` is a triangle with its three edges, if it is selected.
pub(crate) open spec fn face_fits<S: Scalar>(p: Parent<S>, f: int) -> bool {
    &&& all_below(p.faces[f], p.vertex_count as int)
    &&& p.selected[f] ==> {
        &&& p.faces[f].len() == 3
        &&& p.face_edges[f].len() == 3
        &&& forall|c: int|
            0 <= c < 3 ==> (#[trigger] p.face_edges[f][c]) < p.edges.len() && p.edges[p.face_edges[f][c] as int]
                == face_keys(p.faces[f])[c]
    }
}

pub(crate) open spec fn fits<S: Scalar>(p: Parent<S>) -> bool {
    &&& p.refined_vertex_count() <= u32::MAX
    &&& p.edges.len() < u32::MAX
    &&& p.base_edges().len() == p.split_faces().len()
    &&& p.base_edges().len() <= u32::MAX
    &&& p.face_parents().len() == p.split_faces().len()
    &&& forall|f: int| 0 <= f < p.faces.len() ==> #[trigger] face_fits(p, f)
}

/// Where face `q` after the split comes from.
pub(crate) proof fn lemma_split_face<S: Scalar>(p: Parent<S>, q: int) -> (r: (int, int))
    requires
        fits(p),
        0 <= q < p.split_faces().len(),
    ensures
        0 <= r.0 < p.faces.len(),
        p.face_parents()[q] == r.0,
        p.split_faces()[q] == p.split(r.0)[r.1],
        0 <= r.1 < p.split(r.0).len(),
        p.selected[r.0] ==> p.base_edges()[q] == p.face_edges[r.0][r.1],
        !p.selected[r.0] ==> p.base_edges()[q] == u32::MAX,
{
    let rows = p.split_rows();
    let (f, i) = lemma_flat_locate(rows, q);
    lemma_same_starts(rows, owner_rows(rows), f);
    lemma_flat_at(owner_rows(rows), f, i);
    assert(face_fits(p, f));
    assert forall|g: int| 0 <= g < p.faces.len() implies (#[trigger] p.base_edge_rows()[g]).len() == rows[g].len() by {
        assert(face_fits(p, g));
    }
    lemma_same_starts(p.base_edge_rows(), rows, f);
    lemma_flat_at(p.base_edge_rows(), f, i);
    (f, i)
}

proof fn lemma_split_tells<S: Scalar>(p: Parent<S>, q: int)
    requires
        fits(p),
        0 <= q < p.split_faces().len(),
    ensures
        row_tells(p, p.split_faces()[q], p.face_parents()[q] as int),
{
    let (f, i) = lemma_split_face(p, q);
    assert(face_fits(p, f));
    let row = p.split_faces()[q];
    assert forall|k: int| 0 <= k < row.len() implies tells(p, #[trigger] row[k], f) by {
        if p.selected[f] {
            if k > 0 {
                let c: int = if k == 1 {
                    i
                } else {
                    next_corner(i, 3)
                };
                assert(row[k] == p.vertex_point(p.faces[f][c] as int));
            }
        } else {
            assert(row[k] == p.vertex_point(p.faces[f][k] as int));
        }
    }
}

/// The part of a face on an edge: its tip is a centroid, and the ends of the edge
/// are vertices of its parent.
pub(crate) proof fn lemma_tip<S: Scalar>(p: Parent<S>, q: int, e: int)
    requires
        fits(p),
        0 <= q < p.split_faces().len(),
        0 <= e < p.edges.len(),
        p.base_edges()[q] == e,
    ensures
        ({
            let a = p.vertex_point(p.edges[e].0 as int);
            let b = p.vertex_point(p.edges[e].1 as int);
            let tip = opposite_of(p.split_faces()[q], (a, b));
            &&& tip == Some(p.face_parents()[q])
            &&& p.face_parents()[q] < p.faces.len()
            &&& tells(p, a, p.face_parents()[q] as int)
            &&& tells(p, b, p.face_parents()[q] as int)
        }),
{
    let (f, i) = lemma_split_face(p, q);
    assert(face_fits(p, f));
    let face = p.faces[f];
    let d = next_corner(i, 3);
    let row = p.split_faces()[q];
    let a = p.vertex_point(p.edges[e].0 as int);
    let b = p.vertex_point(p.edges[e].1 as int);
    assert(row == p.third(f, i));
    assert(p.face_edges[f][i] == e);
    assert(p.edges[e] == edge_key_of(face[i], face[d]));
    assert(face[i] < p.vertex_count && face[d] < p.vertex_count);
    let x = p.vertex_point(face[i] as int);
    let y = p.vertex_point(face[d] as int);
    assert((a == x && b == y) || (a == y && b == x));
    assert(row[0] == f as u32 && row[0] != a && row[0] != b);
    assert(first_off_edge(row, (a, b), 0));
    let t = choose|t: int| first_off_edge(row, (a, b), t);
    assert(t == 0);
}

/// After the flips of the first `k` edges every face tells, and the faces on the
/// other edges are as the split left them.
#[verifier::rlimit(60)]
pub(crate) proof fn lemma_flipped_tells<S: Scalar>(p: Parent<S>, k: int)
    requires
        fits(p),
        0 <= k <= p.edges.len(),
    ensures
        p.flipped(k).len() == p.split_faces().len(),
        forall|q: int|
            0 <= q < p.split_faces().len() ==> row_tells(p, #[trigger] p.flipped(k)[q], p.face_parents()[q] as int),
        forall|q: int|
            0 <= q < p.split_faces().len() && p.base_edges()[q] >= k ==> #[trigger] p.flipped(k)[q]
                == p.split_faces()[q],
    decreases k,
{
    if k == 0 {
        assert forall|q: int| 0 <= q < p.split_faces().len() implies row_tells(
            p,
            #[trigger] p.flipped(0)[q],
            p.face_parents()[q] as int,
        ) by {
            lemma_split_tells(p, q);
        }
    } else {
        let e = k - 1;
        lemma_flipped_tells(p, e);
        let faces = p.flipped(e);
        if p.flips(e) {
            let marks = p.base_edges();
            let items = numbers(marks.len());
            lemma_listed(marks, items, e as u32);
            let l = p.on_edge(e);
            let k0 = l[0] as int;
            let k1 = l[1] as int;
            let i0 = choose|i: int| 0 <= i < marks.len() && #[trigger] marks[i] == e as u32 && items[i] == l[0];
            let i1 = choose|i: int| 0 <= i < marks.len() && #[trigger] marks[i] == e as u32 && items[i] == l[1];
            assert(i0 == k0 && i1 == k1);
            lemma_tip(p, k0, e);
            lemma_tip(p, k1, e);
            assert(faces[k0] == p.split_faces()[k0]);
            assert(faces[k1] == p.split_faces()[k1]);
        }
    }
}

pub(crate) proof fn lemma_parent_fits<S: Scalar>(level: LevelData<S>)
    requires
        level.wf(),
        triangular(level),
        parent_of(level).refined_vertex_count() <= u32::MAX,
    ensures
        fits(parent_of(level)),
{
    let p = parent_of(level);
    lemma_split_proper(level);
    crate::connectivity::lemma_same_starts(owner_rows(p.split_rows()), p.split_rows(), 0);
    assert forall|f: int| 0 <= f < p.faces.len() implies #[trigger] face_fits(p, f) by {
        assert(all_below(level.topo.faces@[f], level.n() as int));
        if p.selected[f] {
            assert(level.topo.faces@[f].len() == 3);
            assert(level.topo.face_edges@[f].len() == 3);
            assert(all_below(level.topo.face_edges@[f], level.topo.edges().len() as int));
            assert forall|c: int| 0 <= c < 3 implies (#[trigger] p.face_edges[f][c]) < p.edges.len()
                && p.edges[p.face_edges[f][c] as int] == face_keys(p.faces[f])[c] by {
                assert(level.topo.edges()[level.topo.face_edges@[f][c] as int] == face_keys(
                    level.topo.faces@[f],
                )[c]);
            }
        }
    }
}

proof fn lemma_told_belongs<S: Scalar>(p: Parent<S>, cv: u32, f: int)
    requires
        fits(p),
        0 <= f < p.faces.len(),
        tells(p, cv, f),
    ensures
        cv < p.origins().len(),
        belongs(p.faces, p.edges, p.origins()[cv as int], f),
{
    assert(face_fits(p, f));
    if cv >= p.faces.len() {
        let c = choose|c: int| 0 <= c < p.faces[f].len() && cv == #[trigger] p.vertex_point(p.faces[f][c] as int);
        assert(p.faces[f][c] < p.vertex_count);
        assert(p.faces[f].contains(p.faces[f][c]));
    }
}

/// In the linear mode of the sqrt(3) scheme every refined value is a mean of values of
/// one face.
pub proof fn sqrt3_linear_values_are_means<S: Scalar>(
    val: spec_fn(S) -> real,
    options: SchemeOptions,
    boundary_crease: S,
    parent: LevelData<S>,
    child: LevelData<S>,
    values: Seq<u32>,
    q: int,
    k: int,
)
    requires
        reads_exactly(val),
        parent.wf(),
        triangular(parent),
        sqrt3_refines(parent, options, boundary_crease, child),
        0 <= q < child.topo.faces@.len(),
        0 <= k < child.topo.faces@[q].len(),
    ensures
        mean_of_face(
            val,
            parent.topo.faces@,
            values,
            linear_row::<S>(
                parent.topo.faces@,
                values,
                parent.topo.edges(),
                child.lineage.vertex_origin@[child.topo.faces@[q][k] as int],
                child.lineage.face_parent@[q] as int,
            ),
        ),
{
    let p = parent_of(parent);
    assert(p.refined_vertex_count() <= u32::MAX);
    lemma_parent_fits(parent);
    lemma_flipped_tells(p, p.edges.len() as int);
    assert(child.topo.faces@[q] == p.refined_faces()[q]);
    let (f, i) = lemma_split_face(p, q);
    assert(row_tells(p, p.flipped(p.edges.len() as int)[q], f));
    lemma_told_belongs(p, child.topo.faces@[q][k], f);
    assert forall|f: int| 0 <= f < parent.topo.faces@.len() implies 0 < (#[trigger] parent.topo.faces@[f]).len()
        <= u32::MAX by {
        crate::csr::lemma_row_within_flat(parent.topo.faces@, f);
    }
    linear_values_are_means(
        val,
        parent.topo.faces@,
        values,
        parent.topo.edges(),
        child.lineage.vertex_origin@[child.topo.faces@[q][k] as int],
        child.lineage.face_parent@[q] as int,
    );
}

} // verus!
