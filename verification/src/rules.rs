//! Rows that several schemes share: means of faces, midpoints, corners.

use crate::csr::{lemma_packed_fits, lemma_row_within_flat, CsrVec};
use crate::hashing::EdgeKey;
use crate::incidence::Topology;
use crate::rows::views;
use crate::scalar::{one, one_of, zero, zero_of, Scalar};
use crate::sharpness::{
    auto_corner_of, auto_corner_sharpness, blend_of, edges_below, is_positive, positive, sharpness_to_blend,
};
use crate::stencil::{
    identity_entry, identity_row, lemma_merged_below, lemma_mixed_below, merge, merged, mix, mixed, row_below,
};
use crate::topology::all_below;
use vstd::prelude::*;

verus! {

/// The mean of the vertices of a face.
pub open spec fn face_row<S: Scalar>(face: Seq<u32>) -> Seq<(u32, S)> {
    face.map_values(|v: u32| (v, S::ratio_of(1, face.len() as u32)))
}

pub open spec fn face_rows<S: Scalar>(faces: Seq<Seq<u32>>) -> Seq<Seq<(u32, S)>> {
    faces.map_values(|f: Seq<u32>| face_row::<S>(f))
}

/// The mean of the vertices of each face.
pub(crate) fn face_point_stencils<S: Scalar>(faces: &CsrVec) -> (r: Vec<Vec<(u32, S)>>)
    requires
        faces.packed(),
        forall|f: int| 0 <= f < faces@.len() ==> (#[trigger] faces@[f]).len() > 0,
    ensures
        views(r@) == face_rows::<S>(faces@),
{
    let ghost all = face_rows::<S>(faces@);
    let mut out: Vec<Vec<(u32, S)>> = Vec::new();
    let mut fi: usize = 0;
    while fi < faces.len()
        invariant
            fi <= faces@.len(),
            faces.packed(),
            forall|f: int| 0 <= f < faces@.len() ==> (#[trigger] faces@[f]).len() > 0,
            all == face_rows::<S>(faces@),
            views(out@) == all.take(fi as int),
        decreases faces@.len() - fi,
    {
        let corners: &[u32] = faces.row(fi);
        proof {
            assert(faces@[fi as int].len() > 0);
            lemma_row_within_flat(faces@, fi as int);
            lemma_packed_fits(*faces);
        }
        let w: S = S::ratio(1, corners.len() as u32);
        let ghost whole = face_row::<S>(corners@);
        let mut row: Vec<(u32, S)> = Vec::new();
        let mut c: usize = 0;
        while c < corners.len()
            invariant
                c <= corners.len(),
                w == S::ratio_of(1, corners@.len() as u32),
                whole == face_row::<S>(corners@),
                row@ == whole.take(c as int),
            decreases corners.len() - c,
        {
            row.push((corners[c], w));
            c += 1;
            assert(row@ =~= whole.take(c as int));
        }
        assert(row@ =~= whole);
        let ghost before = views(out@);
        out.push(row);
        assert(views(out@) =~= before.push(whole));
        fi += 1;
        assert(views(out@) =~= all.take(fi as int));
    }
    assert(all.take(fi as int) =~= all);
    out
}

pub open spec fn midpoint_row<S: Scalar>(edge: EdgeKey) -> Seq<(u32, S)> {
    seq![(edge.0, S::ratio_of(1, 2)), (edge.1, S::ratio_of(1, 2))]
}

pub(crate) fn midpoint<S: Scalar>(v0: u32, v1: u32) -> (r: Vec<(u32, S)>)
    ensures
        r@ == midpoint_row::<S>((v0, v1)),
{
    let mut out: Vec<(u32, S)> = Vec::new();
    out.push((v0, S::ratio(1, 2)));
    out.push((v1, S::ratio(1, 2)));
    assert(out@ =~= midpoint_row::<S>((v0, v1)));
    out
}

/// The smooth and the sharp rule of an edge blended by its crease.
pub open spec fn blended_edge_row<S: Scalar>(
    smooth: Seq<(u32, S)>,
    sharp: Seq<(u32, S)>,
    blend: S,
) -> Seq<(u32, S)> {
    if S::at_most_of(blend, zero_of()) {
        smooth
    } else if S::at_most_of(one_of(), blend) {
        sharp
    } else {
        mixed(smooth, sharp, blend)
    }
}

pub(crate) fn blend_edge<S: Scalar>(smooth: Vec<(u32, S)>, sharp: Vec<(u32, S)>, blend: S) -> (r: Vec<(u32, S)>)
    ensures
        r@ == blended_edge_row(smooth@, sharp@, blend),
{
    if blend.at_most(zero()) {
        smooth
    } else if one::<S>().at_most(blend) {
        sharp
    } else {
        mix(&smooth, &sharp, blend)
    }
}

/// The corner sharpness of a vertex, with the one that creases make.
pub open spec fn corner_at<S: Scalar>(explicit: S, auto: bool, list: Seq<u32>, creases: Seq<S>) -> S {
    S::larger_of(
        explicit,
        if auto {
            auto_corner_of(creases_at(list, creases))
        } else {
            zero_of()
        },
    )
}

pub(crate) fn effective_corner_at<S: Scalar>(explicit: S, auto: bool, list: &[u32], creases: &[S]) -> (r: S)
    requires
        all_below(list@, creases@.len() as int),
        list@.len() <= u32::MAX,
    ensures
        r == corner_at(explicit, auto, list@, creases@),
{
    let implicit: S = if auto {
        let ghost all = creases_at(list@, creases@);
        let mut incident: Vec<S> = Vec::new();
        let mut k: usize = 0;
        while k < list.len()
            invariant
                k <= list.len(),
                all_below(list@, creases@.len() as int),
                all == creases_at(list@, creases@),
                incident@ == all.take(k as int),
            decreases list.len() - k,
        {
            assert(list@[k as int] < creases@.len());
            incident.push(creases[list[k] as usize]);
            k += 1;
            assert(incident@ =~= all.take(k as int));
        }
        assert(incident@ =~= all);
        auto_corner_sharpness(&incident)
    } else {
        zero()
    };
    explicit.larger(implicit)
}

/// A smooth rule blended with the corner rule.
pub open spec fn cornered_row<S: Scalar>(smooth: Seq<(u32, S)>, v: u32, corner: S) -> Seq<(u32, S)> {
    if positive(corner) {
        mixed(smooth, identity_row::<S>(v), blend_of(corner))
    } else {
        smooth
    }
}

pub(crate) fn corner_blend<S: Scalar>(smooth: Vec<(u32, S)>, v: u32, corner: S) -> (r: Vec<(u32, S)>)
    ensures
        r@ == cornered_row(smooth@, v, corner),
{
    if is_positive(corner) {
        let original: Vec<(u32, S)> = identity_entry(v);
        mix(&smooth, &original, sharpness_to_blend(corner))
    } else {
        smooth
    }
}

/// The rows of a list of faces, merged with one weight.
pub open spec fn faces_merged<S: Scalar>(
    base: Seq<(u32, S)>,
    list: Seq<u32>,
    faces: Seq<Seq<u32>>,
    weight: S,
) -> Seq<(u32, S)>
    decreases list.len(),
{
    if list.len() == 0 {
        base
    } else {
        merged(
            faces_merged(base, list.drop_last(), faces, weight),
            face_row::<S>(faces[list.last() as int]),
            weight,
        )
    }
}

pub(crate) fn merge_faces<S: Scalar>(
    row: &mut Vec<(u32, S)>,
    list: &[u32],
    face_stencils: &[Vec<(u32, S)>],
    weight: S,
    Ghost(faces): Ghost<Seq<Seq<u32>>>,
)
    requires
        views(face_stencils@) == face_rows::<S>(faces),
        all_below(list@, faces.len() as int),
    ensures
        final(row)@ == faces_merged(old(row)@, list@, faces, weight),
{
    let mut k: usize = 0;
    assert(list@.take(0) =~= Seq::<u32>::empty());
    while k < list.len()
        invariant
            k <= list.len(),
            views(face_stencils@) == face_rows::<S>(faces),
            all_below(list@, faces.len() as int),
            row@ == faces_merged(old(row)@, list@.take(k as int), faces, weight),
        decreases list.len() - k,
    {
        assert(list@[k as int] < faces.len());
        let f: usize = list[k] as usize;
        assert(views(face_stencils@).len() == face_stencils@.len());
        assert(views(face_stencils@)[f as int] == face_stencils@[f as int]@);
        merge(row, &face_stencils[f], weight);
        k += 1;
        assert(list@.take(k as int).drop_last() =~= list@.take(k - 1));
    }
    assert(list@.take(k as int) =~= list@);
}

pub proof fn lemma_face_row_below<S: Scalar>(face: Seq<u32>, n: nat)
    requires
        all_below(face, n as int),
    ensures
        row_below(face_row::<S>(face), n),
{
    assert forall|k: int| 0 <= k < face.len() implies (#[trigger] face_row::<S>(face)[k]).0 < n by {
        assert(face[k] < n);
    }
}

pub proof fn lemma_faces_merged_below<S: Scalar>(
    base: Seq<(u32, S)>,
    list: Seq<u32>,
    faces: Seq<Seq<u32>>,
    weight: S,
    n: nat,
)
    requires
        row_below(base, n),
        all_below(list, faces.len() as int),
        forall|f: int| 0 <= f < faces.len() ==> all_below(#[trigger] faces[f], n as int),
    ensures
        row_below(faces_merged(base, list, faces, weight), n),
    decreases list.len(),
{
    if list.len() > 0 {
        let front = list.drop_last();
        assert(all_below(front, faces.len() as int)) by {
            assert forall|k: int| 0 <= k < front.len() implies (#[trigger] front[k]) < faces.len() by {
                assert(list[k] < faces.len());
            }
        }
        lemma_faces_merged_below(base, front, faces, weight, n);
        assert(list[list.len() - 1] < faces.len());
        lemma_face_row_below::<S>(faces[list.last() as int], n);
        lemma_merged_below(
            faces_merged(base, front, faces, weight),
            face_row::<S>(faces[list.last() as int]),
            weight,
            n,
        );
    }
}

pub proof fn lemma_cornered_below<S: Scalar>(smooth: Seq<(u32, S)>, v: u32, corner: S, n: nat)
    requires
        row_below(smooth, n),
        v < n,
    ensures
        row_below(cornered_row(smooth, v, corner), n),
{
    lemma_mixed_below(smooth, identity_row::<S>(v), blend_of(corner), n);
}

/// The edges around a vertex have their ends among the vertices.
pub proof fn lemma_edges_below<S: Scalar>(t: Topology<S>, n: nat, v: int)
    requires
        t.sound(n),
        0 <= v < n,
    ensures
        edges_below(t.vertex_edges@[v], t.edges(), n),
        forall|e: int| 0 <= e < t.edges().len() ==> (#[trigger] t.edges()[e]).0 < n && t.edges()[e].1 < n,
{
    let list = t.vertex_edges@[v];
    assert(all_below(list, t.edges().len() as int));
    assert forall|k: int| 0 <= k < list.len() implies t.edges()[#[trigger] list[k] as int].0 < n
        && t.edges()[list[k] as int].1 < n by {
        let e = list[k] as int;
        assert(t.edges()[e].0 < t.edges()[e].1 && t.edges()[e].1 < n);
    }
    assert forall|e: int| 0 <= e < t.edges().len() implies (#[trigger] t.edges()[e]).0 < n && t.edges()[e].1 < n by {
        assert(t.edges()[e].0 < t.edges()[e].1);
    }
}

/// The creases of a list of edges.
pub open spec fn creases_at<S>(list: Seq<u32>, creases: Seq<S>) -> Seq<S> {
    list.map_values(|e: u32| creases[e as int])
}

/// `p` is the first corner of the face that is not on the edge.
pub open spec fn first_off_edge(face: Seq<u32>, edge: EdgeKey, p: int) -> bool {
    &&& 0 <= p < face.len()
    &&& face[p] != edge.0 && face[p] != edge.1
    &&& forall|q: int| 0 <= q < p ==> (#[trigger] face[q]) == edge.0 || face[q] == edge.1
}

/// The first vertex of a face that is not on the edge.
pub open spec fn opposite_of(face: Seq<u32>, edge: EdgeKey) -> Option<u32> {
    if exists|p: int| first_off_edge(face, edge, p) {
        Some(face[choose|p: int| first_off_edge(face, edge, p)])
    } else {
        None
    }
}

/// The first vertex of a face that is not on the edge.
pub fn face_opposite_vertex(face: &[u32], v0: u32, v1: u32) -> (r: Option<u32>)
    ensures
        r == opposite_of(face@, (v0, v1)),
{
    let mut p: usize = 0;
    while p < face.len()
        invariant
            p <= face.len(),
            forall|q: int| 0 <= q < p ==> (#[trigger] face@[q]) == v0 || face@[q] == v1,
        decreases face.len() - p,
    {
        if face[p] != v0 && face[p] != v1 {
            proof {
                assert(first_off_edge(face@, (v0, v1), p as int));
                let c = choose|c: int| first_off_edge(face@, (v0, v1), c);
                if c < p {
                    assert(face@[c] == v0 || face@[c] == v1);
                }
                if p < c {
                    assert(face@[p as int] == v0 || face@[p as int] == v1);
                }
            }
            return Some(face[p]);
        }
        p += 1;
    }
    proof {
        if exists|c: int| first_off_edge(face@, (v0, v1), c) {
            let c = choose|c: int| first_off_edge(face@, (v0, v1), c);
            assert(face@[c] == v0 || face@[c] == v1);
        }
    }
    None
}

/// The ends of an edge and the corners of its faces are vertices.
pub proof fn lemma_edge_ends<S: Scalar>(t: Topology<S>, n: nat, e: int)
    requires
        t.sound(n),
        0 <= e < t.edges().len(),
    ensures
        t.edges()[e].0 < n,
        t.edges()[e].1 < n,
        t.edge_faces@.len() == t.edges().len(),
        t.edge_faces@[e].len() >= 2 ==> t.edge_faces@[e][0] < t.faces@.len() && t.edge_faces@[e][1] < t.faces@.len()
            && all_below(t.faces@[t.edge_faces@[e][0] as int], n as int) && all_below(
            t.faces@[t.edge_faces@[e][1] as int],
            n as int,
        ),
{
    assert(t.edges()[e].0 < t.edges()[e].1 && t.edges()[e].1 < n);
    let row = t.edge_faces@[e];
    assert(row.len() > 0 && all_below(row, t.faces@.len() as int));
    if row.len() >= 2 {
        assert(row[0] < t.faces@.len() && row[1] < t.faces@.len());
        assert(t.faces@[row[0] as int].len() >= 3);
        assert(t.faces@[row[1] as int].len() >= 3);
    }
}

pub proof fn lemma_opposite_below(face: Seq<u32>, edge: EdgeKey, n: nat)
    requires
        all_below(face, n as int),
    ensures
        opposite_of(face, edge) is Some ==> opposite_of(face, edge)->Some_0 < n,
{
    if exists|p: int| first_off_edge(face, edge, p) {
        let p = choose|p: int| first_off_edge(face, edge, p);
        assert(face[p] < n);
    }
}

pub open spec fn is_corner(face: Seq<u32>, v: u32, p: int) -> bool {
    &&& 0 <= p < face.len()
    &&& face[p] == v
    &&& forall|q: int| 0 <= q < p ==> (#[trigger] face[q]) != v
}

/// The first corner of a face at `v`.
pub open spec fn corner_at_vertex(face: Seq<u32>, v: u32) -> Option<int> {
    if exists|p: int| is_corner(face, v, p) {
        Some(choose|p: int| is_corner(face, v, p))
    } else {
        None
    }
}

/// The first corner of a face at `v`.
pub fn corner_of(face: &[u32], v: u32) -> (r: Option<usize>)
    ensures
        match r {
            Some(p) => corner_at_vertex(face@, v) == Some(p as int) && p < face@.len(),
            None => corner_at_vertex(face@, v) is None,
        },
{
    let mut p: usize = 0;
    while p < face.len()
        invariant
            p <= face.len(),
            forall|q: int| 0 <= q < p ==> (#[trigger] face@[q]) != v,
        decreases face.len() - p,
    {
        if face[p] == v {
            proof {
                assert(is_corner(face@, v, p as int));
                let c = choose|c: int| is_corner(face@, v, c);
                if c < p {
                    assert(face@[c] != v);
                }
                if p < c {
                    assert(face@[p as int] != v);
                }
            }
            return Some(p);
        }
        p += 1;
    }
    proof {
        if exists|c: int| is_corner(face@, v, c) {
            let c = choose|c: int| is_corner(face@, v, c);
            assert(face@[c] != v);
        }
    }
    None
}

pub proof fn lemma_corner_at_vertex(face: Seq<u32>, v: u32)
    ensures
        match corner_at_vertex(face, v) {
            Some(p) => is_corner(face, v, p),
            None => true,
        },
{
}

} // verus!
