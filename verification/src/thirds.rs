//! The triangles of a sqrt(3) refinement.

use crate::connectivity::{edge_key_of, lemma_listed_complete, listed, next_corner};
use crate::flips::{face_fits, fits, lemma_flipped_tells, lemma_parent_fits, lemma_split_face, lemma_tip};
use crate::level::LevelData;
use crate::loop_subdivision::refine::triangular;
use crate::options::SchemeOptions;
use crate::output::VertexOrigin;
use crate::points::computes_exactly;
use crate::scalar::Scalar;
use crate::sqrt3::refine::{numbers, parent_of, sqrt3_refines, Parent};
use crate::weights::lemma_one;
use crate::windings::after;
use vstd::prelude::*;

verus! {

/// The places of a mark come in order.
proof fn lemma_places_ascend(marks: Seq<u32>, mark: u32)
    requires
        marks.len() <= u32::MAX,
    ensures
        ({
            let list = listed(marks, numbers(marks.len()), mark);
            &&& forall|k: int| 0 <= k < list.len() ==> #[trigger] list[k] < marks.len() && marks[list[k] as int] == mark
            &&& forall|j: int, k: int| 0 <= j < k < list.len() ==> list[j] < list[k]
        }),
    decreases marks.len(),
{
    if marks.len() > 0 {
        let front = marks.drop_last();
        lemma_places_ascend(front, mark);
        assert(numbers(marks.len()).drop_last() =~= numbers(front.len()));
        let list = listed(marks, numbers(marks.len()), mark);
        let before = listed(front, numbers(front.len()), mark);
        assert forall|k: int| 0 <= k < list.len() implies #[trigger] list[k] < marks.len() && marks[list[k] as int]
            == mark by {
            if k < before.len() {
                assert(list[k] == before[k]);
                assert(before[k] < front.len() && front[before[k] as int] == mark);
            }
        }
        assert forall|j: int, k: int| 0 <= j < k < list.len() implies list[j] < list[k] by {
            assert(list[j] == before[j]);
            assert(before[j] < front.len());
            if k < before.len() {
                assert(list[k] == before[k]);
            }
        }
    }
}

/// A face after all flips, if it lies on edge `e`.
spec fn turned<S: Scalar>(p: Parent<S>, e: int, q: int) -> Seq<u32> {
    let l = p.on_edge(e);
    let c0 = p.face_parents()[l[0] as int];
    let c1 = p.face_parents()[l[1] as int];
    if p.flips(e) {
        if q == l[0] {
            seq![c0, c1, p.vertex_point(p.edges[e].0 as int)]
        } else {
            seq![c0, p.vertex_point(p.edges[e].1 as int), c1]
        }
    } else {
        p.split_faces()[q]
    }
}

proof fn lemma_two_thirds<S: Scalar>(p: Parent<S>, e: int)
    requires
        fits(p),
        0 <= e < p.edges.len(),
    ensures
        forall|k: int|
            0 <= k < p.on_edge(e).len() ==> #[trigger] p.on_edge(e)[k] < p.split_faces().len() && p.base_edges()[p.on_edge(
                e,
            )[k] as int] == e,
        forall|j: int, k: int| 0 <= j < k < p.on_edge(e).len() ==> p.on_edge(e)[j] < p.on_edge(e)[k],
        forall|q: int|
            0 <= q < p.split_faces().len() && #[trigger] p.base_edges()[q] == e ==> p.on_edge(e).contains(q as u32),
{
    let marks = p.base_edges();
    lemma_places_ascend(marks, e as u32);
    assert forall|q: int| 0 <= q < p.split_faces().len() && #[trigger] p.base_edges()[q] == e implies p.on_edge(
        e,
    ).contains(q as u32) by {
        lemma_listed_complete(marks, numbers(marks.len()), q);
        assert(numbers(marks.len())[q] == q as u32);
    }
}

proof fn lemma_flip<S: Scalar>(p: Parent<S>, faces: Seq<Seq<u32>>, e: int, q: int)
    requires
        fits(p),
        0 <= e < p.edges.len(),
        faces.len() == p.split_faces().len(),
        forall|q: int| 0 <= q < faces.len() && p.base_edges()[q] == e ==> #[trigger] faces[q] == p.split_faces()[q],
        0 <= q < faces.len(),
    ensures
        p.base_edges()[q] == e ==> p.flip(faces, e)[q] == turned(p, e, q),
        p.base_edges()[q] != e ==> p.flip(faces, e)[q] == faces[q],
{
    lemma_two_thirds(p, e);
    if p.flips(e) {
        let l = p.on_edge(e);
        let k0 = l[0] as int;
        let k1 = l[1] as int;
        assert(k0 < k1);
        assert(p.base_edges()[k0] == e && p.base_edges()[k1] == e);
        lemma_tip(p, k0, e);
        lemma_tip(p, k1, e);
        assert(faces[k0] == p.split_faces()[k0]);
        assert(faces[k1] == p.split_faces()[k1]);
        if p.base_edges()[q] == e {
            assert(l.contains(q as u32));
            let k = l.index_of(q as u32);
            assert(k == 0 || k == 1);
        }
    }
}

proof fn lemma_turned<S: Scalar>(p: Parent<S>, k: int, q: int)
    requires
        fits(p),
        0 <= k <= p.edges.len(),
        0 <= q < p.split_faces().len(),
    ensures
        p.flipped(k).len() == p.split_faces().len(),
        p.base_edges()[q] < k ==> p.flipped(k)[q] == turned(p, p.base_edges()[q] as int, q),
        p.base_edges()[q] >= k ==> p.flipped(k)[q] == p.split_faces()[q],
    decreases k,
{
    lemma_flipped_tells(p, k);
    if k > 0 {
        let e = k - 1;
        lemma_flipped_tells(p, e);
        lemma_turned(p, e, q);
        lemma_flip(p, p.flipped(e), e, q);
    }
}

/// A third of face `f`: its centroid and its edge `i`, the same way round as the face.
pub open spec fn is_third<S: Scalar>(
    parent: LevelData<S>,
    origins: Seq<VertexOrigin>,
    tri: Seq<u32>,
    f: int,
    i: int,
) -> bool {
    let face = parent.topo.faces@[f];
    &&& 0 <= i < 3
    &&& tri.len() == 3
    &&& origins[tri[0] as int] == VertexOrigin::Face(f as u32)
    &&& origins[tri[1] as int] == VertexOrigin::Vertex(face[i])
    &&& origins[tri[2] as int] == VertexOrigin::Vertex(after(face, i))
}

/// Half of the diamond over edge `e`: the centroids of `f` and `g`, and an end of the edge.
/// The halves at the two ends go round opposite ways along the line between the centroids.
pub open spec fn is_half<S: Scalar>(
    parent: LevelData<S>,
    origins: Seq<VertexOrigin>,
    tri: Seq<u32>,
    e: int,
    f: int,
    g: int,
) -> bool {
    &&& tri.len() == 3
    &&& origins[tri[0] as int] == VertexOrigin::Face(f as u32)
    &&& ({
        ||| origins[tri[1] as int] == VertexOrigin::Face(g as u32) && origins[tri[2] as int] == VertexOrigin::Vertex(
            parent.topo.edges()[e].0,
        )
        ||| origins[tri[2] as int] == VertexOrigin::Face(g as u32) && origins[tri[1] as int] == VertexOrigin::Vertex(
            parent.topo.edges()[e].1,
        )
    })
}

/// Edge `e` lies between two refined faces and is less sharp than one.
pub open spec fn is_soft<S: Scalar>(val: spec_fn(S) -> real, parent: LevelData<S>, e: int) -> bool {
    let ef = parent.topo.edge_faces@[e];
    &&& !parent.topo.edge_is_boundary@[e]
    &&& val(parent.effective_edge_creases@[e]) < 1 as real
    &&& ef.len() >= 2
    &&& parent.face_selected@[ef[0] as int]
    &&& parent.face_selected@[ef[1] as int]
    &&& parent_of(parent).on_edge(e).len() == 2
}

proof fn lemma_origin<S: Scalar>(p: Parent<S>, f: int, v: u32)
    requires
        p.refined_vertex_count() <= u32::MAX,
    ensures
        0 <= f < p.faces.len() ==> p.origins()[f] == VertexOrigin::Face(f as u32),
        v < p.vertex_count ==> p.origins()[p.vertex_point(v as int) as int] == VertexOrigin::Vertex(v),
{
}

proof fn lemma_lists<S: Scalar>(options: SchemeOptions, boundary_crease: S, parent: LevelData<S>, child: LevelData<S>)
    requires
        parent.wf(),
        triangular(parent),
        sqrt3_refines(parent, options, boundary_crease, child),
    ensures
        child.topo.faces@ == parent_of(parent).refined_faces(),
        child.lineage.face_parent@ == parent_of(parent).face_parents(),
        child.lineage.vertex_origin@ == parent_of(parent).origins(),
        fits(parent_of(parent)),
{
    lemma_parent_fits(parent);
}

/// The shape of a refined face.
pub open spec fn third_or_half<S: Scalar>(
    val: spec_fn(S) -> real,
    parent: LevelData<S>,
    origins: Seq<VertexOrigin>,
    tri: Seq<u32>,
    h: int,
    r: (int, int, int),
) -> bool {
    let (i, f, g) = r;
    let e = parent.topo.face_edges@[h][i] as int;
    if is_soft(val, parent, e) {
        &&& f == h || g == h
        &&& parent.topo.face_edges@[f].contains(e as u32)
        &&& parent.topo.face_edges@[g].contains(e as u32)
        &&& is_half(parent, origins, tri, e, f, g)
    } else {
        is_third(parent, origins, tri, h, i)
    }
}

proof fn lemma_soft<S: Scalar>(val: spec_fn(S) -> real, parent: LevelData<S>, e: int)
    requires
        computes_exactly(val),
    ensures
        parent_of(parent).flips(e) == is_soft(val, parent, e),
{
    lemma_one::<S>(val);
}

proof fn lemma_diamond<S: Scalar>(parent: LevelData<S>, q: int, h: int, i: int) -> (r: (int, int))
    requires
        fits(parent_of(parent)),
        ({
            let p = parent_of(parent);
            let e = p.face_edges[h][i] as int;
            &&& 0 <= q < p.split_faces().len()
            &&& 0 <= h < p.faces.len()
            &&& p.selected[h]
            &&& 0 <= i < 3
            &&& p.face_parents()[q] == h
            &&& p.base_edges()[q] == e
            &&& 0 <= e < p.edges.len()
            &&& p.flips(e)
        }),
    ensures
        ({
            let p = parent_of(parent);
            let e = p.face_edges[h][i] as int;
            let (f, g) = r;
            &&& f == h || g == h
            &&& p.face_edges[f].contains(e as u32)
            &&& p.face_edges[g].contains(e as u32)
            &&& is_half(parent, p.origins(), turned(p, e, q), e, f, g)
        }),
{
    let p = parent_of(parent);
    let e = p.face_edges[h][i] as int;
    lemma_two_thirds(p, e);
    assert(face_fits(p, h));
    let face = p.faces[h];
    assert(face[0] < p.vertex_count && face[1] < p.vertex_count && face[2] < p.vertex_count);
    let l = p.on_edge(e);
    let k0 = l[0] as int;
    let k1 = l[1] as int;
    assert(p.base_edges()[k0] == e && p.base_edges()[k1] == e);
    let (f, j) = lemma_split_face(p, k0);
    let (g, k) = lemma_split_face(p, k1);
    assert(face_fits(p, f) && face_fits(p, g));
    assert(p.face_edges[f][j] == e as u32);
    assert(p.face_edges[g][k] == e as u32);
    assert(l.contains(q as u32));
    let m = l.index_of(q as u32);
    assert(m == 0 || m == 1);
    assert(p.edges[e] == edge_key_of(face[i], face[next_corner(i, 3)]));
    lemma_origin(p, f, p.edges[e].0);
    lemma_origin(p, g, p.edges[e].1);
    (f, g)
}

proof fn lemma_shape<S: Scalar>(val: spec_fn(S) -> real, parent: LevelData<S>, q: int) -> (r: (int, int, int))
    requires
        computes_exactly(val),
        fits(parent_of(parent)),
        0 <= q < parent_of(parent).refined_faces().len(),
        parent.face_selected@[parent_of(parent).face_parents()[q] as int],
    ensures
        ({
            let p = parent_of(parent);
            let h = p.face_parents()[q] as int;
            &&& 0 <= h < p.faces.len()
            &&& 0 <= r.0 < 3
            &&& third_or_half(val, parent, p.origins(), p.refined_faces()[q], h, r)
        }),
{
    let p = parent_of(parent);
    lemma_flipped_tells(p, p.edges.len() as int);
    lemma_turned(p, p.edges.len() as int, q);
    let (h, i) = lemma_split_face(p, q);
    assert(face_fits(p, h));
    let e = p.face_edges[h][i] as int;
    assert(e < p.edges.len());
    lemma_soft(val, parent, e);
    if p.flips(e) {
        let (f, g) = lemma_diamond(parent, q, h, i);
        (i, f, g)
    } else {
        let face = p.faces[h];
        assert(face[0] < p.vertex_count && face[1] < p.vertex_count && face[2] < p.vertex_count);
        lemma_origin(p, h, face[i]);
        lemma_origin(p, h, after(face, i));
        assert(p.refined_faces()[q] == p.third(h, i));
        (i, h, h)
    }
}

/// Every refined face of a sqrt(3) refinement is a third of its parent on one of its
/// edges, and over an edge that is not sharp it is half of the diamond between the
/// centroids on both sides. The result is the number of the edge in the parent and, over
/// such an edge, the two faces.
pub proof fn sqrt3_faces_are_thirds_or_halves<S: Scalar>(
    val: spec_fn(S) -> real,
    options: SchemeOptions,
    boundary_crease: S,
    parent: LevelData<S>,
    child: LevelData<S>,
    q: int,
) -> (r: (int, int, int))
    requires
        computes_exactly(val),
        parent.wf(),
        triangular(parent),
        sqrt3_refines(parent, options, boundary_crease, child),
        0 <= q < child.topo.faces@.len(),
        parent.face_selected@[child.lineage.face_parent@[q] as int],
    ensures
        0 <= child.lineage.face_parent@[q] < parent.topo.faces@.len(),
        0 <= r.0 < 3,
        third_or_half(
            val,
            parent,
            child.lineage.vertex_origin@,
            child.topo.faces@[q],
            child.lineage.face_parent@[q] as int,
            r,
        ),
{
    lemma_lists(options, boundary_crease, parent, child);
    lemma_shape(val, parent, q)
}

} // verus!
