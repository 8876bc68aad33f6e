//! The faces of a Doo-Sabin refinement.

use crate::connectivity::{edge_key_of, lemma_flat_at};
use crate::doo_sabin::refine::{
    across, child_faces, child_parents, corner_point, corner_points, ds_children, ds_refines, edge_child_rows,
    edge_children, edge_corners, exit_key, face_children, is_other_face, ordered_faces, vertex_child_rows,
    vertex_children, walk,
};
use crate::hashing::EdgeKey;
use crate::incidence::Topology;
use crate::level::LevelData;
use crate::options::SchemeOptions;
use crate::rows::{flat, row_start};
use crate::rules::{corner_at_vertex, is_corner, lemma_corner_at_vertex};
use crate::scalar::Scalar;
use crate::windings::{after, before};
use vstd::prelude::*;

verus! {

/// The point of a corner of face `f` at vertex `v`. The points are numbered face by face,
/// and corner by corner.
pub open spec fn point_at(faces: Seq<Seq<u32>>, p: u32, f: int, v: u32) -> bool {
    exists|c: int| 0 <= c < faces[f].len() && #[trigger] faces[f][c] == v && p == row_start(faces, f) + c
}

proof fn lemma_ds_lists<S: Scalar>(options: SchemeOptions, boundary_crease: S, parent: LevelData<S>, child: LevelData<S>)
    requires
        ds_refines(parent, options, boundary_crease, child),
    ensures
        child.topo.faces@ == child_faces(ds_children(parent)),
        child.lineage.face_parent@ == child_parents(ds_children(parent)),
        flat(parent.topo.faces@).len() <= u32::MAX,
{
}

proof fn lemma_point(faces: Seq<Seq<u32>>, f: int, c: int, v: u32)
    requires
        0 <= f < faces.len(),
        0 <= c < faces[f].len(),
        faces[f][c] == v,
        flat(faces).len() <= u32::MAX,
    ensures
        point_at(faces, corner_point(faces, f, c), f, v),
        corner_point(faces, f, c) == row_start(faces, f) + c,
{
    lemma_flat_at(faces, f, c);
    assert(faces[f][c] == v);
}

/// The first faces are those of the faces: each has the points of the corners of its
/// parent, in order.
pub proof fn faces_shrink_to_their_points<S: Scalar>(
    options: SchemeOptions,
    boundary_crease: S,
    parent: LevelData<S>,
    child: LevelData<S>,
    f: int,
    c: int,
)
    requires
        ds_refines(parent, options, boundary_crease, child),
        0 <= f < parent.topo.faces@.len(),
        parent.topo.faces@.len() <= u32::MAX,
        0 <= c < parent.topo.faces@[f].len(),
    ensures
        f < child.topo.faces@.len(),
        child.lineage.face_parent@[f] == f,
        child.topo.faces@[f].len() == parent.topo.faces@[f].len(),
        child.topo.faces@[f][c] == row_start(parent.topo.faces@, f) + c,
{
    lemma_ds_lists(options, boundary_crease, parent, child);
    let faces = parent.topo.faces@;
    let children = ds_children(parent);
    assert(children[f] == face_children(faces, parent.face_selected@)[f]);
    lemma_point(faces, f, c, faces[f][c]);
}

/// The quad of an edge: against the edge along the first face, and along the edge on the
/// second.
pub open spec fn edge_quad<S: Scalar>(parent: LevelData<S>, quad: Seq<u32>, e: int) -> bool {
    let t = parent.topo;
    let (v0, v1) = t.edges()[e];
    let f0 = t.edge_faces@[e][0] as int;
    let f1 = t.edge_faces@[e][1] as int;
    &&& quad.len() == 4
    &&& point_at(t.faces@, quad[0], f0, v1)
    &&& point_at(t.faces@, quad[1], f0, v0)
    &&& point_at(t.faces@, quad[2], f1, v0)
    &&& point_at(t.faces@, quad[3], f1, v1)
}

proof fn lemma_edge_quad<S: Scalar>(parent: LevelData<S>, e: int)
    requires
        0 <= e < parent.topo.edges().len(),
        edge_corners(parent.topo, e) is Some,
        parent.topo.edge_faces@[e][0] < parent.topo.faces@.len(),
        parent.topo.edge_faces@[e][1] < parent.topo.faces@.len(),
        flat(parent.topo.faces@).len() <= u32::MAX,
    ensures
        ({
            let list = edge_children(parent.topo, parent.face_selected@, e);
            &&& list.len() == 1
            &&& edge_quad(parent, list[0].face, e)
            &&& list[0].parent == parent.topo.edge_faces@[e][0]
        }),
{
    let t = parent.topo;
    let (v0, v1) = t.edges()[e];
    let f0 = t.edge_faces@[e][0] as int;
    let f1 = t.edge_faces@[e][1] as int;
    let (c00, c10, c01, c11) = edge_corners(t, e)->Some_0;
    lemma_corner_at_vertex(t.faces@[f0], v0);
    lemma_corner_at_vertex(t.faces@[f0], v1);
    lemma_corner_at_vertex(t.faces@[f1], v0);
    lemma_corner_at_vertex(t.faces@[f1], v1);
    lemma_point(t.faces@, f0, c00, v0);
    lemma_point(t.faces@, f0, c10, v1);
    lemma_point(t.faces@, f1, c01, v0);
    lemma_point(t.faces@, f1, c11, v1);
}

/// The children of the edges come behind those of the faces.
proof fn lemma_edge_child<S: Scalar>(parent: LevelData<S>, e: int) -> (q: int)
    requires
        0 <= e < parent.topo.edges().len(),
        edge_children(parent.topo, parent.face_selected@, e).len() == 1,
    ensures
        0 <= q < ds_children(parent).len(),
        ds_children(parent)[q] == edge_children(parent.topo, parent.face_selected@, e)[0],
{
    let t = parent.topo;
    let rows = edge_child_rows(t, parent.face_selected@);
    assert(rows[e] == edge_children(t, parent.face_selected@, e));
    lemma_flat_at(rows, e, 0);
    t.faces@.len() + row_start(rows, e)
}

/// Every inner edge with two faces gets its quad. The result is the quad.
pub proof fn inner_edges_get_a_quad<S: Scalar>(
    options: SchemeOptions,
    boundary_crease: S,
    parent: LevelData<S>,
    child: LevelData<S>,
    e: int,
) -> (q: int)
    requires
        ds_refines(parent, options, boundary_crease, child),
        0 <= e < parent.topo.edges().len(),
        edge_corners(parent.topo, e) is Some,
        parent.topo.edge_faces@[e][0] < parent.topo.faces@.len(),
        parent.topo.edge_faces@[e][1] < parent.topo.faces@.len(),
    ensures
        0 <= q < child.topo.faces@.len(),
        child.lineage.face_parent@[q] == parent.topo.edge_faces@[e][0],
        edge_quad(parent, child.topo.faces@[q], e),
{
    lemma_ds_lists(options, boundary_crease, parent, child);
    lemma_edge_quad(parent, e);
    lemma_edge_child(parent, e)
}

proof fn lemma_corner_points(faces: Seq<Seq<u32>>, list: Seq<u32>, v: u32)
    requires
        flat(faces).len() <= u32::MAX,
        forall|i: int| 0 <= i < list.len() ==> #[trigger] list[i] < faces.len() && faces[list[i] as int].contains(v),
    ensures
        corner_points(faces, list, v).len() == list.len(),
        forall|i: int|
            0 <= i < list.len() ==> #[trigger] point_at(faces, corner_points(faces, list, v)[i], list[i] as int, v),
    decreases list.len(),
{
    if list.len() > 0 {
        let front = list.drop_last();
        assert forall|i: int| 0 <= i < front.len() implies #[trigger] front[i] < faces.len() && faces[front[i] as int].contains(
            v,
        ) by {
            assert(front[i] == list[i]);
        }
        lemma_corner_points(faces, front, v);
        let f = list[list.len() - 1] as int;
        let face = faces[f];
        lemma_first_corner(face, v);
        lemma_corner_at_vertex(face, v);
        let c = corner_at_vertex(face, v)->Some_0;
        lemma_point(faces, f, c, v);
        let points = corner_points(faces, list, v);
        assert forall|i: int| 0 <= i < list.len() implies #[trigger] point_at(faces, points[i], list[i] as int, v) by {
            if i < front.len() {
                assert(point_at(faces, corner_points(faces, front, v)[i], front[i] as int, v));
            }
        }
    }
}

/// A face with a corner at `v` has a first one.
proof fn lemma_first_corner(face: Seq<u32>, v: u32)
    requires
        face.contains(v),
    ensures
        corner_at_vertex(face, v) is Some,
    decreases face.len(),
{
    let front = face.drop_last();
    if front.contains(v) {
        lemma_first_corner(front, v);
        let p = choose|p: int| is_corner(front, v, p);
        assert forall|i: int| 0 <= i < p implies #[trigger] face[i] != v by {
            assert(front[i] == face[i]);
        }
        assert(is_corner(face, v, p));
    } else {
        let p = face.len() - 1;
        let at = face.index_of(v);
        assert(face[at] == v);
        assert(at == p) by {
            if at < p {
                assert(front[at] == v);
            }
        }
        assert forall|i: int| 0 <= i < p implies face[i] != v by {
            assert(front[i] == face[i]);
        }
        assert(is_corner(face, v, p));
    }
}

/// Every inner vertex with three or more faces round it gets a face, with the point of
/// each of those faces at the vertex, in the order in which they come round it. The result
/// is the face.
pub proof fn inner_vertices_get_a_face<S: Scalar>(
    options: SchemeOptions,
    boundary_crease: S,
    parent: LevelData<S>,
    child: LevelData<S>,
    v: int,
    i: int,
) -> (q: int)
    requires
        ds_refines(parent, options, boundary_crease, child),
        0 <= v < parent.n(),
        parent.n() <= u32::MAX,
        !parent.topo.vertex_is_boundary@[v],
        parent.topo.vertex_faces@[v].len() >= 3,
        ({
            let t = parent.topo;
            let round = ordered_faces(t, v as u32, t.vertex_faces@[v]);
            &&& round.len() >= 3
            &&& 0 <= i < round.len()
            &&& forall|k: int|
                0 <= k < round.len() ==> #[trigger] round[k] < t.faces@.len() && t.faces@[round[k] as int].contains(
                    v as u32,
                )
        }),
    ensures
        0 <= q < child.topo.faces@.len(),
        ({
            let t = parent.topo;
            let round = ordered_faces(t, v as u32, t.vertex_faces@[v]);
            &&& child.lineage.face_parent@[q] == round[0]
            &&& child.topo.faces@[q].len() == round.len()
            &&& point_at(t.faces@, child.topo.faces@[q][i], round[i] as int, v as u32)
        }),
{
    lemma_ds_lists(options, boundary_crease, parent, child);
    let t = parent.topo;
    let sel = parent.face_selected@;
    let round = ordered_faces(t, v as u32, t.vertex_faces@[v]);
    lemma_corner_points(t.faces@, round, v as u32);
    let children = ds_children(parent);
    let edge_faces = flat(edge_child_rows(t, sel));
    let rows = vertex_child_rows(t, sel, parent.n());
    assert(rows[v] == vertex_children(t, sel, v));
    assert(rows[v].len() == 1);
    lemma_flat_at(rows, v, 0);
    let q = t.faces@.len() + edge_faces.len() + row_start(rows, v);
    assert(children[q] == rows[v][0]);
    assert(point_at(t.faces@, corner_points(t.faces@, round, v as u32)[i], round[i] as int, v as u32));
    q
}

// ---------------------------------------------------------------------------
// Walks round a vertex
// ---------------------------------------------------------------------------
/// A step of a walk round `v` from face `a`, entered over `entry`, to face `b`: over the
/// other edge of the face at its corner at `v`, to a face that meets that edge.
pub open spec fn steps_over<S: Scalar>(t: Topology<S>, v: u32, a: u32, entry: EdgeKey, exit: EdgeKey, b: u32) -> bool {
    let face = t.faces@[a as int];
    exists|c: int| #[trigger]
        is_corner(face, v, c) && ({
            let last = edge_key_of(v, before(face, c));
            let next = edge_key_of(v, after(face, c));
            &&& exit == last || exit == next
            &&& entry == last && last != next ==> exit == next
            &&& entry == next && last != next ==> exit == last
        }) && t.edge_key_to_index@.contains_key(exit) && t.edge_faces@[t.edge_key_to_index@[exit] as int].contains(b) && b
        != a
}

proof fn lemma_step<S: Scalar>(t: Topology<S>, v: u32, a: u32, entry: EdgeKey) -> (exit: EdgeKey)
    requires
        corner_at_vertex(t.faces@[a as int], v) is Some,
    ensures
        exit == exit_key(t.faces@[a as int], v, corner_at_vertex(t.faces@[a as int], v)->Some_0, entry),
        across(t, exit, a as int) is Some ==> steps_over(t, v, a, entry, exit, across(t, exit, a as int)->Some_0),
{
    let face = t.faces@[a as int];
    lemma_corner_at_vertex(face, v);
    let c = corner_at_vertex(face, v)->Some_0;
    assert(is_corner(face, v, c));
    let exit = exit_key(face, v, c, entry);
    if across(t, exit, a as int) is Some {
        let list = t.edge_faces@[t.edge_key_to_index@[exit] as int];
        let p = choose|p: int| is_other_face(list, a as int, p);
        assert(is_other_face(list, a as int, p));
        assert(list.contains(list[p]));
    }
    exit
}

/// The edges that a walk crosses.
proof fn lemma_walk<S: Scalar>(t: Topology<S>, v: u32, a: u32, entry: EdgeKey, steps: nat) -> (keys: Seq<EdgeKey>)
    ensures
        keys.len() == walk(t, v, a as int, entry, steps).len(),
        forall|i: int|
            #![trigger keys[i]]
            0 <= i < keys.len() ==> steps_over(
                t,
                v,
                (seq![a] + walk(t, v, a as int, entry, steps))[i],
                (seq![entry] + keys)[i],
                keys[i],
                walk(t, v, a as int, entry, steps)[i],
            ),
    decreases steps,
{
    let faces = walk(t, v, a as int, entry, steps);
    if faces.len() == 0 {
        Seq::empty()
    } else {
        let exit = lemma_step(t, v, a, entry);
        let b = across(t, exit, a as int)->Some_0;
        let rest = lemma_walk(t, v, b, exit, (steps - 1) as nat);
        let tail = walk(t, v, b as int, exit, (steps - 1) as nat);
        assert(faces == seq![b] + tail);
        let keys = seq![exit] + rest;
        assert forall|i: int| #![trigger keys[i]] 0 <= i < keys.len() implies steps_over(
            t,
            v,
            (seq![a] + faces)[i],
            (seq![entry] + keys)[i],
            keys[i],
            faces[i],
        ) by {
            if i > 0 {
                assert(keys[i] == rest[i - 1]);
                assert((seq![a] + faces)[i] == (seq![b] + tail)[i - 1]);
                assert((seq![entry] + keys)[i] == (seq![exit] + rest)[i - 1]);
                assert(faces[i] == tail[i - 1]);
            }
        }
        keys
    }
}

/// The faces of an inner vertex come in the order of a walk round it: each step leads over
/// the edge behind the vertex to the face on the other side, and never back over the edge
/// it came by. The result is the edges that are crossed.
pub proof fn faces_come_in_the_order_of_a_walk<S: Scalar>(t: Topology<S>, v: u32, list: Seq<u32>, c: int) -> (keys: Seq<
    EdgeKey,
>)
    requires
        list.len() > 0,
        is_corner(t.faces@[list[0] as int], v, c),
    ensures
        ({
            let round = ordered_faces(t, v, list);
            let face = t.faces@[list[0] as int];
            let first = edge_key_of(v, before(face, c));
            &&& round.len() == keys.len() + 1
            &&& round.len() <= list.len()
            &&& round[0] == list[0]
            &&& forall|i: int|
                #![trigger keys[i]]
                0 <= i < keys.len() ==> steps_over(t, v, round[i], (seq![first] + keys)[i], keys[i], round[i + 1])
        }),
{
    let a = list[0];
    let face = t.faces@[a as int];
    lemma_corner_at_vertex(face, v);
    let p = corner_at_vertex(face, v)->Some_0;
    assert(is_corner(face, v, p));
    assert(p == c);
    let first = edge_key_of(v, before(face, c));
    let steps = (list.len() - 1) as nat;
    let keys = lemma_walk(t, v, a, first, steps);
    lemma_walk_len(t, v, a as int, first, steps);
    let round = ordered_faces(t, v, list);
    let rest = walk(t, v, a as int, first, steps);
    assert(round == seq![a] + rest);
    assert forall|i: int| #![trigger keys[i]] 0 <= i < keys.len() implies steps_over(
        t,
        v,
        round[i],
        (seq![first] + keys)[i],
        keys[i],
        round[i + 1],
    ) by {
        assert(round[i + 1] == rest[i]);
    }
    keys
}

proof fn lemma_walk_len<S: Scalar>(t: Topology<S>, v: u32, face: int, entry: EdgeKey, steps: nat)
    ensures
        walk(t, v, face, entry, steps).len() <= steps,
    decreases steps,
{
    if steps > 0 {
        if let Some(p) = corner_at_vertex(t.faces@[face], v) {
            let exit = exit_key(t.faces@[face], v, p, entry);
            if let Some(next) = across(t, exit, face) {
                lemma_walk_len(t, v, next as int, exit, (steps - 1) as nat);
            }
        }
    }
}

} // verus!
