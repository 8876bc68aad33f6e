//! Incidence tables of a uniformly refined Loop mesh, straight from those of
//! its parent.

use crate::connectivity::{
    corner_faces, corner_keys, edge_key_of, face_keys, key_labels, lemma_corner, lemma_corner_counts, lemma_flat_at,
    lemma_key_label_injective, next_corner, pairs, prev_corner, EdgeAccum,
};
use crate::csr::{copied, CsrVec};
use crate::hashing::EdgeKey;
use crate::incidence::{assemble, RefinedUniform, Topology};
use crate::rows::flat;
use crate::scalar::{zero_of, Scalar};
use crate::slots::{
    empty_slots, keyed, lemma_distinct_bound, lemma_keyed_empty, lemma_relabel, lemma_uniform_start, place,
    same_partition, slots_track, uniform_rows,
};
use crate::topology::all_below;
use vstd::prelude::*;

verus! {

/// The parent tables that a refined mesh is made from.
pub struct Parent {
    pub faces: Seq<Seq<u32>>,
    pub face_edges: Seq<Seq<u32>>,
    pub edges: Seq<EdgeKey>,
    pub vertex_count: nat,
}

pub open spec fn parent_of<S: Scalar>(t: Topology<S>, n: nat) -> Parent {
    Parent { faces: t.faces@, face_edges: t.face_edges@, edges: t.edges(), vertex_count: n }
}

impl Parent {
    /// Index of the point of vertex `v`; the edge points come first.
    pub open spec fn vertex_point(self, v: int) -> u32 {
        (self.edges.len() + v) as u32
    }

    pub open spec fn refined_vertex_count(self) -> nat {
        self.edges.len() + self.vertex_count
    }

    /// Child `j` of face `f`: one at each corner, and the one in the middle.
    pub open spec fn child(self, f: int, j: int) -> Seq<u32> {
        let fe = self.face_edges[f];
        if j == 3 {
            seq![fe[0], fe[1], fe[2]]
        } else {
            seq![self.vertex_point(self.faces[f][j] as int), fe[j], fe[prev_corner(j, 3)]]
        }
    }

    /// The refined faces, four per face.
    pub open spec fn children(self) -> Seq<Seq<u32>> {
        Seq::new(4 * self.faces.len(), |q: int| self.child(q / 4, q % 4))
    }

    /// Which end of edge `e` vertex `v` is.
    pub open spec fn side(self, e: int, v: u32) -> int {
        if v == self.edges[e].0 {
            0
        } else {
            1
        }
    }

    pub open spec fn mid_slot(self, f: int, k: int) -> int {
        3 * f + k
    }

    pub open spec fn split_slot(self, e: int, side: int) -> int {
        3 * self.faces.len() + 2 * e + side
    }

    /// The slots of the three edges of a child.
    pub open spec fn child_slots(self, f: int, j: int) -> Seq<int> {
        if j == 3 {
            seq![self.mid_slot(f, 1), self.mid_slot(f, 2), self.mid_slot(f, 0)]
        } else {
            let v = self.faces[f][j];
            let cur_e = self.face_edges[f][j] as int;
            let prev_e = self.face_edges[f][prev_corner(j, 3)] as int;
            seq![
                self.split_slot(cur_e, self.side(cur_e, v)),
                self.mid_slot(f, j),
                self.split_slot(prev_e, self.side(prev_e, v)),
            ]
        }
    }

    pub open spec fn slot_rows(self) -> Seq<Seq<int>> {
        Seq::new(4 * self.faces.len(), |q: int| self.child_slots(q / 4, q % 4))
    }

    /// The slot of each corner of the refined faces.
    pub open spec fn slots(self) -> Seq<int> {
        flat(self.slot_rows())
    }

    /// The end points of the edge in a slot.
    pub open spec fn slot_key(self, s: int) -> EdgeKey {
        let corners = 3 * self.faces.len();
        if s < corners {
            let fe = self.face_edges[s / 3];
            edge_key_of(fe[s % 3], fe[prev_corner(s % 3, 3)])
        } else {
            let e = (s - corners) / 2;
            let v = if (s - corners) % 2 == 0 {
                self.edges[e].0
            } else {
                self.edges[e].1
            };
            edge_key_of(e as u32, self.vertex_point(v as int))
        }
    }

    pub open spec fn slot_count(self) -> int {
        3 * self.faces.len() as int + 2 * self.edges.len()
    }

    /// The faces are triangles, the tables agree with each other and the
    /// refined mesh fits 32 bits.
    #[verifier::opaque]
    pub open spec fn ok(self) -> bool {
        &&& self.face_edges.len() == self.faces.len()
        &&& forall|f: int|
            0 <= f < self.faces.len() ==> (#[trigger] self.faces[f]).len() == 3 && all_below(
                self.faces[f],
                self.vertex_count as int,
            )
        &&& forall|f: int|
            0 <= f < self.faces.len() ==> (#[trigger] self.face_edges[f]).len() == 3 && all_below(
                self.face_edges[f],
                self.edges.len() as int,
            )
        &&& forall|f: int, c: int|
            #![trigger self.face_edges[f][c]]
            0 <= f < self.faces.len() && 0 <= c < self.faces[f].len()
                ==> self.edges[self.face_edges[f][c] as int] == face_keys(self.faces[f])[c]
        &&& forall|e: int|
            0 <= e < self.edges.len() ==> (#[trigger] self.edges[e]).0 < self.edges[e].1 && self.edges[e].1
                < self.vertex_count
        &&& self.refined_vertex_count() <= u32::MAX
        &&& 12 * self.faces.len() < u32::MAX
        &&& 2 * self.slot_count() <= u32::MAX
    }

    /// No two corners lie between the same two edges.
    pub open spec fn simple(self) -> bool {
        forall|s: int, t: int|
            0 <= s < 3 * self.faces.len() && 0 <= t < 3 * self.faces.len() && #[trigger] self.slot_key(s)
                == #[trigger] self.slot_key(t) ==> s == t
    }
}

/// The indices that the children of a face are made from.
pub proof fn lemma_face_indices(p: Parent, f: int)
    requires
        p.ok(),
        0 <= f < p.faces.len(),
    ensures
        p.face_edges.len() == p.faces.len(),
        p.faces[f].len() == 3,
        p.face_edges[f].len() == 3,
        forall|k: int| 0 <= k < 3 ==> (#[trigger] p.faces[f][k]) < p.vertex_count,
        forall|k: int| 0 <= k < 3 ==> (#[trigger] p.face_edges[f][k]) < p.edges.len(),
        forall|k: int|
            0 <= k < 3 ==> {
                let e = #[trigger] p.edges[p.face_edges[f][k] as int];
                let a = p.faces[f][k];
                let b = p.faces[f][next_corner(k, 3)];
                e == edge_key_of(a, b) && a != b
            },
        p.refined_vertex_count() <= u32::MAX,
        12 * p.faces.len() < u32::MAX,
        2 * p.slot_count() <= u32::MAX,
{
    reveal(Parent::ok);
    assert(p.faces[f].len() == 3);
    assert(all_below(p.face_edges[f], p.edges.len() as int));
    assert(all_below(p.faces[f], p.vertex_count as int));
    assert forall|k: int| 0 <= k < 3 implies {
        let e = #[trigger] p.edges[p.face_edges[f][k] as int];
        let a = p.faces[f][k];
        let b = p.faces[f][next_corner(k, 3)];
        e == edge_key_of(a, b) && a != b
    } by {
        assert(p.face_edges[f][k] < p.edges.len());
        let e = p.edges[p.face_edges[f][k] as int];
        assert(e == face_keys(p.faces[f])[k]);
        assert(e.0 < e.1);
    }
}

pub proof fn lemma_child_counts(p: Parent)
    requires
        p.ok(),
    ensures
        forall|q: int| 0 <= q < p.children().len() ==> (#[trigger] p.children()[q]).len() == 3,
        forall|q: int| 0 <= q < p.children().len() ==> (#[trigger] p.slot_rows()[q]).len() == 3,
        flat(p.children()).len() == 12 * p.faces.len(),
        p.slots().len() == 12 * p.faces.len(),
        corner_keys(p.children()).len() == 12 * p.faces.len(),
        corner_faces(p.children()).len() == 12 * p.faces.len(),
{
    let n = p.children().len() as int;
    assert(p.children().take(n) =~= p.children());
    assert(p.slot_rows().take(n) =~= p.slot_rows());
    lemma_uniform_start(p.children(), 3, n);
    lemma_uniform_start(p.slot_rows(), 3, n);
    lemma_corner_counts(p.children());
}

/// The slots of a child are in range, and its edges are those of its slots.
pub proof fn lemma_child_keys(p: Parent, f: int, j: int)
    requires
        p.ok(),
        0 <= f < p.faces.len(),
        0 <= j < 4,
    ensures
        forall|k: int|
            0 <= k < 3 ==> 0 <= #[trigger] p.child_slots(f, j)[k] < p.slot_count() && p.slot_key(
                p.child_slots(f, j)[k],
            ) == face_keys(p.child(f, j))[k],
        forall|k: int| 0 <= k < 3 ==> (#[trigger] p.child(f, j)[k]) < p.refined_vertex_count(),
        forall|k: int|
            0 <= k < 3 ==> (#[trigger] face_keys(p.child(f, j))[k]).0 != face_keys(p.child(f, j))[k].1,
{
    lemma_face_indices(p, f);
    let fe = p.face_edges[f];
    let fv = p.faces[f];
    let e0 = p.edges[fe[0] as int];
    let e1 = p.edges[fe[1] as int];
    let e2 = p.edges[fe[2] as int];
    assert(e0 == edge_key_of(fv[0], fv[1]) && e1 == edge_key_of(fv[1], fv[2]) && e2 == edge_key_of(fv[2], fv[0]));
    assert(fe[0] != fe[1] && fe[1] != fe[2] && fe[2] != fe[0]);
    assert(fv[0] < p.vertex_count && fv[1] < p.vertex_count && fv[2] < p.vertex_count);
    let child = p.child(f, j);
    let slots = p.child_slots(f, j);
    assert(p.slot_key(3 * f) == edge_key_of(fe[0], fe[2])) by {
        assert((3 * f) / 3 == f && (3 * f) % 3 == 0);
    }
    assert(p.slot_key(3 * f + 1) == edge_key_of(fe[1], fe[0])) by {
        assert((3 * f + 1) / 3 == f && (3 * f + 1) % 3 == 1);
    }
    assert(p.slot_key(3 * f + 2) == edge_key_of(fe[2], fe[1])) by {
        assert((3 * f + 2) / 3 == f && (3 * f + 2) % 3 == 2);
    }
    if j < 3 {
        let corners = 3 * p.faces.len() as int;
        let prev = prev_corner(j, 3);
        let cur_e = fe[j] as int;
        let prev_e = fe[prev] as int;
        let v = fv[j];
        assert(fe[j] < p.edges.len() && fe[prev] < p.edges.len());
        assert(v == p.edges[cur_e].0 || v == p.edges[cur_e].1);
        assert(v == p.edges[prev_e].0 || v == p.edges[prev_e].1);
        let s1 = p.split_slot(cur_e, p.side(cur_e, v));
        let s2 = p.split_slot(prev_e, p.side(prev_e, v));
        assert((s1 - corners) / 2 == cur_e && (s1 - corners) % 2 == p.side(cur_e, v));
        assert((s2 - corners) / 2 == prev_e && (s2 - corners) % 2 == p.side(prev_e, v));
        assert(p.slot_key(s1) == edge_key_of(child[0], child[1]));
        assert(p.slot_key(s2) == edge_key_of(child[2], child[0]));
        assert(p.slot_key(p.mid_slot(f, j)) == edge_key_of(child[1], child[2]));
    }
}

/// A slot and an edge key at a place of the refined mesh.
pub proof fn lemma_refined_corner(p: Parent, f: int, j: int, k: int)
    requires
        p.ok(),
        0 <= f < p.faces.len(),
        0 <= j < 4,
        0 <= k < 3,
    ensures
        ({
            let at = 12 * f + 3 * j + k;
            &&& 0 <= at < 12 * p.faces.len()
            &&& p.slots()[at] == p.child_slots(f, j)[k]
            &&& corner_keys(p.children())[at] == face_keys(p.child(f, j))[k]
            &&& corner_faces(p.children())[at] == (4 * f + j) as u32
            &&& flat(p.children())[at] == p.child(f, j)[k]
        }),
{
    let q = 4 * f + j;
    assert(q / 4 == f && q % 4 == j);
    lemma_child_counts(p);
    lemma_uniform_start(p.children(), 3, q);
    lemma_uniform_start(p.slot_rows(), 3, q);
    assert(p.children()[q] == p.child(f, j));
    assert(p.slot_rows()[q] == p.child_slots(f, j));
    lemma_corner(p.children(), q, k);
    lemma_flat_at(p.slot_rows(), q, k);
}

/// Every corner of the refined mesh lies on the edge of its slot.
pub proof fn lemma_refined_corners(p: Parent)
    requires
        p.ok(),
    ensures
        forall|at: int|
            0 <= at < p.slots().len() ==> 0 <= #[trigger] p.slots()[at] < p.slot_count() && p.slot_key(
                p.slots()[at],
            ) == corner_keys(p.children())[at],
        forall|at: int|
            0 <= at < p.slots().len() ==> (#[trigger] corner_keys(p.children())[at]).0 != corner_keys(
                p.children(),
            )[at].1,
        forall|q: int|
            0 <= q < p.children().len() ==> all_below(
                #[trigger] p.children()[q],
                p.refined_vertex_count() as int,
            ),
{
    lemma_child_counts(p);
    assert forall|at: int| 0 <= at < p.slots().len() implies 0 <= #[trigger] p.slots()[at] < p.slot_count()
        && p.slot_key(p.slots()[at]) == corner_keys(p.children())[at] && corner_keys(p.children())[at].0
        != corner_keys(p.children())[at].1 by {
        let f = at / 12;
        let j = (at % 12) / 3;
        let k = at % 3;
        assert(at == 12 * f + 3 * j + k);
        lemma_refined_corner(p, f, j, k);
        lemma_child_keys(p, f, j);
    }
    assert forall|at: int| 0 <= at < p.slots().len() implies (#[trigger] corner_keys(p.children())[at]).0
        != corner_keys(p.children())[at].1 by {
        assert(0 <= p.slots()[at]);
    }
    assert forall|q: int| 0 <= q < p.children().len() implies all_below(
        #[trigger] p.children()[q],
        p.refined_vertex_count() as int,
    ) by {
        lemma_child_keys(p, q / 4, q % 4);
    }
}

/// Which end of edge `e` vertex `v` is.
fn edge_side<S: Scalar>(parent: &Topology<S>, e: usize, v: u32) -> (r: usize)
    requires
        e < parent.edge_vertices@.len(),
    ensures
        r == parent_of(*parent, 0).side(e as int, v),
{
    assert(parent.edges()[e as int].0 == parent.edge_vertices@[e as int]@[0]);
    if v == parent.edge_vertices[e][0] {
        0
    } else {
        1
    }
}

/// Adds the three corners of a child on the edges of their slots.
fn place_child(
    accum: &mut EdgeAccum,
    slots: &mut Vec<Option<u32>>,
    indices: &mut Vec<u32>,
    child: [u32; 3],
    slot: [usize; 3],
    face: u32,
    Ghost(p): Ghost<Parent>,
    Ghost(f): Ghost<int>,
    Ghost(j): Ghost<int>,
)
    requires
        p.ok(),
        0 <= f < p.faces.len(),
        0 <= j < 4,
        face == 4 * f + j,
        child@ == p.child(f, j),
        forall|k: int| 0 <= k < 3 ==> (#[trigger] slot@[k]) == p.child_slots(f, j)[k],
        old(slots)@.len() == p.slot_count(),
        refined_so_far(p, *old(accum), old(slots)@, old(indices)@, 12 * f + 3 * j),
    ensures
        final(slots)@.len() == p.slot_count(),
        refined_so_far(p, *final(accum), final(slots)@, final(indices)@, 12 * f + 3 * j + 3),
{
    let ghost labels = p.slots();
    let ghost keys = corner_keys(p.children());
    let ghost owners = corner_faces(p.children());
    let ghost at = 12 * f + 3 * j;
    let mut k: usize = 0;
    while k < 3
        invariant
            k <= 3,
            p.ok(),
            0 <= f < p.faces.len(),
            0 <= j < 4,
            face == 4 * f + j,
            child@ == p.child(f, j),
            forall|k: int| 0 <= k < 3 ==> (#[trigger] slot@[k]) == p.child_slots(f, j)[k],
            slots@.len() == p.slot_count(),
            at == 12 * f + 3 * j,
            labels == p.slots(),
            keys == corner_keys(p.children()),
            owners == corner_faces(p.children()),
            refined_so_far(p, *accum, slots@, indices@, at + k),
        decreases 3 - k,
    {
        let a: u32 = child[k];
        let b: u32 = if k == 2 {
            child[0]
        } else {
            child[k + 1]
        };
        let s: usize = slot[k];
        let ghost q = at + k;
        proof {
            assert(slot@[k as int] == s);
            lemma_face_indices(p, f);
            lemma_child_counts(p);
            lemma_child_keys(p, f, j);
            lemma_refined_corner(p, f, j, k as int);
            assert(child@[k as int] == a);
            assert(face_keys(p.child(f, j))[k as int] == edge_key_of(a, b));
            assert(p.slot_key(p.child_slots(f, j)[k as int]) == edge_key_of(a, b));
        }
        indices.push(a);
        place(
            accum,
            slots,
            s,
            a,
            b,
            face,
            Ghost(|s: int| p.slot_key(s)),
            Ghost(labels.take(q)),
            Ghost(keys.take(q)),
            Ghost(owners.take(q)),
        );
        assert(labels.take(q + 1) =~= labels.take(q).push(s as int));
        assert(keys.take(q + 1) =~= keys.take(q).push(edge_key_of(a, b)));
        assert(owners.take(q + 1) =~= owners.take(q).push(face));
        assert(indices@ =~= flat(p.children()).take(q + 1));
        k += 1;
    }
}

/// The tables hold the first `at` corners of the refined mesh.
pub open spec fn refined_so_far(
    p: Parent,
    accum: EdgeAccum,
    slots: Seq<Option<u32>>,
    indices: Seq<u32>,
    at: int,
) -> bool {
    let labels = p.slots().take(at);
    &&& indices == flat(p.children()).take(at)
    &&& accum.tracks(labels, corner_keys(p.children()).take(at), corner_faces(p.children()).take(at))
    &&& slots_track(slots, labels)
    &&& keyed(pairs(accum.edge_vertices@), labels, |s: int| p.slot_key(s))
}

/// Before the first corner is placed.
proof fn lemma_nothing_placed(p: Parent, accum: EdgeAccum, slots: Seq<Option<u32>>)
    requires
        accum.tracks(Seq::empty(), Seq::empty(), Seq::empty()),
        slots_track(slots, Seq::empty()),
    ensures
        refined_so_far(p, accum, slots, Seq::empty(), 0),
{
    assert(pairs(accum.edge_vertices@).len() == 0) by {
        reveal(EdgeAccum::tracks);
    }
    lemma_keyed_empty(pairs(accum.edge_vertices@), |s: int| p.slot_key(s));
    assert(p.slots().take(0) =~= Seq::<int>::empty());
    assert(corner_keys(p.children()).take(0) =~= Seq::<EdgeKey>::empty());
    assert(corner_faces(p.children()).take(0) =~= Seq::<u32>::empty());
    assert(flat(p.children()).take(0) =~= Seq::<u32>::empty());
}

proof fn lemma_slots_fit(p: Parent)
    requires
        p.ok(),
    ensures
        3 * p.faces.len() + 2 * p.edges.len() == p.slot_count(),
        p.slot_count() <= u32::MAX,
        12 * p.faces.len() < u32::MAX,
        p.edges.len() + p.vertex_count == p.refined_vertex_count(),
        p.refined_vertex_count() <= u32::MAX,
{
    reveal(Parent::ok);
}

/// Tables of the mesh in which every triangle is split into four. Vertices are
/// the edge points, then the vertex points.
#[verifier::rlimit(60)]
pub fn build_loop_refined_uniform<S: Scalar>(parent: &Topology<S>, parent_vertex_count: u32) -> (r: RefinedUniform<S>)
    requires
        parent.sound(parent_vertex_count as nat),
        parent_of(*parent, parent_vertex_count as nat).ok(),
    ensures
        ({
            let p = parent_of(*parent, parent_vertex_count as nat);
            &&& r.face_vertex_counts@ == Seq::new(4 * p.faces.len(), |q: int| 3u32)
            &&& r.face_vertex_indices@ == flat(p.children())
            &&& r.face_parent@ == Seq::new(4 * p.faces.len(), |q: int| (q / 4) as u32)
            &&& r.topology.describes(p.children(), p.slots(), p.refined_vertex_count())
            &&& r.topology.sound(p.refined_vertex_count())
            &&& r.topology.edge_creases@ == Seq::new(r.topology.edges().len(), |e: int| zero_of::<S>())
        }),
{
    let ghost p = parent_of(*parent, parent_vertex_count as nat);
    let ghost labels = p.slots();
    let ghost keys = corner_keys(p.children());
    let ghost owners = corner_faces(p.children());
    let face_count: usize = parent.faces.len();
    let edge_count: usize = parent.edge_vertices.len();
    let mut counts: Vec<u32> = Vec::new();
    let mut indices: Vec<u32> = Vec::new();
    let mut face_parent: Vec<u32> = Vec::new();
    let mut accum: EdgeAccum = EdgeAccum::new();
    proof {
        lemma_slots_fit(p);
    }
    let mut slots: Vec<Option<u32>> = empty_slots(3 * face_count + 2 * edge_count);
    proof {
        lemma_nothing_placed(p, accum, slots@);
        assert(indices@ =~= Seq::<u32>::empty());
    }
    let mut fi: usize = 0;
    while fi < face_count
        invariant
            p == parent_of(*parent, parent_vertex_count as nat),
            p.ok(),
            parent.faces.wf(),
            parent.face_edges.wf(),
            face_count == p.faces.len(),
            edge_count == p.edges.len(),
            slots@.len() == p.slot_count(),
            fi <= face_count,
            counts@.len() == 4 * fi,
            forall|q: int| 0 <= q < counts@.len() ==> counts@[q] == 3,
            face_parent@.len() == 4 * fi,
            forall|q: int| 0 <= q < face_parent@.len() ==> #[trigger] face_parent@[q] == (q / 4) as u32,
            refined_so_far(p, accum, slots@, indices@, 12 * fi),
        decreases face_count - fi,
    {
        proof {
            lemma_face_indices(p, fi as int);
        }
        let ghost f = fi as int;
        assert(p.faces[f][0] < p.vertex_count && p.faces[f][1] < p.vertex_count && p.faces[f][2] < p.vertex_count);
        assert(p.face_edges[f][0] < p.edges.len() && p.face_edges[f][1] < p.edges.len() && p.face_edges[f][2]
            < p.edges.len());
        let v0: u32 = parent.faces.get(fi, 0);
        let v1: u32 = parent.faces.get(fi, 1);
        let v2: u32 = parent.faces.get(fi, 2);
        let a01: u32 = parent.face_edges.get(fi, 0);
        let a12: u32 = parent.face_edges.get(fi, 1);
        let a20: u32 = parent.face_edges.get(fi, 2);
        let (e01, e12, e20): (usize, usize, usize) = (a01 as usize, a12 as usize, a20 as usize);
        let vp0: u32 = edge_count as u32 + v0;
        let vp1: u32 = edge_count as u32 + v1;
        let vp2: u32 = edge_count as u32 + v2;
        let cb: usize = 3 * fi;
        let sb: usize = 3 * face_count;
        let s01: [usize; 2] = [sb + 2 * e01 + edge_side(parent, e01, v0), sb + 2 * e01 + edge_side(parent, e01, v1)];
        let s12: [usize; 2] = [sb + 2 * e12 + edge_side(parent, e12, v1), sb + 2 * e12 + edge_side(parent, e12, v2)];
        let s20: [usize; 2] = [sb + 2 * e20 + edge_side(parent, e20, v2), sb + 2 * e20 + edge_side(parent, e20, v0)];
        let face: u32 = 4 * fi as u32;
        assert([vp0, a01, a20]@ =~= p.child(f, 0));
        place_child(&mut accum, &mut slots, &mut indices, [vp0, a01, a20], [s01[0], cb, s20[1]], face,
            Ghost(p), Ghost(f), Ghost(0));
        assert([vp1, a12, a01]@ =~= p.child(f, 1));
        place_child(&mut accum, &mut slots, &mut indices, [vp1, a12, a01], [s12[0], cb + 1, s01[1]], face + 1,
            Ghost(p), Ghost(f), Ghost(1));
        assert([vp2, a20, a12]@ =~= p.child(f, 2));
        place_child(&mut accum, &mut slots, &mut indices, [vp2, a20, a12], [s20[0], cb + 2, s12[1]], face + 2,
            Ghost(p), Ghost(f), Ghost(2));
        assert([a01, a12, a20]@ =~= p.child(f, 3));
        place_child(&mut accum, &mut slots, &mut indices, [a01, a12, a20], [cb + 1, cb + 2, cb], face + 3,
            Ghost(p), Ghost(f), Ghost(3));
        let mut j: usize = 0;
        while j < 4
            invariant
                j <= 4,
                fi < face_count,
                face_count < u32::MAX,
                counts@.len() == 4 * fi + j,
                forall|q: int| 0 <= q < counts@.len() ==> counts@[q] == 3,
                face_parent@.len() == 4 * fi + j,
                forall|q: int| 0 <= q < face_parent@.len() ==> #[trigger] face_parent@[q] == (q / 4) as u32,
            decreases 4 - j,
        {
            counts.push(3);
            face_parent.push(fi as u32);
            j += 1;
        }
        fi += 1;
    }
    proof {
        lemma_slots_fit(p);
    }
    let total: u32 = (edge_count + parent_vertex_count as usize) as u32;
    let topology: Topology<S> = refined_tables(accum, &indices, face_count, total, Ghost(p), Ghost(slots@));
    assert(flat(p.children()).take(12 * fi) =~= flat(p.children())) by {
        lemma_child_counts(p);
    }
    assert(counts@ =~= Seq::new(4 * p.faces.len(), |q: int| 3u32));
    assert(face_parent@ =~= Seq::new(4 * p.faces.len(), |q: int| (q / 4) as u32));
    RefinedUniform { face_vertex_counts: counts, face_vertex_indices: indices, face_parent, topology }
}

/// Tables of the refined mesh, once all its corners are placed.
#[verifier::rlimit(60)]
fn refined_tables<S: Scalar>(
    accum: EdgeAccum,
    indices: &[u32],
    face_count: usize,
    total: u32,
    Ghost(p): Ghost<Parent>,
    Ghost(slots): Ghost<Seq<Option<u32>>>,
) -> (r: Topology<S>)
    requires
        p.ok(),
        face_count == p.faces.len(),
        total == p.refined_vertex_count(),
        refined_so_far(p, accum, slots, indices@, 12 * face_count),
    ensures
        r.describes(p.children(), p.slots(), p.refined_vertex_count()),
        r.sound(p.refined_vertex_count()),
        r.edge_creases@ == Seq::new(r.edges().len(), |e: int| zero_of::<S>()),
{
    let ghost labels = p.slots();
    let ghost keys = corner_keys(p.children());
    let ghost owners = corner_faces(p.children());
    proof {
        lemma_child_counts(p);
        lemma_refined_corners(p);
        assert(labels.take(12 * face_count) =~= labels);
        assert(keys.take(12 * face_count) =~= keys);
        assert(owners.take(12 * face_count) =~= owners);
        assert(flat(p.children()).take(12 * face_count) =~= flat(p.children()));
        lemma_distinct_bound(labels, p.slot_count());
        reveal(EdgeAccum::tracks);
        reveal(Parent::ok);
    }
    let faces_csr: CsrVec = uniform_rows(copied(indices), 4 * face_count, 3, Ghost(p.children()));
    let face_edges: CsrVec = faces_csr.with_values(&accum.fe_values);
    let creases: Vec<S> = crate::scalar::zeros::<S>(accum.edge_vertices.len());
    assemble(accum, faces_csr, face_edges, total, creases, Ghost(labels))
}

/// The direct construction gives the tables of the refined faces, unless two
/// corners of the parent lie between the same two edges.
pub proof fn refined_uniform_matches_generic<S: Scalar>(p: Parent, t: Topology<S>)
    requires
        p.ok(),
        p.simple(),
        t.describes(p.children(), p.slots(), p.refined_vertex_count()),
    ensures
        t.describes(p.children(), key_labels(corner_keys(p.children())), p.refined_vertex_count()),
{
    let keys = corner_keys(p.children());
    let a = p.slots();
    let b = key_labels(keys);
    lemma_child_counts(p);
    lemma_refined_corners(p);
    assert forall|x: int, y: int| 0 <= x < a.len() && 0 <= y < a.len() implies (a[x] == a[y] <==> #[trigger] b[x]
        == #[trigger] b[y]) by {
        assert(p.slot_key(a[x]) == keys[x]);
        assert(p.slot_key(a[y]) == keys[y]);
        if b[x] == b[y] {
            lemma_key_label_injective(keys[x], keys[y]);
            lemma_slot_keys_differ(p, a[x], a[y]);
        }
    }
    assert(same_partition(a, b));
    lemma_relabel(t.edges(), flat(t.face_edges@), t.edge_faces@, a, b, keys, corner_faces(p.children()));
}

pub(crate) proof fn lemma_slot_keys_differ(p: Parent, s: int, t: int)
    requires
        p.ok(),
        p.simple(),
        0 <= s < p.slot_count(),
        0 <= t < p.slot_count(),
        p.slot_key(s) == p.slot_key(t),
    ensures
        s == t,
{
    let corners = 3 * p.faces.len() as int;
    lemma_slot_range(p, s);
    lemma_slot_range(p, t);
    if s >= corners && t >= corners {
        reveal(Parent::ok);
        let e = (s - corners) / 2;
        assert(p.edges[e].0 < p.edges[e].1 && p.edges[e].1 < p.vertex_count);
    }
}

/// An edge inside a face joins two edge points, half an edge does not.
proof fn lemma_slot_range(p: Parent, s: int)
    requires
        p.ok(),
        0 <= s < p.slot_count(),
    ensures
        s < 3 * p.faces.len() ==> p.slot_key(s).1 < p.edges.len(),
        s >= 3 * p.faces.len() ==> p.slot_key(s).0 == (s - 3 * p.faces.len()) / 2 && p.slot_key(s).1
            >= p.edges.len() && p.slot_key(s).1 == p.edges.len() + (if (s - 3 * p.faces.len()) % 2 == 0 {
            p.edges[(s - 3 * p.faces.len()) / 2].0
        } else {
            p.edges[(s - 3 * p.faces.len()) / 2].1
        }),
{
    let corners = 3 * p.faces.len() as int;
    if s < corners {
        lemma_face_indices(p, s / 3);
        assert(p.face_edges[s / 3][s % 3] < p.edges.len());
        assert(p.face_edges[s / 3][prev_corner(s % 3, 3)] < p.edges.len());
    } else {
        reveal(Parent::ok);
        let e = (s - corners) / 2;
        assert(p.edges[e].0 < p.edges[e].1 && p.edges[e].1 < p.vertex_count);
    }
}

} // verus!
