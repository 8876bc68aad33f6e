//! Incidence tables of a uniformly refined Catmull-Clark mesh, straight from
//! those of its parent.

use crate::connectivity::{
    corner_faces, corner_keys, edge_key_of, face_keys, key_labels, lemma_corner, lemma_corner_counts, lemma_flat_at,
    lemma_key_label_injective, lemma_same_starts, next_corner, pairs, prev_corner, EdgeAccum,
};
use crate::csr::{copied, CsrVec};
use crate::hashing::EdgeKey;
use crate::incidence::{assemble, lemma_flat_locate, RefinedUniform, Topology};
use crate::rows::{flat, lemma_flat_row, row_start};
use crate::scalar::{zero_of, Scalar};
use crate::slots::{
    empty_slots, keyed, lemma_distinct_bound, lemma_keyed_empty, lemma_relabel, lemma_uniform_start, place, same_partition, slots_track,
    uniform_rows,
};
use crate::topology::all_below;
use vstd::prelude::*;

verus! {

/// The parent tables that a refined mesh is made from.
pub struct Parent {
    pub faces: Seq<Seq<u32>>,
    pub face_edges: Seq<Seq<u32>>,
    pub edges: Seq<EdgeKey>,
    pub vertex_count: nat,
}

pub open spec fn parent_of<S: Scalar>(t: Topology<S>, n: nat) -> Parent {
    Parent { faces: t.faces@, face_edges: t.face_edges@, edges: t.edges(), vertex_count: n }
}

impl Parent {
    /// Index of the point of edge `e`.
    pub open spec fn edge_point(self, e: int) -> u32 {
        (self.faces.len() + e) as u32
    }

    /// Index of the point of vertex `v`.
    pub open spec fn vertex_point(self, v: int) -> u32 {
        (self.faces.len() + self.edges.len() + v) as u32
    }

    pub open spec fn refined_vertex_count(self) -> nat {
        self.faces.len() + self.edges.len() + self.vertex_count
    }

    /// The quad at corner `c` of face `f`.
    pub open spec fn quad(self, f: int, c: int) -> Seq<u32> {
        let n = self.faces[f].len() as int;
        seq![
            f as u32,
            self.edge_point(self.face_edges[f][prev_corner(c, n)] as int),
            self.vertex_point(self.faces[f][c] as int),
            self.edge_point(self.face_edges[f][c] as int),
        ]
    }

    pub open spec fn quad_rows(self) -> Seq<Seq<Seq<u32>>> {
        Seq::new(self.faces.len(), |f: int| Seq::new(self.faces[f].len(), |c: int| self.quad(f, c)))
    }

    /// The refined faces: one quad per corner, face by face.
    pub open spec fn quads(self) -> Seq<Seq<u32>> {
        flat(self.quad_rows())
    }

    /// Which end of edge `e` vertex `v` is.
    pub open spec fn side(self, e: int, v: u32) -> int {
        if v == self.edges[e].0 {
            0
        } else {
            1
        }
    }

    pub open spec fn spoke_slot(self, f: int, c: int) -> int {
        row_start(self.faces, f) + c
    }

    pub open spec fn split_slot(self, e: int, side: int) -> int {
        flat(self.faces).len() + 2 * e + side
    }

    /// The slots of the four edges of a quad: two spokes to the face point and
    /// two halves of edges.
    pub open spec fn quad_slots(self, f: int, c: int) -> Seq<int> {
        let n = self.faces[f].len() as int;
        let prev = prev_corner(c, n);
        let v = self.faces[f][c];
        let prev_e = self.face_edges[f][prev] as int;
        let cur_e = self.face_edges[f][c] as int;
        seq![
            self.spoke_slot(f, prev),
            self.split_slot(prev_e, self.side(prev_e, v)),
            self.split_slot(cur_e, self.side(cur_e, v)),
            self.spoke_slot(f, c),
        ]
    }

    pub open spec fn slot_rows(self) -> Seq<Seq<Seq<int>>> {
        Seq::new(self.faces.len(), |f: int| Seq::new(self.faces[f].len(), |c: int| self.quad_slots(f, c)))
    }

    /// The slot of each corner of the refined faces.
    pub open spec fn slots(self) -> Seq<int> {
        flat(flat(self.slot_rows()))
    }

    /// The end points of the edge in a slot.
    pub open spec fn slot_key(self, s: int) -> EdgeKey {
        let corners = flat(self.faces).len();
        if s < corners {
            edge_key_of(corner_faces(self.faces)[s], self.edge_point(flat(self.face_edges)[s] as int))
        } else {
            let e = (s - corners) / 2;
            let v = if (s - corners) % 2 == 0 {
                self.edges[e].0
            } else {
                self.edges[e].1
            };
            edge_key_of(self.edge_point(e), self.vertex_point(v as int))
        }
    }

    pub open spec fn slot_count(self) -> int {
        flat(self.faces).len() as int + 2 * self.edges.len()
    }

    /// The tables agree with each other and the refined mesh fits 32 bits.
    #[verifier::opaque]
    pub open spec fn ok(self) -> bool {
        &&& self.face_edges.len() == self.faces.len()
        &&& forall|f: int|
            0 <= f < self.faces.len() ==> (#[trigger] self.faces[f]).len() >= 3 && all_below(
                self.faces[f],
                self.vertex_count as int,
            )
        &&& forall|f: int|
            0 <= f < self.faces.len() ==> (#[trigger] self.face_edges[f]).len() == self.faces[f].len()
                && all_below(self.face_edges[f], self.edges.len() as int)
        &&& forall|f: int, c: int|
            #![trigger self.face_edges[f][c]]
            0 <= f < self.faces.len() && 0 <= c < self.faces[f].len()
                ==> self.edges[self.face_edges[f][c] as int] == face_keys(self.faces[f])[c]
        &&& forall|e: int|
            0 <= e < self.edges.len() ==> (#[trigger] self.edges[e]).0 < self.edges[e].1 && self.edges[e].1
                < self.vertex_count
        &&& self.refined_vertex_count() <= u32::MAX
        &&& 4 * flat(self.faces).len() < u32::MAX
        &&& 2 * self.slot_count() <= u32::MAX
    }

    /// No face passes an edge twice.
    pub open spec fn simple(self) -> bool {
        forall|f: int| 0 <= f < self.faces.len() ==> (#[trigger] self.face_edges[f]).no_duplicates()
    }
}

/// What a quad and its slots look like at a place of the refined mesh.
pub proof fn lemma_quad_at(p: Parent, f: int, c: int)
    requires
        p.ok(),
        0 <= f < p.faces.len(),
        0 <= c < p.faces[f].len(),
    ensures
        0 <= row_start(p.faces, f) + c < p.quads().len(),
        p.quads().len() == flat(p.faces).len(),
        p.quads()[row_start(p.faces, f) + c] == p.quad(f, c),
        flat(p.slot_rows()).len() == p.quads().len(),
        flat(p.slot_rows())[row_start(p.faces, f) + c] == p.quad_slots(f, c),
{
    reveal(Parent::ok);
    lemma_same_starts(p.faces, p.quad_rows(), f);
    lemma_same_starts(p.faces, p.slot_rows(), f);
    lemma_flat_at(p.quad_rows(), f, c);
    lemma_flat_at(p.slot_rows(), f, c);
}

pub proof fn lemma_quad_counts(p: Parent)
    requires
        p.ok(),
    ensures
        p.quads().len() == flat(p.faces).len(),
        flat(p.slot_rows()).len() == flat(p.faces).len(),
        forall|q: int| 0 <= q < p.quads().len() ==> (#[trigger] p.quads()[q]).len() == 4,
        forall|q: int| 0 <= q < p.quads().len() ==> (#[trigger] flat(p.slot_rows())[q]).len() == 4,
        flat(p.quads()).len() == 4 * flat(p.faces).len(),
        p.slots().len() == 4 * flat(p.faces).len(),
        corner_keys(p.quads()).len() == 4 * flat(p.faces).len(),
        corner_faces(p.quads()).len() == 4 * flat(p.faces).len(),
{
    reveal(Parent::ok);
    lemma_same_starts(p.faces, p.quad_rows(), 0);
    lemma_same_starts(p.faces, p.slot_rows(), 0);
    assert forall|q: int| 0 <= q < p.quads().len() implies (#[trigger] p.quads()[q]).len() == 4 by {
        let (f, c) = lemma_flat_locate(p.quad_rows(), q);
    }
    assert forall|q: int| 0 <= q < p.quads().len() implies (#[trigger] flat(p.slot_rows())[q]).len() == 4 by {
        let (f, c) = lemma_flat_locate(p.slot_rows(), q);
    }
    lemma_uniform_start(p.quads(), 4, p.quads().len() as int);
    lemma_uniform_start(flat(p.slot_rows()), 4, p.quads().len() as int);
    assert(p.quads().take(p.quads().len() as int) =~= p.quads());
    assert(flat(p.slot_rows()).take(p.quads().len() as int) =~= flat(p.slot_rows()));
    lemma_corner_counts(p.quads());
}

/// The slots of a quad are in range, and its edges are those of its slots.
pub proof fn lemma_quad_keys(p: Parent, f: int, c: int)
    requires
        p.ok(),
        0 <= f < p.faces.len(),
        0 <= c < p.faces[f].len(),
    ensures
        forall|k: int|
            0 <= k < 4 ==> 0 <= #[trigger] p.quad_slots(f, c)[k] < p.slot_count() && p.slot_key(
                p.quad_slots(f, c)[k],
            ) == face_keys(p.quad(f, c))[k],
        forall|k: int| 0 <= k < 4 ==> (#[trigger] p.quad(f, c)[k]) < p.refined_vertex_count(),
        forall|k: int|
            0 <= k < 4 ==> (#[trigger] face_keys(p.quad(f, c))[k]).0 != face_keys(p.quad(f, c))[k].1,
{
    reveal(Parent::ok);
    let n = p.faces[f].len() as int;
    let prev = prev_corner(c, n);
    let v = p.faces[f][c];
    let prev_e = p.face_edges[f][prev] as int;
    let cur_e = p.face_edges[f][c] as int;
    let corners = flat(p.faces).len() as int;
    let quad = p.quad(f, c);
    assert(p.faces[f].len() >= 3);
    assert(p.face_edges[f].len() == n);
    assert(all_below(p.face_edges[f], p.edges.len() as int));
    assert(all_below(p.faces[f], p.vertex_count as int));
    assert(p.face_edges[f][prev] < p.edges.len());
    assert(p.face_edges[f][c] < p.edges.len());
    assert(p.faces[f][c] < p.vertex_count);
    lemma_corner(p.faces, f, c);
    lemma_corner(p.faces, f, prev);
    lemma_same_starts(p.faces, p.face_edges, f);
    lemma_flat_at(p.face_edges, f, c);
    lemma_flat_at(p.face_edges, f, prev);
    assert(p.edges[cur_e] == face_keys(p.faces[f])[c]);
    assert(p.edges[prev_e] == face_keys(p.faces[f])[prev]);
    assert(next_corner(prev, n) == c);
    assert(v == p.edges[cur_e].0 || v == p.edges[cur_e].1);
    assert(v == p.edges[prev_e].0 || v == p.edges[prev_e].1);
    let s1 = p.split_slot(prev_e, p.side(prev_e, v));
    let s2 = p.split_slot(cur_e, p.side(cur_e, v));
    assert((s1 - corners) / 2 == prev_e && (s1 - corners) % 2 == p.side(prev_e, v));
    assert((s2 - corners) / 2 == cur_e && (s2 - corners) % 2 == p.side(cur_e, v));
    assert(p.slot_key(s1) == edge_key_of(quad[1], quad[2]));
    assert(p.slot_key(s2) == edge_key_of(quad[2], quad[3]));
    assert(p.slot_key(p.spoke_slot(f, prev)) == edge_key_of(quad[0], quad[1]));
    assert(p.slot_key(p.spoke_slot(f, c)) == edge_key_of(quad[3], quad[0]));
}

/// The indices that a quad is made from are in range.
pub proof fn lemma_quad_indices(p: Parent, f: int, c: int)
    requires
        p.ok(),
        0 <= f < p.faces.len(),
        0 <= c < p.faces[f].len(),
    ensures
        p.face_edges.len() == p.faces.len(),
        p.faces[f].len() >= 3,
        p.face_edges[f].len() == p.faces[f].len(),
        p.face_edges[f][c] < p.edges.len(),
        p.face_edges[f][prev_corner(c, p.faces[f].len() as int)] < p.edges.len(),
        p.faces[f][c] < p.vertex_count,
        p.refined_vertex_count() <= u32::MAX,
        4 * flat(p.faces).len() < u32::MAX,
        2 * p.slot_count() <= u32::MAX,
{
    reveal(Parent::ok);
    assert(p.faces[f].len() >= 3);
    assert(p.face_edges[f].len() == p.faces[f].len());
    assert(all_below(p.face_edges[f], p.edges.len() as int));
    assert(all_below(p.faces[f], p.vertex_count as int));
}

/// A slot and an edge key at a place of the refined mesh.
pub proof fn lemma_refined_corner(p: Parent, f: int, c: int, k: int)
    requires
        p.ok(),
        0 <= f < p.faces.len(),
        0 <= c < p.faces[f].len(),
        0 <= k < 4,
    ensures
        ({
            let at = 4 * (row_start(p.faces, f) + c) + k;
            &&& 0 <= at < 4 * flat(p.faces).len()
            &&& p.slots()[at] == p.quad_slots(f, c)[k]
            &&& corner_keys(p.quads())[at] == face_keys(p.quad(f, c))[k]
            &&& corner_faces(p.quads())[at] == (row_start(p.faces, f) + c) as u32
            &&& flat(p.quads())[at] == p.quad(f, c)[k]
        }),
{
    reveal(Parent::ok);
    let q = row_start(p.faces, f) + c;
    lemma_quad_at(p, f, c);
    lemma_quad_counts(p);
    lemma_uniform_start(p.quads(), 4, q);
    lemma_uniform_start(flat(p.slot_rows()), 4, q);
    lemma_corner(p.quads(), q, k);
    lemma_flat_at(flat(p.slot_rows()), q, k);
}

/// Every corner of the refined mesh lies on the edge of its slot.
pub proof fn lemma_refined_corners(p: Parent)
    requires
        p.ok(),
    ensures
        forall|at: int|
            0 <= at < p.slots().len() ==> 0 <= #[trigger] p.slots()[at] < p.slot_count() && p.slot_key(
                p.slots()[at],
            ) == corner_keys(p.quads())[at],
        forall|at: int|
            0 <= at < p.slots().len() ==> (#[trigger] corner_keys(p.quads())[at]).0 != corner_keys(p.quads())[at].1,
        forall|q: int|
            0 <= q < p.quads().len() ==> all_below(#[trigger] p.quads()[q], p.refined_vertex_count() as int),
{
    reveal(Parent::ok);
    lemma_quad_counts(p);
    assert forall|at: int| 0 <= at < p.slots().len() implies 0 <= #[trigger] p.slots()[at] < p.slot_count()
        && p.slot_key(p.slots()[at]) == corner_keys(p.quads())[at] && corner_keys(p.quads())[at].0 != corner_keys(
        p.quads(),
    )[at].1 by {
        let q = at / 4;
        let k = at % 4;
        let (f, c) = lemma_flat_locate(p.quad_rows(), q);
        lemma_same_starts(p.faces, p.quad_rows(), f);
        lemma_refined_corner(p, f, c, k);
        lemma_quad_keys(p, f, c);
    }
    assert forall|at: int| 0 <= at < p.slots().len() implies (#[trigger] corner_keys(p.quads())[at]).0
        != corner_keys(p.quads())[at].1 by {
        assert(0 <= p.slots()[at]);
    }
    assert forall|q: int| 0 <= q < p.quads().len() implies all_below(
        #[trigger] p.quads()[q],
        p.refined_vertex_count() as int,
    ) by {
        let (f, c) = lemma_flat_locate(p.quad_rows(), q);
        lemma_same_starts(p.faces, p.quad_rows(), f);
        lemma_quad_at(p, f, c);
        lemma_quad_keys(p, f, c);
    }
}

/// Which end of edge `e` vertex `v` is.
fn edge_side<S: Scalar>(parent: &Topology<S>, e: usize, v: u32) -> (r: usize)
    requires
        e < parent.edge_vertices@.len(),
    ensures
        r == parent_of(*parent, 0).side(e as int, v),
{
    assert(parent.edges()[e as int].0 == parent.edge_vertices@[e as int]@[0]);
    if v == parent.edge_vertices[e][0] {
        0
    } else {
        1
    }
}

/// Adds the four corners of a quad on the edges of their slots.
fn place_quad(
    accum: &mut EdgeAccum,
    slots: &mut Vec<Option<u32>>,
    quad: [u32; 4],
    slot: [usize; 4],
    face: u32,
    Ghost(slot_key): Ghost<spec_fn(int) -> EdgeKey>,
    Ghost(labels): Ghost<Seq<int>>,
    Ghost(keys): Ghost<Seq<EdgeKey>>,
    Ghost(owners): Ghost<Seq<u32>>,
    Ghost(at): Ghost<int>,
)
    requires
        0 <= at,
        at + 4 <= labels.len(),
        labels.len() == keys.len(),
        labels.len() == owners.len(),
        labels.len() < u32::MAX,
        forall|k: int|
            0 <= k < 4 ==> (#[trigger] slot@[k]) < old(slots)@.len() && labels[at + k] == slot@[k] && owners[at + k]
                == face && slot_key(slot@[k] as int) == keys[at + k] && keys[at + k] == edge_key_of(
                quad@[k],
                quad@[next_corner(k, 4)],
            ),
        old(accum).tracks(labels.take(at), keys.take(at), owners.take(at)),
        slots_track(old(slots)@, labels.take(at)),
        keyed(pairs(old(accum).edge_vertices@), labels.take(at), slot_key),
    ensures
        final(accum).tracks(labels.take(at + 4), keys.take(at + 4), owners.take(at + 4)),
        final(slots)@.len() == old(slots)@.len(),
        slots_track(final(slots)@, labels.take(at + 4)),
        keyed(pairs(final(accum).edge_vertices@), labels.take(at + 4), slot_key),
{
    let mut k: usize = 0;
    while k < 4
        invariant
            k <= 4,
            0 <= at,
            at + 4 <= labels.len(),
            labels.len() == keys.len(),
            labels.len() == owners.len(),
            labels.len() < u32::MAX,
            slots@.len() == old(slots)@.len(),
            forall|k: int|
                0 <= k < 4 ==> (#[trigger] slot@[k]) < slots@.len() && labels[at + k] == slot@[k]
                    && owners[at + k] == face && slot_key(slot@[k] as int) == keys[at + k] && keys[at + k]
                    == edge_key_of(quad@[k], quad@[next_corner(k, 4)]),
            accum.tracks(labels.take(at + k), keys.take(at + k), owners.take(at + k)),
            slots_track(slots@, labels.take(at + k)),
            keyed(pairs(accum.edge_vertices@), labels.take(at + k), slot_key),
        decreases 4 - k,
    {
        let a: u32 = quad[k];
        let b: u32 = if k == 3 {
            quad[0]
        } else {
            quad[k + 1]
        };
        let s: usize = slot[k];
        assert(slot@[k as int] == s);
        let ghost p = at + k;
        place(
            accum,
            slots,
            s,
            a,
            b,
            face,
            Ghost(slot_key),
            Ghost(labels.take(p)),
            Ghost(keys.take(p)),
            Ghost(owners.take(p)),
        );
        assert(labels.take(p + 1) =~= labels.take(p).push(s as int));
        assert(keys.take(p + 1) =~= keys.take(p).push(edge_key_of(a, b)));
        assert(owners.take(p + 1) =~= owners.take(p).push(face));
        k += 1;
    }
}

/// Tables of the mesh in which every face is split into one quad per corner.
/// Vertices are the face points, then the edge points, then the vertex points.
#[verifier::rlimit(60)]
pub fn build_cc_refined_uniform<S: Scalar>(parent: &Topology<S>, parent_vertex_count: u32) -> (r: RefinedUniform<S>)
    requires
        parent.sound(parent_vertex_count as nat),
        parent_of(*parent, parent_vertex_count as nat).ok(),
    ensures
        ({
            let p = parent_of(*parent, parent_vertex_count as nat);
            &&& r.face_vertex_counts@ == Seq::new(flat(p.faces).len(), |q: int| 4u32)
            &&& r.face_vertex_indices@ == flat(p.quads())
            &&& r.face_parent@ == corner_faces(p.faces)
            &&& r.topology.describes(p.quads(), p.slots(), p.refined_vertex_count())
            &&& r.topology.sound(p.refined_vertex_count())
            &&& r.topology.edge_creases@ == Seq::new(r.topology.edges().len(), |e: int| zero_of::<S>())
        }),
{
    let ghost p = parent_of(*parent, parent_vertex_count as nat);
    let ghost faces = p.faces;
    let ghost quads = p.quads();
    let ghost keys = corner_keys(quads);
    let ghost owners = corner_faces(quads);
    let ghost labels = p.slots();
    let ghost slot_key = |s: int| p.slot_key(s);
    let ghost corners = flat(faces).len() as int;
    proof {
        lemma_quad_counts(p);
        reveal(Parent::ok);
    }
    let face_count: usize = parent.faces.len();
    let edge_count: usize = parent.edge_vertices.len();
    let corner_count: usize = parent.faces.flat_values().len();
    let mut counts: Vec<u32> = Vec::new();
    let mut indices: Vec<u32> = Vec::new();
    let mut face_parent: Vec<u32> = Vec::new();
    let mut accum: EdgeAccum = EdgeAccum::new();
    let mut slots: Vec<Option<u32>> = empty_slots(corner_count + 2 * edge_count);
    let mut child: usize = 0;
    let mut fi: usize = 0;
    proof {
        reveal(EdgeAccum::tracks);
        lemma_keyed_empty(pairs(accum.edge_vertices@), slot_key);
    }
    assert(labels.take(0) =~= Seq::<int>::empty());
    assert(keys.take(0) =~= Seq::<EdgeKey>::empty());
    assert(owners.take(0) =~= Seq::<u32>::empty());
    assert(faces.take(0) =~= Seq::<Seq<u32>>::empty());
    assert(indices@ =~= flat(quads).take(0));
    assert(face_parent@ =~= corner_faces(faces).take(0));
    while fi < face_count
        invariant
            p == parent_of(*parent, parent_vertex_count as nat),
            p.ok(),
            parent.faces.wf(),
            parent.face_edges.wf(),
            faces == p.faces,
            quads == p.quads(),
            keys == corner_keys(quads),
            owners == corner_faces(quads),
            labels == p.slots(),
            slot_key == (|s: int| p.slot_key(s)),
            corners == flat(faces).len(),
            keys.len() == 4 * corners,
            owners.len() == 4 * corners,
            labels.len() == 4 * corners,
            flat(quads).len() == 4 * corners,
            face_count == faces.len(),
            edge_count == p.edges.len(),
            corner_count == corners,
            slots@.len() == corner_count + 2 * edge_count,
            4 * corners < u32::MAX,
            p.refined_vertex_count() <= u32::MAX,
            2 * p.slot_count() <= u32::MAX,
            fi <= face_count,
            child == row_start(faces, fi as int),
            child <= corners,
            counts@.len() == child,
            forall|q: int| 0 <= q < counts@.len() ==> counts@[q] == 4,
            indices@ == flat(quads).take(4 * child),
            face_parent@ == corner_faces(faces).take(child as int),
            accum.tracks(labels.take(4 * child), keys.take(4 * child), owners.take(4 * child)),
            slots_track(slots@, labels.take(4 * child)),
            keyed(pairs(accum.edge_vertices@), labels.take(4 * child), slot_key),
        decreases face_count - fi,
    {
        let val: usize = parent.faces.row_len(fi);
        let base: usize = child;
        let mut c: usize = 0;
        proof {
            lemma_flat_row(faces, fi as int);
        }
        while c < val
            invariant
                p == parent_of(*parent, parent_vertex_count as nat),
                p.ok(),
                parent.faces.wf(),
                parent.face_edges.wf(),
                faces == p.faces,
                quads == p.quads(),
                keys == corner_keys(quads),
                owners == corner_faces(quads),
                labels == p.slots(),
                slot_key == (|s: int| p.slot_key(s)),
                corners == flat(faces).len(),
                keys.len() == 4 * corners,
                owners.len() == 4 * corners,
                labels.len() == 4 * corners,
                flat(quads).len() == 4 * corners,
                face_count == faces.len(),
                edge_count == p.edges.len(),
                corner_count == corners,
                slots@.len() == corner_count + 2 * edge_count,
            4 * corners < u32::MAX,
            p.refined_vertex_count() <= u32::MAX,
            2 * p.slot_count() <= u32::MAX,
                fi < face_count,
                val == faces[fi as int].len(),
                base == row_start(faces, fi as int),
                base + val <= corners,
                c <= val,
                child == base + c,
                counts@.len() == child,
                forall|q: int| 0 <= q < counts@.len() ==> counts@[q] == 4,
                indices@ == flat(quads).take(4 * child),
                face_parent@ == corner_faces(faces).take(child as int),
                accum.tracks(labels.take(4 * child), keys.take(4 * child), owners.take(4 * child)),
                slots_track(slots@, labels.take(4 * child)),
                keyed(pairs(accum.edge_vertices@), labels.take(4 * child), slot_key),
            decreases val - c,
        {
            let prev_local: usize = if c == 0 {
                val - 1
            } else {
                c - 1
            };
            proof {
                lemma_quad_keys(p, fi as int, c as int);
                lemma_refined_corner(p, fi as int, c as int, 0);
                lemma_refined_corner(p, fi as int, c as int, 1);
                lemma_refined_corner(p, fi as int, c as int, 2);
                lemma_refined_corner(p, fi as int, c as int, 3);
                lemma_corner(faces, fi as int, c as int);
                lemma_quad_indices(p, fi as int, c as int);
            }
            let cur_v: u32 = parent.faces.get(fi, c);
            let cur_e: usize = parent.face_edges.get(fi, c) as usize;
            let prev_e: usize = parent.face_edges.get(fi, prev_local) as usize;
            let q0: u32 = fi as u32;
            let q1: u32 = (face_count + prev_e) as u32;
            let q2: u32 = (face_count + edge_count + cur_v as usize) as u32;
            let q3: u32 = (face_count + cur_e) as u32;
            let ghost quad = p.quad(fi as int, c as int);
            let ghost qs = p.quad_slots(fi as int, c as int);
            assert(quad == seq![q0, q1, q2, q3]);
            counts.push(4);
            indices.push(q0);
            indices.push(q1);
            indices.push(q2);
            indices.push(q3);
            face_parent.push(q0);
            let ghost at = 4 * child;
            let s0: usize = base + prev_local;
            let s1: usize = corner_count + 2 * prev_e + edge_side(parent, prev_e, cur_v);
            let s2: usize = corner_count + 2 * cur_e + edge_side(parent, cur_e, cur_v);
            let s3: usize = base + c;
            assert(qs[0] == s0 && qs[1] == s1 && qs[2] == s2 && qs[3] == s3);
            let face: u32 = child as u32;
            assert(slot_key(s0 as int) == face_keys(quad)[0]);
            assert(slot_key(s1 as int) == face_keys(quad)[1]);
            assert(slot_key(s2 as int) == face_keys(quad)[2]);
            assert(slot_key(s3 as int) == face_keys(quad)[3]);
            place_quad(
                &mut accum,
                &mut slots,
                [q0, q1, q2, q3],
                [s0, s1, s2, s3],
                face,
                Ghost(slot_key),
                Ghost(labels),
                Ghost(keys),
                Ghost(owners),
                Ghost(at),
            );
            child += 1;
            c += 1;
            assert(indices@ =~= flat(quads).take(4 * child));
            assert(face_parent@ =~= corner_faces(faces).take(child as int));
        }
        fi += 1;
    }
    proof {
        assert(faces.take(fi as int) =~= faces);
        assert(labels.take(4 * child) =~= labels);
        assert(keys.take(4 * child) =~= keys);
        assert(owners.take(4 * child) =~= owners);
        assert(flat(quads).take(4 * child) =~= flat(quads));
        lemma_corner_counts(faces);
        assert(corner_faces(faces).take(child as int) =~= corner_faces(faces));
        lemma_quad_counts(p);
        lemma_refined_corners(p);
        lemma_distinct_bound(labels, p.slot_count());
        reveal(EdgeAccum::tracks);
    }
    let faces_csr: CsrVec = uniform_rows(copied(&indices), child, 4, Ghost(quads));
    let face_edges: CsrVec = faces_csr.with_values(&accum.fe_values);
    let creases: Vec<S> = crate::scalar::zeros::<S>(accum.edge_vertices.len());
    let total: u32 = (face_count + edge_count + parent_vertex_count as usize) as u32;
    let topology: Topology<S> = assemble(accum, faces_csr, face_edges, total, creases, Ghost(labels));
    assert(topology.edge_creases@ =~= Seq::new(topology.edges().len(), |e: int| zero_of::<S>()));
    assert(counts@ =~= Seq::new(flat(p.faces).len(), |q: int| 4u32));
    RefinedUniform { face_vertex_counts: counts, face_vertex_indices: indices, face_parent, topology }
}

/// Where no face passes an edge twice, different slots are different edges.
pub(crate) proof fn lemma_slot_keys_differ(p: Parent, s: int, t: int)
    requires
        p.ok(),
        p.simple(),
        0 <= s < p.slot_count(),
        0 <= t < p.slot_count(),
        p.slot_key(s) == p.slot_key(t),
    ensures
        s == t,
{
    reveal(Parent::ok);
    let corners = flat(p.faces).len() as int;
    lemma_corner_counts(p.faces);
    lemma_same_starts(p.faces, p.face_edges, 0);
    lemma_spoke(p, s);
    lemma_spoke(p, t);
    if s < corners && t < corners {
        let (f, c) = lemma_flat_locate(p.faces, s);
        let (g, d) = lemma_flat_locate(p.faces, t);
        lemma_corner(p.faces, f, c);
        lemma_corner(p.faces, g, d);
        lemma_same_starts(p.faces, p.face_edges, f);
        lemma_same_starts(p.faces, p.face_edges, g);
        assert(p.face_edges[f].len() == p.faces[f].len());
        assert(p.face_edges[g].len() == p.faces[g].len());
        lemma_flat_at(p.face_edges, f, c);
        lemma_flat_at(p.face_edges, g, d);
        assert(f == g);
        assert(p.face_edges[f][c] == p.face_edges[f][d]);
        assert(p.face_edges[f].no_duplicates());
    } else if s >= corners && t >= corners {
        let e = (s - corners) / 2;
        let g = (t - corners) / 2;
        assert(p.edges[e].0 < p.edges[e].1 && p.edges[e].1 < p.vertex_count);
        assert(p.edges[g].0 < p.edges[g].1 && p.edges[g].1 < p.vertex_count);
        assert(e == g);
    }
}

/// The key of a spoke starts at a face point, that of half an edge does not.
proof fn lemma_spoke(p: Parent, s: int)
    requires
        p.ok(),
        0 <= s < p.slot_count(),
    ensures
        s < flat(p.faces).len() ==> p.slot_key(s).0 == corner_faces(p.faces)[s] && p.slot_key(s).0
            < p.faces.len() && p.slot_key(s).1 == p.faces.len() + flat(p.face_edges)[s] && p.slot_key(s).1
            >= p.faces.len(),
        s >= flat(p.faces).len() ==> p.slot_key(s).0 == p.faces.len() + (s - flat(p.faces).len()) / 2,
{
    reveal(Parent::ok);
    let corners = flat(p.faces).len() as int;
    if s < corners {
        let (f, c) = lemma_flat_locate(p.faces, s);
        lemma_corner(p.faces, f, c);
        lemma_same_starts(p.faces, p.face_edges, f);
        assert(p.face_edges[f].len() == p.faces[f].len());
        lemma_flat_at(p.face_edges, f, c);
        assert(all_below(p.face_edges[f], p.edges.len() as int));
        assert(p.face_edges[f][c] < p.edges.len());
    } else {
        let e = (s - corners) / 2;
        assert(p.edges[e].0 < p.edges[e].1 && p.edges[e].1 < p.vertex_count);
    }
}

/// The direct construction gives the tables of the refined faces, unless a face
/// of the parent passes an edge twice.
pub proof fn refined_uniform_matches_generic<S: Scalar>(p: Parent, t: Topology<S>)
    requires
        p.ok(),
        p.simple(),
        t.describes(p.quads(), p.slots(), p.refined_vertex_count()),
    ensures
        t.describes(p.quads(), key_labels(corner_keys(p.quads())), p.refined_vertex_count()),
{
    let keys = corner_keys(p.quads());
    let a = p.slots();
    let b = key_labels(keys);
    lemma_quad_counts(p);
    lemma_refined_corners(p);
    assert forall|x: int, y: int| 0 <= x < a.len() && 0 <= y < a.len() implies (a[x] == a[y] <==> #[trigger] b[x]
        == #[trigger] b[y]) by {
        assert(p.slot_key(a[x]) == keys[x]);
        assert(p.slot_key(a[y]) == keys[y]);
        if b[x] == b[y] {
            lemma_key_label_injective(keys[x], keys[y]);
            lemma_slot_keys_differ(p, a[x], a[y]);
        }
    }
    assert(same_partition(a, b));
    lemma_relabel(t.edges(), flat(t.face_edges@), t.edge_faces@, a, b, keys, corner_faces(p.quads()));
}

} // verus!
