//! Edges and incidences of a polygon mesh, in order of first appearance.

use crate::csr::CsrVec;
use crate::hashing::{edge_map_insert, edge_map_new, row_items, row_lists, EdgeKey, EdgeMap, Row};
use crate::rows::{flat, lemma_flat_empty_rows, lemma_flat_len_grow, lemma_flat_row, lemma_flat_take_next, row_start};
use vstd::prelude::*;

verus! {

// ---------------------------------------------------------------------------
// Edge keys
// ---------------------------------------------------------------------------
/// The undirected edge between two vertices, the smaller one first.
pub open spec fn edge_key_of(a: u32, b: u32) -> EdgeKey {
    if a <= b {
        (a, b)
    } else {
        (b, a)
    }
}

/// The undirected edge between two vertices, the smaller one first.
pub fn edge_key(a: u32, b: u32) -> (r: EdgeKey)
    ensures
        r == edge_key_of(a, b),
{
    if a <= b {
        (a, b)
    } else {
        (b, a)
    }
}

/// A number that stands for an edge key.
pub open spec fn key_label(k: EdgeKey) -> int {
    k.0 * 0x1_0000_0000 + k.1
}

pub open spec fn key_labels(keys: Seq<EdgeKey>) -> Seq<int> {
    keys.map_values(|k: EdgeKey| key_label(k))
}

pub proof fn lemma_key_label_injective(a: EdgeKey, b: EdgeKey)
    requires
        key_label(a) == key_label(b),
    ensures
        a == b,
{
}

/// The corner after `c` in a face of `n` corners.
pub open spec fn next_corner(c: int, n: int) -> int {
    if c + 1 == n {
        0
    } else {
        c + 1
    }
}

/// The corner before `c` in a face of `n` corners.
pub open spec fn prev_corner(c: int, n: int) -> int {
    if c == 0 {
        n - 1
    } else {
        c - 1
    }
}

/// The edge that leaves each corner of a face.
pub open spec fn face_keys(face: Seq<u32>) -> Seq<EdgeKey> {
    Seq::new(
        face.len(),
        |c: int| edge_key_of(face[c], face[next_corner(c, face.len() as int)]),
    )
}

pub open spec fn key_rows(faces: Seq<Seq<u32>>) -> Seq<Seq<EdgeKey>> {
    faces.map_values(|f: Seq<u32>| face_keys(f))
}

/// For each row, its own index once per entry.
pub open spec fn owner_rows<A>(faces: Seq<Seq<A>>) -> Seq<Seq<u32>> {
    Seq::new(faces.len(), |f: int| Seq::new(faces[f].len(), |c: int| f as u32))
}

/// The edges that leave the corners of all faces, face by face.
pub open spec fn corner_keys(faces: Seq<Seq<u32>>) -> Seq<EdgeKey> {
    flat(key_rows(faces))
}

/// The rows of the entries of all rows, row by row.
pub open spec fn corner_faces<A>(faces: Seq<Seq<A>>) -> Seq<u32> {
    flat(owner_rows(faces))
}

/// Rows of equal lengths start at equal places.
pub proof fn lemma_same_starts<A, B>(a: Seq<Seq<A>>, b: Seq<Seq<B>>, i: int)
    requires
        a.len() == b.len(),
        0 <= i <= a.len(),
        forall|j: int| 0 <= j < a.len() ==> (#[trigger] a[j]).len() == b[j].len(),
    ensures
        row_start(a, i) == row_start(b, i),
        flat(a).len() == flat(b).len(),
    decreases a.len() + i,
{
    if i > 0 {
        lemma_same_starts(a, b, i - 1);
        lemma_flat_take_next(a, i - 1);
        lemma_flat_take_next(b, i - 1);
        assert(a[i - 1].len() == b[i - 1].len());
    } else {
        assert(a.take(0) =~= Seq::<Seq<A>>::empty());
        assert(b.take(0) =~= Seq::<Seq<B>>::empty());
        if a.len() > 0 {
            assert forall|j: int| 0 <= j < a.drop_last().len() implies (#[trigger] a.drop_last()[j]).len()
                == b.drop_last()[j].len() by {
                assert(a[j].len() == b[j].len());
            }
            lemma_same_starts(a.drop_last(), b.drop_last(), 0);
            assert(a[a.len() - 1].len() == b[a.len() - 1].len());
        }
    }
}

/// An entry of a row, found in the flat buffer.
pub proof fn lemma_flat_at<A>(rows: Seq<Seq<A>>, i: int, k: int)
    requires
        0 <= i < rows.len(),
        0 <= k < rows[i].len(),
    ensures
        0 <= row_start(rows, i) + k < flat(rows).len(),
        flat(rows)[row_start(rows, i) + k] == rows[i][k],
        row_start(rows, i) + k < row_start(rows, i + 1),
        row_start(rows, i + 1) == row_start(rows, i) + rows[i].len(),
{
    lemma_flat_row(rows, i);
    assert(flat(rows).subrange(row_start(rows, i), row_start(rows, i + 1))[k] == flat(rows)[row_start(
        rows,
        i,
    ) + k]);
}

/// Rows without empty ones are no more than their entries.
pub proof fn lemma_rows_within_flat<A>(rows: Seq<Seq<A>>)
    requires
        forall|i: int| 0 <= i < rows.len() ==> (#[trigger] rows[i]).len() > 0,
    ensures
        rows.len() <= flat(rows).len(),
    decreases rows.len(),
{
    if rows.len() > 0 {
        assert forall|i: int| 0 <= i < rows.drop_last().len() implies (#[trigger] rows.drop_last()[i]).len()
            > 0 by {
            assert(rows[i].len() > 0);
        }
        lemma_rows_within_flat(rows.drop_last());
        assert(rows[rows.len() - 1].len() > 0);
    }
}

/// The keys and faces of the corners, found at the corner's place.
pub proof fn lemma_corner(faces: Seq<Seq<u32>>, f: int, c: int)
    requires
        0 <= f < faces.len(),
        0 <= c < faces[f].len(),
    ensures
        0 <= row_start(faces, f) + c < flat(faces).len(),
        corner_keys(faces).len() == flat(faces).len(),
        corner_faces(faces).len() == flat(faces).len(),
        corner_keys(faces)[row_start(faces, f) + c] == face_keys(faces[f])[c],
        corner_faces(faces)[row_start(faces, f) + c] == f as u32,
        flat(faces)[row_start(faces, f) + c] == faces[f][c],
        row_start(faces, f + 1) == row_start(faces, f) + faces[f].len(),
{
    lemma_flat_at(faces, f, c);
    lemma_flat_at(key_rows(faces), f, c);
    lemma_flat_at(owner_rows(faces), f, c);
    lemma_same_starts(faces, key_rows(faces), f);
    lemma_same_starts(faces, owner_rows(faces), f);
}

pub proof fn lemma_corner_counts(faces: Seq<Seq<u32>>)
    ensures
        corner_keys(faces).len() == flat(faces).len(),
        corner_faces(faces).len() == flat(faces).len(),
{
    lemma_same_starts(faces, key_rows(faces), 0);
    lemma_same_starts(faces, owner_rows(faces), 0);
}

// ---------------------------------------------------------------------------
// First appearances
// ---------------------------------------------------------------------------
/// The different items of a list, in order of first appearance.
pub open spec fn distinct<A>(s: Seq<A>) -> Seq<A>
    decreases s.len(),
{
    if s.len() == 0 {
        Seq::empty()
    } else {
        let front = distinct(s.drop_last());
        if front.contains(s.last()) {
            front
        } else {
            front.push(s.last())
        }
    }
}

/// The different `items` that stand at the places where `labels` is `label`.
pub open spec fn incident(labels: Seq<int>, items: Seq<u32>, label: int) -> Seq<u32>
    decreases labels.len(),
{
    if labels.len() == 0 {
        Seq::empty()
    } else {
        let front = incident(labels.drop_last(), items.drop_last(), label);
        if labels.last() == label && !front.contains(items.last()) {
            front.push(items.last())
        } else {
            front
        }
    }
}

/// The `items` at the places where `marks` is `mark`.
pub open spec fn listed(marks: Seq<u32>, items: Seq<u32>, mark: u32) -> Seq<u32>
    decreases marks.len(),
{
    if marks.len() == 0 {
        Seq::empty()
    } else {
        let front = listed(marks.drop_last(), items.drop_last(), mark);
        if marks.last() == mark {
            front.push(items.last())
        } else {
            front
        }
    }
}

pub proof fn lemma_distinct<A>(s: Seq<A>)
    ensures
        distinct(s).no_duplicates(),
        distinct(s).len() <= s.len(),
        forall|x: A| #[trigger] distinct(s).contains(x) <==> s.contains(x),
    decreases s.len(),
{
    if s.len() > 0 {
        let front = s.drop_last();
        let d = distinct(front);
        lemma_distinct(front);
        assert forall|x: A| #[trigger] distinct(s).contains(x) <==> s.contains(x) by {
            assert(s.contains(x) <==> front.contains(x) || x == s.last()) by {
                if front.contains(x) {
                    let k = front.index_of(x);
                    assert(s[k] == x);
                }
                if s.contains(x) && x != s.last() {
                    let k = s.index_of(x);
                    assert(front[k] == x);
                }
                assert(s[s.len() - 1] == s.last());
            }
            assert(d.contains(x) <==> front.contains(x));
            if !d.contains(s.last()) {
                let e = d.push(s.last());
                if d.contains(x) {
                    let k = d.index_of(x);
                    assert(e[k] == x);
                }
                assert(e[d.len() as int] == s.last());
            }
        }
    } else {
        assert(distinct(s) =~= Seq::<A>::empty());
    }
}

/// What an incidence list holds.
pub proof fn lemma_incident(labels: Seq<int>, items: Seq<u32>, label: int)
    requires
        labels.len() == items.len(),
    ensures
        forall|x: u32| #[trigger]
            incident(labels, items, label).contains(x) <==> exists|i: int|
                0 <= i < labels.len() && #[trigger] labels[i] == label && items[i] == x,
        incident(labels, items, label).no_duplicates(),
    decreases labels.len(),
{
    if labels.len() > 0 {
        let fl = labels.drop_last();
        let fi = items.drop_last();
        let front = incident(fl, fi, label);
        let whole = incident(labels, items, label);
        lemma_incident(fl, fi, label);
        assert forall|x: u32| #[trigger] whole.contains(x) <==> exists|i: int|
            0 <= i < labels.len() && #[trigger] labels[i] == label && items[i] == x by {
            if whole.contains(x) {
                if front.contains(x) {
                    let i = choose|i: int| 0 <= i < fl.len() && #[trigger] fl[i] == label && fi[i] == x;
                    assert(labels[i] == label && items[i] == x);
                } else {
                    let k = whole.index_of(x);
                    assert(labels[labels.len() - 1] == label && items[labels.len() - 1] == x);
                }
            }
            if exists|i: int| 0 <= i < labels.len() && #[trigger] labels[i] == label && items[i] == x {
                let i = choose|i: int| 0 <= i < labels.len() && #[trigger] labels[i] == label && items[i] == x;
                if i < fl.len() {
                    assert(fl[i] == label && fi[i] == x);
                    assert(front.contains(x));
                    let k = front.index_of(x);
                    assert(whole[k] == x);
                } else if !front.contains(x) {
                    assert(whole[front.len() as int] == x);
                } else {
                    let k = front.index_of(x);
                    assert(whole[k] == x);
                }
            }
        }
    } else {
        assert(incident(labels, items, label) =~= Seq::<u32>::empty());
    }
}

/// Where a list was picked from.
pub proof fn lemma_listed(marks: Seq<u32>, items: Seq<u32>, mark: u32)
    requires
        marks.len() == items.len(),
    ensures
        listed(marks, items, mark).len() <= marks.len(),
        forall|k: int|
            0 <= k < listed(marks, items, mark).len() ==> exists|i: int|
                0 <= i < marks.len() && #[trigger] marks[i] == mark && items[i] == #[trigger] listed(
                    marks,
                    items,
                    mark,
                )[k],
    decreases marks.len(),
{
    if marks.len() > 0 {
        let fm = marks.drop_last();
        let fi = items.drop_last();
        let front = listed(fm, fi, mark);
        let whole = listed(marks, items, mark);
        lemma_listed(fm, fi, mark);
        assert forall|k: int| 0 <= k < whole.len() implies exists|i: int|
            0 <= i < marks.len() && #[trigger] marks[i] == mark && items[i] == #[trigger] whole[k] by {
            if k < front.len() {
                assert(whole[k] == front[k]);
                let i = choose|i: int| 0 <= i < fm.len() && #[trigger] fm[i] == mark && fi[i] == front[k];
                assert(marks[i] == mark && items[i] == whole[k]);
            } else {
                assert(marks[marks.len() - 1] == mark && items[marks.len() - 1] == whole[k]);
            }
        }
    }
}

/// Each marked item is in the list of its mark.
pub proof fn lemma_listed_complete(marks: Seq<u32>, items: Seq<u32>, i: int)
    requires
        marks.len() == items.len(),
        0 <= i < marks.len(),
    ensures
        listed(marks, items, marks[i]).contains(items[i]),
    decreases marks.len(),
{
    let front = listed(marks.drop_last(), items.drop_last(), marks[i]);
    let whole = listed(marks, items, marks[i]);
    if i == marks.len() - 1 {
        assert(whole[front.len() as int] == items[i]);
    } else {
        lemma_listed_complete(marks.drop_last(), items.drop_last(), i);
        let k = front.index_of(items[i]);
        assert(whole[k] == items[i]);
    }
}

// ---------------------------------------------------------------------------
// Edge tables
// ---------------------------------------------------------------------------
/// The end points of a list of edges.
pub open spec fn pairs(edges: Seq<[u32; 2]>) -> Seq<EdgeKey> {
    edges.map_values(|e: [u32; 2]| (e@[0], e@[1]))
}

/// The tables of edges of a stream of corners. Corner `c` lies on the edge
/// `labels[c]` between the vertices `keys[c]`, in face `owners[c]`. Edges are
/// numbered in order of first appearance; `ids` gives each corner its edge,
/// and each edge lists its faces.
pub open spec fn edge_tables(
    edges: Seq<EdgeKey>,
    ids: Seq<u32>,
    edge_faces: Seq<Seq<u32>>,
    labels: Seq<int>,
    keys: Seq<EdgeKey>,
    owners: Seq<u32>,
) -> bool {
    &&& keys.len() == labels.len()
    &&& owners.len() == labels.len()
    &&& ids.len() == labels.len()
    &&& edges.len() == distinct(labels).len()
    &&& edge_faces.len() == distinct(labels).len()
    &&& forall|c: int|
        #![trigger ids[c]]
        0 <= c < ids.len() ==> ids[c] < edges.len() && distinct(labels)[ids[c] as int] == labels[c]
            && edges[ids[c] as int] == keys[c]
    &&& forall|e: int|
        0 <= e < edge_faces.len() ==> #[trigger] edge_faces[e] == incident(
            labels,
            owners,
            distinct(labels)[e],
        )
}

/// A table from each edge to its number; of edges with the same end points, to
/// the last one.
pub open spec fn key_table(edges: Seq<EdgeKey>, table: Map<EdgeKey, usize>) -> bool {
    &&& forall|e: int| 0 <= e < edges.len() ==> table.contains_key(#[trigger] edges[e]) && e <= table[edges[e]]
    &&& forall|k: EdgeKey| #[trigger]
        table.contains_key(k) ==> table[k] < edges.len() && edges[table[k] as int] == k
}

/// Tables of edges under construction.
pub struct EdgeAccum {
    pub edge_vertices: Vec<[u32; 2]>,
    pub edge_faces: Vec<Row>,
    pub edge_key_to_index: EdgeMap<usize>,
    pub fe_values: Vec<u32>,
}

pub(crate) fn has_item(items: &[u32], x: u32) -> (r: bool)
    ensures
        r == items@.contains(x),
{
    let mut i: usize = 0;
    while i < items.len()
        invariant
            i <= items.len(),
            forall|j: int| 0 <= j < i ==> items@[j] != x,
        decreases items.len() - i,
    {
        if items[i] == x {
            return true;
        }
        i += 1;
    }
    false
}

impl EdgeAccum {
    #[verifier::opaque]
    pub open spec fn tracks(self, labels: Seq<int>, keys: Seq<EdgeKey>, owners: Seq<u32>) -> bool {
        &&& edge_tables(
            pairs(self.edge_vertices@),
            self.fe_values@,
            row_lists(self.edge_faces@),
            labels,
            keys,
            owners,
        )
        &&& key_table(pairs(self.edge_vertices@), self.edge_key_to_index@)
    }

    pub(crate) fn new() -> (r: EdgeAccum)
        ensures
            r.tracks(Seq::empty(), Seq::empty(), Seq::empty()),
    {
        let accum = EdgeAccum {
            edge_vertices: Vec::new(),
            edge_faces: Vec::new(),
            edge_key_to_index: edge_map_new(),
            fe_values: Vec::new(),
        };
        proof {
            reveal(EdgeAccum::tracks);
        }
        accum
    }

    /// Adds a corner of `face` on the edge `key`: on edge number `found`, or on
    /// a new edge.
    pub(crate) fn edge(
        &mut self,
        found: Option<u32>,
        key: EdgeKey,
        face: u32,
        Ghost(label): Ghost<int>,
        Ghost(labels): Ghost<Seq<int>>,
        Ghost(keys): Ghost<Seq<EdgeKey>>,
        Ghost(owners): Ghost<Seq<u32>>,
    ) -> (r: u32)
        requires
            old(self).tracks(labels, keys, owners),
            labels.len() < u32::MAX,
            match found {
                Some(i) => i < distinct(labels).len() && distinct(labels)[i as int] == label && pairs(
                    old(self).edge_vertices@,
                )[i as int] == key,
                None => !distinct(labels).contains(label),
            },
        ensures
            final(self).tracks(labels.push(label), keys.push(key), owners.push(face)),
            r < distinct(labels.push(label)).len(),
            distinct(labels.push(label))[r as int] == label,
            match found {
                Some(i) => r == i && pairs(final(self).edge_vertices@) == pairs(old(self).edge_vertices@)
                    && distinct(labels.push(label)) == distinct(labels),
                None => r == distinct(labels).len() && pairs(final(self).edge_vertices@) == pairs(
                    old(self).edge_vertices@,
                ).push(key) && distinct(labels.push(label)) == distinct(labels).push(label),
            },
    {
        reveal(EdgeAccum::tracks);
        let ghost d = distinct(labels);
        let ghost old_edges = pairs(self.edge_vertices@);
        let ghost old_rows = row_lists(self.edge_faces@);
        let ghost old_ids = self.fe_values@;
        proof {
            lemma_distinct(labels);
            assert(labels.push(label).drop_last() =~= labels);
            assert(owners.push(face).drop_last() =~= owners);
            assert(d.len() <= labels.len());
            assert forall|x: int| #[trigger] incident(labels.push(label), owners.push(face), x) == (if label == x
                && !incident(labels, owners, x).contains(face) {
                incident(labels, owners, x).push(face)
            } else {
                incident(labels, owners, x)
            }) by {}
        }
        let index: u32 = match found {
            Some(i) => {
                assert(old_rows[i as int] == incident(labels, owners, label));
                if !has_item(self.edge_faces[i as usize].as_slice(), face) {
                    self.edge_faces[i as usize].push(face);
                }
                assert(d[i as int] == label);
                assert(d.contains(label));
                i
            },
            None => {
                let created: usize = self.edge_vertices.len();
                let mut row = Row::new();
                row.push(face);
                self.edge_vertices.push([key.0, key.1]);
                self.edge_faces.push(row);
                edge_map_insert(&mut self.edge_key_to_index, key, created);
                proof {
                    lemma_incident(labels, owners, label);
                    assert(!labels.contains(label));
                    assert(incident(labels, owners, label) =~= Seq::<u32>::empty()) by {
                        if incident(labels, owners, label).len() > 0 {
                            let x = incident(labels, owners, label)[0];
                            assert(incident(labels, owners, label).contains(x));
                        }
                    }
                    assert(pairs(self.edge_vertices@) =~= old_edges.push(key));
                    assert(row_lists(self.edge_faces@) =~= old_rows.push(seq![face]));
                    assert(incident(labels, owners, label).push(face) =~= seq![face]);
                    let edges = pairs(self.edge_vertices@);
                    let table = self.edge_key_to_index@;
                    assert forall|e: int| 0 <= e < edges.len() implies table.contains_key(#[trigger] edges[e])
                        && e <= table[edges[e]] by {
                        if e < old_edges.len() {
                            assert(edges[e] == old_edges[e]);
                        }
                    }
                    assert forall|k: EdgeKey| #[trigger] table.contains_key(k) implies table[k] < edges.len()
                        && edges[table[k] as int] == k by {
                        if k != key {
                            assert(edges[table[k] as int] == old_edges[table[k] as int]);
                        }
                    }
                }
                created as u32
            },
        };
        self.fe_values.push(index);
        proof {
            let nl = labels.push(label);
            let no = owners.push(face);
            let d2 = distinct(nl);
            let edges = pairs(self.edge_vertices@);
            let rows = row_lists(self.edge_faces@);
            let ids = self.fe_values@;
            assert(d2[index as int] == label);
            assert(edges[index as int] == key);
            if found is Some {
                assert(edges =~= old_edges);
            }
            assert forall|c: int| #![trigger ids[c]] 0 <= c < ids.len() implies ids[c] < edges.len()
                && d2[ids[c] as int] == nl[c] && edges[ids[c] as int] == keys.push(key)[c] by {
                if c < old_ids.len() {
                    assert(ids[c] == old_ids[c]);
                    assert(old_edges[old_ids[c] as int] == keys[c]);
                    assert(edges[ids[c] as int] == old_edges[ids[c] as int]);
                }
            }
            assert forall|e: int| 0 <= e < rows.len() implies #[trigger] rows[e] == incident(nl, no, d2[e]) by {
                if e < d.len() {
                    assert(old_rows[e] == incident(labels, owners, d[e]));
                    assert(d2[e] == d[e]);
                    if e != index {
                        assert(d[e] != label);
                        assert(rows[e] == old_rows[e]);
                    }
                }
            }
        }
        index
    }
}

// ---------------------------------------------------------------------------
// Buckets
// ---------------------------------------------------------------------------
/// For each mark below `n`, the items that carry it.
pub open spec fn buckets(marks: Seq<u32>, items: Seq<u32>, n: nat) -> Seq<Seq<u32>> {
    Seq::new(n, |v: int| listed(marks, items, v as u32))
}

/// Sorts items into buckets by their marks, keeping their order.
pub(crate) fn bucket(marks: &[u32], items: &[u32], n: usize) -> (r: CsrVec)
    requires
        marks@.len() == items@.len(),
        marks@.len() <= u32::MAX,
        n <= u32::MAX,
        forall|i: int| 0 <= i < marks@.len() ==> (#[trigger] marks@[i]) < n,
    ensures
        r.packed(),
        r@ == buckets(marks@, items@, n as nat),
{
    let mut rows: Vec<Row> = Vec::new();
    let mut v: usize = 0;
    while v < n
        invariant
            v <= n,
            rows@.len() == v,
            forall|j: int| 0 <= j < v ==> row_items(#[trigger] rows@[j]) == Seq::<u32>::empty(),
        decreases n - v,
    {
        rows.push(Row::new());
        v += 1;
    }
    assert(row_lists(rows@) =~= buckets(marks@.take(0), items@.take(0), n as nat));
    proof {
        lemma_flat_empty_rows(row_lists(rows@));
    }
    let mut i: usize = 0;
    while i < marks.len()
        invariant
            i <= marks.len(),
            marks@.len() == items@.len(),
            n <= u32::MAX,
            forall|i: int| 0 <= i < marks@.len() ==> (#[trigger] marks@[i]) < n,
            row_lists(rows@) == buckets(marks@.take(i as int), items@.take(i as int), n as nat),
            flat(row_lists(rows@)).len() == i,
        decreases marks.len() - i,
    {
        let ghost before = row_lists(rows@);
        assert(marks@[i as int] < n);
        assert(rows@.len() == before.len());
        let m: usize = marks[i] as usize;
        rows[m].push(items[i]);
        proof {
            let after = row_lists(rows@);
            assert(after =~= before.update(m as int, before[m as int].push(items@[i as int])));
            lemma_flat_len_grow(before, m as int, items@[i as int]);
            assert(marks@.take(i + 1).drop_last() =~= marks@.take(i as int));
            assert(items@.take(i + 1).drop_last() =~= items@.take(i as int));
            assert(after =~= buckets(marks@.take(i + 1), items@.take(i + 1), n as nat));
        }
        i += 1;
    }
    assert(marks@.take(i as int) =~= marks@);
    assert(items@.take(i as int) =~= items@);
    CsrVec::from_rows(&rows)
}

/// The end points of all edges, two per edge.
pub open spec fn end_points(edges: Seq<EdgeKey>) -> Seq<u32> {
    Seq::new(2 * edges.len(), |i: int| if i % 2 == 0 { edges[i / 2].0 } else { edges[i / 2].1 })
}

/// The edge numbers, two for each edge.
pub open spec fn end_edges(n: nat) -> Seq<u32> {
    Seq::new(2 * n, |i: int| (i / 2) as u32)
}

/// For each vertex its edges, in ascending order.
pub open spec fn vertex_edge_lists(edges: Seq<EdgeKey>, n: nat) -> Seq<Seq<u32>> {
    buckets(end_points(edges), end_edges(edges.len()), n)
}

/// For each vertex the faces of its corners, in ascending order.
pub open spec fn vertex_face_lists(faces: Seq<Seq<u32>>, n: nat) -> Seq<Seq<u32>> {
    buckets(flat(faces), corner_faces(faces), n)
}

/// The edges of each vertex.
pub(crate) fn vertex_edges_of(edges: &[[u32; 2]], n: usize) -> (r: CsrVec)
    requires
        2 * edges@.len() <= u32::MAX,
        n <= u32::MAX,
        forall|e: int| 0 <= e < edges@.len() ==> (#[trigger] pairs(edges@)[e]).0 < n && pairs(edges@)[e].1 < n,
    ensures
        r.packed(),
        r@ == vertex_edge_lists(pairs(edges@), n as nat),
{
    let mut marks: Vec<u32> = Vec::new();
    let mut items: Vec<u32> = Vec::new();
    let ghost ends = end_points(pairs(edges@));
    let ghost owners = end_edges(edges@.len());
    let mut e: usize = 0;
    while e < edges.len()
        invariant
            e <= edges.len(),
            2 * edges@.len() <= u32::MAX,
            ends == end_points(pairs(edges@)),
            owners == end_edges(edges@.len()),
            marks@ == ends.take(2 * e),
            items@ == owners.take(2 * e),
        decreases edges.len() - e,
    {
        assert(pairs(edges@)[e as int] == (edges@[e as int]@[0], edges@[e as int]@[1]));
        marks.push(edges[e][0]);
        marks.push(edges[e][1]);
        items.push(e as u32);
        items.push(e as u32);
        assert((2 * e + 1) / 2 == e && (2 * e + 1) % 2 == 1);
        assert((2 * e) / 2 == e as int && (2 * e) % 2 == 0);
        e += 1;
        assert(marks@ =~= ends.take(2 * e));
        assert(items@ =~= owners.take(2 * e));
    }
    assert(marks@ =~= ends);
    assert(items@ =~= owners);
    assert forall|i: int| 0 <= i < marks@.len() implies (#[trigger] marks@[i]) < n by {
        let p = pairs(edges@)[i / 2];
        assert(p.0 < n && p.1 < n);
    }
    bucket(&marks, &items, n)
}

/// The faces of each corner, face by face.
pub(crate) fn owners_of(faces: &CsrVec) -> (r: Vec<u32>)
    requires
        faces.packed(),
        faces@.len() <= u32::MAX,
    ensures
        r@ == corner_faces(faces@),
{
    let mut owners: Vec<u32> = Vec::new();
    let ghost rows = owner_rows(faces@);
    let mut f: usize = 0;
    assert(rows.take(0) =~= Seq::<Seq<u32>>::empty());
    while f < faces.len()
        invariant
            f <= faces@.len(),
            faces@.len() <= u32::MAX,
            faces.packed(),
            rows == owner_rows(faces@),
            owners@ == flat(rows.take(f as int)),
        decreases faces@.len() - f,
    {
        let n: usize = faces.row_len(f);
        let ghost before = owners@;
        let mut c: usize = 0;
        while c < n
            invariant
                c <= n,
                f < faces@.len() <= u32::MAX,
                rows == owner_rows(faces@),
                n == faces@[f as int].len(),
                owners@ == before + rows[f as int].take(c as int),
            decreases n - c,
        {
            owners.push(f as u32);
            c += 1;
            assert(owners@ =~= before + rows[f as int].take(c as int));
        }
        assert(rows[f as int].take(c as int) =~= rows[f as int]);
        proof {
            lemma_flat_take_next(rows, f as int);
        }
        f += 1;
    }
    assert(rows.take(f as int) =~= rows);
    owners
}

/// The faces of each vertex, once per corner.
pub(crate) fn vertex_faces_of(faces: &CsrVec, n: usize) -> (r: CsrVec)
    requires
        faces.packed(),
        faces@.len() <= u32::MAX,
        n <= u32::MAX,
        flat(faces@).len() <= u32::MAX,
        forall|i: int| 0 <= i < flat(faces@).len() ==> (#[trigger] flat(faces@)[i]) < n,
    ensures
        r.packed(),
        r@ == vertex_face_lists(faces@, n as nat),
{
    let owners: Vec<u32> = owners_of(faces);
    proof {
        lemma_corner_counts(faces@);
    }
    bucket(faces.flat_values(), &owners, n)
}

} // verus!
