//! Numbering edges by slots that are known in advance, without a hash table.

use crate::connectivity::{distinct, edge_key, edge_key_of, edge_tables, incident, lemma_distinct, EdgeAccum};
use crate::connectivity::pairs;
use crate::csr::{lemma_packed, CsrVec};
use crate::hashing::EdgeKey;
use crate::rows::{flat, lemma_flat_take_next, row_start};
use crate::scalar::Scalar;
use vstd::prelude::*;

verus! {

/// Each slot holds the number of the edge with its label, or nothing if no
/// corner was on that edge yet.
#[verifier::opaque]
pub open spec fn slots_track(slots: Seq<Option<u32>>, labels: Seq<int>) -> bool {
    forall|s: int|
        0 <= s < slots.len() ==> match #[trigger] slots[s] {
            Some(i) => i < distinct(labels).len() && distinct(labels)[i as int] == s,
            None => !distinct(labels).contains(s),
        }
}

/// The end points of each edge follow from its label.
#[verifier::opaque]
pub open spec fn keyed(edges: Seq<EdgeKey>, labels: Seq<int>, slot_key: spec_fn(int) -> EdgeKey) -> bool {
    &&& edges.len() == distinct(labels).len()
    &&& forall|i: int| 0 <= i < edges.len() ==> #[trigger] edges[i] == slot_key(distinct(labels)[i])
}

pub(crate) fn empty_slots(count: usize) -> (r: Vec<Option<u32>>)
    ensures
        r@.len() == count,
        slots_track(r@, Seq::empty()),
{
    let mut slots: Vec<Option<u32>> = Vec::new();
    let mut i: usize = 0;
    while i < count
        invariant
            i <= count,
            slots@.len() == i,
            forall|s: int| 0 <= s < i ==> (#[trigger] slots@[s]) is None,
        decreases count - i,
    {
        slots.push(None);
        i += 1;
    }
    proof {
        reveal(slots_track);
    }
    slots
}

pub proof fn lemma_keyed_empty(edges: Seq<EdgeKey>, slot_key: spec_fn(int) -> EdgeKey)
    requires
        edges.len() == 0,
    ensures
        keyed(edges, Seq::empty(), slot_key),
{
    reveal(keyed);
}

/// Adds a corner of `face` on the edge of a slot, from `a` to `b`.
pub(crate) fn place(
    accum: &mut EdgeAccum,
    slots: &mut Vec<Option<u32>>,
    slot: usize,
    a: u32,
    b: u32,
    face: u32,
    Ghost(slot_key): Ghost<spec_fn(int) -> EdgeKey>,
    Ghost(labels): Ghost<Seq<int>>,
    Ghost(keys): Ghost<Seq<EdgeKey>>,
    Ghost(owners): Ghost<Seq<u32>>,
)
    requires
        slot < old(slots)@.len(),
        old(accum).tracks(labels, keys, owners),
        labels.len() < u32::MAX,
        slots_track(old(slots)@, labels),
        keyed(pairs(old(accum).edge_vertices@), labels, slot_key),
        slot_key(slot as int) == edge_key_of(a, b),
    ensures
        final(accum).tracks(
            labels.push(slot as int),
            keys.push(edge_key_of(a, b)),
            owners.push(face),
        ),
        final(slots)@.len() == old(slots)@.len(),
        slots_track(final(slots)@, labels.push(slot as int)),
        keyed(pairs(final(accum).edge_vertices@), labels.push(slot as int), slot_key),
{
    reveal(slots_track);
    reveal(keyed);
    reveal(EdgeAccum::tracks);
    let key: EdgeKey = edge_key(a, b);
    let found: Option<u32> = slots[slot];
    let ghost before = slots@;
    proof {
        lemma_distinct(labels);
        assert(match before[slot as int] {
            Some(i) => i < distinct(labels).len() && distinct(labels)[i as int] == slot,
            None => !distinct(labels).contains(slot as int),
        });
        if let Some(i) = found {
            assert(pairs(accum.edge_vertices@)[i as int] == slot_key(distinct(labels)[i as int]));
        }
    }
    let r: u32 = accum.edge(
        found,
        key,
        face,
        Ghost(slot as int),
        Ghost(labels),
        Ghost(keys),
        Ghost(owners),
    );
    slots[slot] = Some(r);
    proof {
        let d = distinct(labels);
        let d2 = distinct(labels.push(slot as int));
        lemma_distinct(labels.push(slot as int));
        assert forall|s: int| 0 <= s < slots@.len() implies match #[trigger] slots@[s] {
            Some(i) => i < d2.len() && d2[i as int] == s,
            None => !d2.contains(s),
        } by {
            if s != slot {
                assert(slots@[s] == before[s]);
                if d2.contains(s) {
                    let k = d2.index_of(s);
                    assert(k < d.len());
                    assert(d[k] == s);
                }
            }
        }
    }
}

/// Rows of one length start at multiples of it.
pub proof fn lemma_uniform_start<A>(rows: Seq<Seq<A>>, width: int, i: int)
    requires
        0 <= i <= rows.len(),
        forall|j: int| 0 <= j < rows.len() ==> (#[trigger] rows[j]).len() == width,
    ensures
        row_start(rows, i) == width * i,
    decreases i,
{
    if i > 0 {
        lemma_uniform_start(rows, width, i - 1);
        lemma_flat_take_next(rows, i - 1);
        assert(rows[i - 1].len() == width);
        assert(width * (i - 1) + width == width * i) by (nonlinear_arith);
    } else {
        assert(rows.take(0) =~= Seq::<Seq<A>>::empty());
    }
}

/// A flat buffer of rows of one length, cut into its rows.
pub(crate) fn uniform_rows(values: Vec<u32>, count: usize, width: usize, Ghost(rows): Ghost<Seq<Seq<u32>>>) -> (r:
    CsrVec)
    requires
        rows.len() == count,
        forall|j: int| 0 <= j < rows.len() ==> (#[trigger] rows[j]).len() == width,
        values@ == flat(rows),
        values@.len() <= u32::MAX,
    ensures
        r.packed(),
        r@ == rows,
        r.offset_list().len() == count + 1,
{
    let mut offsets: Vec<u32> = Vec::new();
    offsets.push(0);
    let mut i: usize = 0;
    let mut at: usize = 0;
    assert(rows.take(0) =~= Seq::<Seq<u32>>::empty());
    while i < count
        invariant
            i <= count,
            rows.len() == count,
            forall|j: int| 0 <= j < rows.len() ==> (#[trigger] rows[j]).len() == width,
            flat(rows).len() <= u32::MAX,
            at == row_start(rows, i as int),
            offsets@.len() == i + 1,
            forall|j: int| 0 <= j <= i ==> offsets@[j] == #[trigger] row_start(rows, j),
        decreases count - i,
    {
        proof {
            crate::rows::lemma_flat_row(rows, i as int);
            assert(rows[i as int].len() == width);
        }
        at += width;
        offsets.push(at as u32);
        i += 1;
    }
    proof {
        lemma_packed(offsets@, values@, rows);
    }
    CsrVec::from_parts(offsets, values)
}

// ---------------------------------------------------------------------------
// Relabelling
// ---------------------------------------------------------------------------
/// Two labellings put the same corners on one edge.
pub open spec fn same_partition(a: Seq<int>, b: Seq<int>) -> bool {
    &&& a.len() == b.len()
    &&& forall|p: int, q: int| 0 <= p < a.len() && 0 <= q < a.len() ==> (a[p] == a[q] <==> #[trigger] b[p] == #[trigger] b[q])
}

proof fn lemma_same_partition_front(a: Seq<int>, b: Seq<int>)
    requires
        same_partition(a, b),
        a.len() > 0,
    ensures
        same_partition(a.drop_last(), b.drop_last()),
{
    let fa = a.drop_last();
    let fb = b.drop_last();
    assert forall|p: int, q: int| 0 <= p < fa.len() && 0 <= q < fa.len() implies (fa[p] == fa[q]
        <==> #[trigger] fb[p] == #[trigger] fb[q]) by {
        assert(a[p] == a[q] <==> b[p] == b[q]);
    }
}

/// Equal partitions number their edges alike.
pub(crate) proof fn lemma_partition_numbers(a: Seq<int>, b: Seq<int>)
    requires
        same_partition(a, b),
    ensures
        distinct(a).len() == distinct(b).len(),
        forall|i: int, p: int|
            0 <= i < distinct(a).len() && 0 <= p < a.len() ==> (#[trigger] distinct(a)[i] == #[trigger] a[p]
                <==> distinct(b)[i] == b[p]),
    decreases a.len(),
{
    if a.len() > 0 {
        let fa = a.drop_last();
        let fb = b.drop_last();
        lemma_same_partition_front(a, b);
        lemma_partition_numbers(fa, fb);
        lemma_distinct(fa);
        lemma_distinct(fb);
        let da = distinct(fa);
        let db = distinct(fb);
        let last = a.len() - 1;
        assert(fa.contains(a[last]) <==> fb.contains(b[last])) by {
            if fa.contains(a[last]) {
                let q = fa.index_of(a[last]);
                assert(b[q] == b[last]);
                assert(fb[q] == b[last]);
            }
            if fb.contains(b[last]) {
                let q = fb.index_of(b[last]);
                assert(b[q] == b[last]);
                assert(a[q] == a[last]);
                assert(fa[q] == a[last]);
            }
        }
        assert(da.contains(a[last]) <==> db.contains(b[last]));
        let ea = distinct(a);
        let eb = distinct(b);
        assert forall|i: int, p: int| 0 <= i < ea.len() && 0 <= p < a.len() implies (#[trigger] ea[i]
            == #[trigger] a[p] <==> eb[i] == b[p]) by {
            if i < da.len() {
                // some corner of the front is on edge `i`
                assert(da.contains(da[i]));
                let q = fa.index_of(da[i]);
                assert(da[i] == fa[q] <==> db[i] == fb[q]);
                assert(a[q] == a[p] <==> b[q] == b[p]);
            } else {
                assert(ea[i] == a[last] && eb[i] == b[last]);
                assert(a[last] == a[p] <==> b[last] == b[p]);
            }
        }
    }
}

/// Equal partitions have equal incidence lists.
proof fn lemma_partition_incident(a: Seq<int>, b: Seq<int>, owners: Seq<u32>, x: int, y: int)
    requires
        same_partition(a, b),
        owners.len() == a.len(),
        forall|p: int| 0 <= p < a.len() ==> (#[trigger] a[p] == x <==> b[p] == y),
    ensures
        incident(a, owners, x) == incident(b, owners, y),
    decreases a.len(),
{
    if a.len() > 0 {
        lemma_same_partition_front(a, b);
        assert forall|p: int| 0 <= p < a.drop_last().len() implies (#[trigger] a.drop_last()[p] == x
            <==> b.drop_last()[p] == y) by {
            assert(a[p] == x <==> b[p] == y);
        }
        lemma_partition_incident(a.drop_last(), b.drop_last(), owners.drop_last(), x, y);
        assert(a[a.len() - 1] == x <==> b[a.len() - 1] == y);
    }
}

/// Edge tables depend on the partition of the corners only.
pub proof fn lemma_relabel(
    edges: Seq<EdgeKey>,
    ids: Seq<u32>,
    edge_faces: Seq<Seq<u32>>,
    a: Seq<int>,
    b: Seq<int>,
    keys: Seq<EdgeKey>,
    owners: Seq<u32>,
)
    requires
        edge_tables(edges, ids, edge_faces, a, keys, owners),
        same_partition(a, b),
    ensures
        edge_tables(edges, ids, edge_faces, b, keys, owners),
{
    lemma_partition_numbers(a, b);
    let da = distinct(a);
    let db = distinct(b);
    assert forall|c: int| #![trigger ids[c]] 0 <= c < ids.len() implies ids[c] < edges.len() && db[ids[c] as int]
        == b[c] && edges[ids[c] as int] == keys[c] by {
        assert(da[ids[c] as int] == a[c]);
    }
    assert forall|e: int| 0 <= e < edge_faces.len() implies #[trigger] edge_faces[e] == incident(
        b,
        owners,
        db[e],
    ) by {
        assert(edge_faces[e] == incident(a, owners, da[e]));
        assert forall|p: int| 0 <= p < a.len() implies (#[trigger] a[p] == da[e] <==> b[p] == db[e]) by {
            assert(da[e] == a[p] <==> db[e] == b[p]);
        }
        lemma_partition_incident(a, b, owners, da[e], db[e]);
    }
}

/// Labels below `m` make at most `m` edges.
pub proof fn lemma_distinct_bound(labels: Seq<int>, m: int)
    requires
        0 <= m,
        forall|p: int| 0 <= p < labels.len() ==> 0 <= #[trigger] labels[p] < m,
    ensures
        distinct(labels).len() <= m,
{
    let d = distinct(labels);
    lemma_distinct(labels);
    d.unique_seq_to_set();
    vstd::set_lib::lemma_int_range(0, m);
    let range = vstd::set_lib::set_int_range(0, m);
    assert(d.to_set().subset_of(range)) by {
        assert forall|x: int| d.to_set().contains(x) implies range.contains(x) by {
            assert(d.contains(x));
            let p = labels.index_of(x);
            assert(labels[p] == x);
        }
    }
    vstd::set_lib::lemma_len_subset(d.to_set(), range);
}

} // verus!
