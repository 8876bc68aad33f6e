//! The collections and the sort that the kernels take from other crates.

use rustc_hash::FxHashMap;
use smallvec::SmallVec;
use vstd::prelude::*;

verus! {

/// An undirected edge as its two end points, the smaller one first.
pub type EdgeKey = (u32, u32);

/// A hash table keyed by undirected edges.
pub type EdgeMap<V> = FxHashMap<EdgeKey, V>;

/// The hasher of `rustc_hash`; the tables below are built with it.
#[verifier::external_type_specification]
#[verifier::external_body]
pub struct ExFxBuildHasher(rustc_hash::FxBuildHasher);

pub open spec fn no_entries<V>() -> Map<EdgeKey, V> {
    Map::empty()
}

/// `FxHashMap::default` of `rustc_hash`: a table without entries.
#[verifier::external_body]
pub(crate) fn edge_map_new<V>() -> (r: EdgeMap<V>)
    ensures
        r@ == no_entries::<V>(),
{
    FxHashMap::default()
}

/// `FxHashMap::insert`: afterwards `key` stands for `value`, and every other
/// key for what it stood for before.
#[verifier::external_body]
pub(crate) fn edge_map_insert<V>(map: &mut EdgeMap<V>, key: EdgeKey, value: V)
    ensures
        final(map)@ == old(map)@.insert(key, value),
{
    map.insert(key, value);
}

/// `FxHashMap::get`: the value that `key` stands for, if it has one.
#[verifier::external_body]
pub(crate) fn edge_map_get<V: Copy>(map: &EdgeMap<V>, key: EdgeKey) -> (r: Option<V>)
    ensures
        r == (if map@.contains_key(key) {
            Some(map@[key])
        } else {
            None
        }),
{
    map.get(&key).copied()
}

/// A short list of indices, kept inline while it has at most four entries.
#[verifier::external_body]
pub struct Row {
    items: SmallVec<[u32; 4]>,
}

/// The entries of a row, in order.
pub uninterp spec fn row_items(row: Row) -> Seq<u32>;

/// The entries of each row of a list.
pub open spec fn row_lists(rows: Seq<Row>) -> Seq<Seq<u32>> {
    rows.map_values(|r: Row| row_items(r))
}

impl Row {
    /// `SmallVec::new`: a row without entries.
    #[verifier::external_body]
    pub(crate) fn new() -> (r: Row)
        ensures
            row_items(r) == Seq::<u32>::empty(),
    {
        Row { items: SmallVec::new() }
    }

    /// `SmallVec::push`: one more entry at the end.
    #[verifier::external_body]
    pub(crate) fn push(&mut self, item: u32)
        ensures
            row_items(*final(self)) == row_items(*old(self)).push(item),
    {
        self.items.push(item);
    }

    /// `SmallVec::as_slice`: the entries in order.
    #[verifier::external_body]
    pub(crate) fn as_slice(&self) -> (r: &[u32])
        ensures
            r@ == row_items(*self),
    {
        self.items.as_slice()
    }
}

pub open spec fn ascending(s: Seq<u32>) -> bool {
    forall|i: int, j: int| 0 <= i <= j < s.len() ==> s[i] <= s[j]
}

pub open spec fn strictly_ascending(s: Seq<u32>) -> bool {
    forall|i: int, j: int| 0 <= i < j < s.len() ==> s[i] < s[j]
}

/// `slice::sort_unstable` of std on integers: the same items with the same
/// multiplicities, in ascending order.
#[verifier::external_body]
pub(crate) fn sort_indices(items: &mut Vec<u32>)
    ensures
        ascending(final(items)@),
        final(items)@.to_multiset() == old(items)@.to_multiset(),
{
    items.sort_unstable();
}

/// Two lists with the same multiplicities have the same members.
pub proof fn lemma_same_members(a: Seq<u32>, b: Seq<u32>)
    requires
        a.to_multiset() == b.to_multiset(),
    ensures
        a.len() == b.len(),
        a.to_set() == b.to_set(),
        a.no_duplicates() ==> b.no_duplicates(),
{
    broadcast use vstd::seq_lib::group_to_multiset_ensures;

    assert forall|x: u32| a.contains(x) == b.contains(x) by {
        assert(a.contains(x) <==> a.to_multiset().count(x) > 0);
        assert(b.contains(x) <==> b.to_multiset().count(x) > 0);
    }
    assert(a.to_set() =~= b.to_set());
    a.to_multiset_ensures();
    b.to_multiset_ensures();
    if a.no_duplicates() {
        a.lemma_multiset_has_no_duplicates();
        b.lemma_multiset_has_no_duplicates_conv();
    }
}

/// Sorting a list without repetitions gives a strictly ascending one.
pub(crate) fn sort_distinct(items: &mut Vec<u32>)
    requires
        old(items)@.no_duplicates(),
    ensures
        strictly_ascending(final(items)@),
        final(items)@.to_set() == old(items)@.to_set(),
        final(items)@.len() == old(items)@.len(),
{
    let ghost before = items@;
    sort_indices(items);
    proof {
        lemma_same_members(before, items@);
    }
}

/// Sorts a list and drops the repetitions.
pub(crate) fn sort_dedup(items: &mut Vec<u32>)
    ensures
        strictly_ascending(final(items)@),
        final(items)@.to_set() == old(items)@.to_set(),
{
    let ghost before = items@;
    sort_indices(items);
    proof {
        lemma_same_members(before, items@);
    }
    let ghost sorted = items@;
    let mut kept: Vec<u32> = Vec::new();
    let mut i: usize = 0;
    while i < items.len()
        invariant
            i <= items.len(),
            items@ == sorted,
            ascending(sorted),
            strictly_ascending(kept@),
            kept.len() == 0 <==> i == 0,
            kept.len() > 0 ==> kept@.last() == sorted[i - 1],
            forall|x: u32| #[trigger] kept@.contains(x) <==> sorted.take(i as int).contains(x),
        decreases items.len() - i,
    {
        let x: u32 = items[i];
        let ghost prev = kept@;
        assert(sorted.take(i + 1) =~= sorted.take(i as int).push(x));
        if kept.len() == 0 || kept[kept.len() - 1] != x {
            assert(kept.len() > 0 ==> sorted[i - 1] <= x);
            kept.push(x);
            assert(kept@.last() == x);
            assert forall|y: u32| #[trigger] kept@.contains(y) <==> sorted.take(i + 1).contains(y) by {
                assert(kept@.contains(y) <==> prev.contains(y) || y == x) by {
                    if prev.contains(y) {
                        let k = prev.index_of(y);
                        assert(kept@[k] == y);
                    }
                    if y == x {
                        assert(kept@[prev.len() as int] == y);
                    }
                }
                assert(sorted.take(i + 1).contains(y) <==> sorted.take(i as int).contains(y) || y == x) by {
                    if sorted.take(i as int).contains(y) {
                        let k = sorted.take(i as int).index_of(y);
                        assert(sorted.take(i + 1)[k] == y);
                    }
                    if y == x {
                        assert(sorted.take(i + 1)[i as int] == y);
                    }
                }
            }
        } else {
            assert forall|y: u32| #[trigger] kept@.contains(y) <==> sorted.take(i + 1).contains(y) by {
                if sorted.take(i as int).contains(y) {
                    let k = sorted.take(i as int).index_of(y);
                    assert(sorted.take(i + 1)[k] == y);
                }
                if sorted.take(i + 1).contains(y) && y != x {
                    let k = sorted.take(i + 1).index_of(y);
                    assert(sorted.take(i as int)[k] == y);
                }
                if y == x {
                    assert(kept@[kept@.len() - 1] == x);
                }
            }
        }
        i += 1;
    }
    assert(sorted.take(i as int) =~= sorted);
    assert(kept@.to_set() =~= sorted.to_set());
    *items = kept;
}

} // verus!
