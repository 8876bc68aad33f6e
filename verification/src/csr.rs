//! Compressed sparse rows: a list of index lists in two flat buffers.

use crate::hashing::{row_lists, Row};
use crate::rows::{flat, ints, lemma_flat_push, lemma_flat_row, lemma_flat_take_next, row_start, row_starts, views};
use vstd::prelude::*;

verus! {

/// Jagged index lists, stored as offsets into one value buffer.
#[derive(Debug, Clone, PartialEq)]
pub struct CsrVec {
    offsets: Vec<u32>,
    values: Vec<u32>,
}

/// The offsets of a value buffer of length `len`: there is at least one, they
/// do not decrease and they stay inside the buffer.
pub open spec fn valid_offsets(offsets: Seq<u32>, len: nat) -> bool {
    &&& offsets.len() > 0
    &&& forall|i: int, j: int| 0 <= i <= j < offsets.len() ==> offsets[i] <= offsets[j]
    &&& offsets.last() <= len
}

/// The rows that offsets cut out of a value buffer.
pub open spec fn cut_rows(offsets: Seq<u32>, values: Seq<u32>) -> Seq<Seq<u32>> {
    Seq::new(
        (offsets.len() - 1) as nat,
        |i: int| values.subrange(offsets[i] as int, offsets[i + 1] as int),
    )
}

impl CsrVec {
    pub closed spec fn offset_list(self) -> Seq<u32> {
        self.offsets@
    }

    pub closed spec fn value_list(self) -> Seq<u32> {
        self.values@
    }

    pub open spec fn wf(self) -> bool {
        valid_offsets(self.offset_list(), self.value_list().len())
    }

    /// The rows.
    pub open spec fn view(self) -> Seq<Seq<u32>> {
        cut_rows(self.offset_list(), self.value_list())
    }

    /// The rows lie one after the other and fill the value buffer.
    pub open spec fn packed(self) -> bool {
        &&& self.wf()
        &&& ints(self.offset_list()) == row_starts(self@)
        &&& self.value_list() == flat(self@)
    }

    /// Number of rows.
    pub fn len(&self) -> (r: usize)
        requires
            self.wf(),
        ensures
            r == self@.len(),
    {
        self.offsets.len().saturating_sub(1)
    }

    /// Row `i`.
    pub fn row(&self, i: usize) -> (r: &[u32])
        requires
            self.wf(),
            i < self@.len(),
        ensures
            r@ == self@[i as int],
    {
        let n: usize = self.offsets.len();
        assert(i + 1 < n);
        let s: usize = self.offsets[i] as usize;
        let e: usize = self.offsets[i + 1] as usize;
        vstd::slice::slice_subrange(self.values.as_slice(), s, e)
    }

    /// Length of row `i`.
    pub fn row_len(&self, i: usize) -> (r: usize)
        requires
            self.wf(),
            i < self@.len(),
        ensures
            r == self@[i as int].len(),
    {
        let n: usize = self.offsets.len();
        assert(i + 1 < n);
        (self.offsets[i + 1] - self.offsets[i]) as usize
    }

    /// Entry `col` of row `row`.
    pub fn get(&self, row: usize, col: usize) -> (r: u32)
        requires
            self.wf(),
            row < self@.len(),
            col < self@[row as int].len(),
        ensures
            r == self@[row as int][col as int],
    {
        self.values[self.offsets[row] as usize + col]
    }

    /// The value buffer.
    pub fn flat_values(&self) -> (r: &[u32])
        ensures
            r@ == self.value_list(),
            self.packed() ==> r@ == flat(self@),
    {
        self.values.as_slice()
    }

    /// The offsets and the value buffer.
    pub fn into_parts(self) -> (r: (Vec<u32>, Vec<u32>))
        ensures
            r.0@ == self.offset_list(),
            r.1@ == self.value_list(),
            self.packed() ==> ints(r.0@) == row_starts(self@) && r.1@ == flat(self@),
    {
        (self.offsets, self.values)
    }

    /// Rows from their offsets and value buffer.
    pub fn from_parts(offsets: Vec<u32>, values: Vec<u32>) -> (r: CsrVec)
        requires
            valid_offsets(offsets@, values@.len()),
        ensures
            r.wf(),
            r.offset_list() == offsets@,
            r.value_list() == values@,
            r@ == cut_rows(offsets@, values@),
    {
        CsrVec { offsets, values }
    }

    /// Packs lists of `usize` indices that fit 32 bits.
    pub fn from_jagged(jagged: &[Vec<usize>]) -> (r: CsrVec)
        requires
            flat(views(jagged@)).len() <= u32::MAX,
            forall|i: int, k: int|
                #![trigger jagged@[i]@[k]]
                0 <= i < jagged@.len() && 0 <= k < jagged@[i]@.len() ==> jagged@[i]@[k] <= u32::MAX,
        ensures
            r.packed(),
            r@ == views(jagged@).map_values(|row: Seq<usize>| row.map_values(|x: usize| x as u32)),
    {
        let mut narrow: Vec<Vec<u32>> = Vec::new();
        let mut i: usize = 0;
        let ghost wide = views(jagged@);
        let ghost rows = wide.map_values(|row: Seq<usize>| row.map_values(|x: usize| x as u32));
        while i < jagged.len()
            invariant
                i <= jagged.len(),
                wide == views(jagged@),
                rows == wide.map_values(|row: Seq<usize>| row.map_values(|x: usize| x as u32)),
                views(narrow@) == rows.take(i as int),
                flat(views(narrow@)).len() == row_start(wide, i as int),
                forall|i: int, k: int|
                    #![trigger jagged@[i]@[k]]
                    0 <= i < jagged@.len() && 0 <= k < jagged@[i]@.len() ==> jagged@[i]@[k] <= u32::MAX,
            decreases jagged.len() - i,
        {
            let src: &Vec<usize> = &jagged[i];
            let mut row: Vec<u32> = Vec::new();
            let mut k: usize = 0;
            while k < src.len()
                invariant
                    k <= src.len(),
                    i < jagged.len(),
                    *src == jagged@[i as int],
                    row@ == src@.take(k as int).map_values(|x: usize| x as u32),
                decreases src.len() - k,
            {
                row.push(src[k] as u32);
                k += 1;
                assert(row@ =~= src@.take(k as int).map_values(|x: usize| x as u32));
            }
            assert(row@ =~= rows[i as int]);
            let ghost before = views(narrow@);
            narrow.push(row);
            proof {
                lemma_flat_push(before, row@);
                lemma_flat_take_next(wide, i as int);
            }
            i += 1;
            assert(views(narrow@) =~= before.push(row@));
            assert(views(narrow@) =~= rows.take(i as int));
        }
        assert(rows.take(i as int) =~= rows);
        assert(wide.take(i as int) =~= wide);
        CsrVec::from_jagged_u32(&narrow)
    }

    /// Packs lists of indices.
    pub fn from_jagged_u32(jagged: &[Vec<u32>]) -> (r: CsrVec)
        requires
            flat(views(jagged@)).len() <= u32::MAX,
        ensures
            r.packed(),
            r@ == views(jagged@),
    {
        let ghost rows = views(jagged@);
        let mut offsets: Vec<u32> = Vec::new();
        let mut values: Vec<u32> = Vec::new();
        offsets.push(0);
        assert(rows.take(0) =~= Seq::<Seq<u32>>::empty());
        let mut i: usize = 0;
        while i < jagged.len()
            invariant
                i <= jagged.len(),
                rows == views(jagged@),
                flat(rows).len() <= u32::MAX,
                values@ == flat(rows.take(i as int)),
                offsets@.len() == i + 1,
                forall|j: int| 0 <= j <= i ==> offsets@[j] == #[trigger] row_start(rows, j),
            decreases jagged.len() - i,
        {
            let src: &Vec<u32> = &jagged[i];
            let ghost before = values@;
            let mut k: usize = 0;
            while k < src.len()
                invariant
                    k <= src.len(),
                    values@ == before + src@.take(k as int),
                decreases src.len() - k,
            {
                values.push(src[k]);
                k += 1;
                assert(values@ =~= before + src@.take(k as int));
            }
            assert(src@.take(k as int) =~= rows[i as int]);
            proof {
                lemma_flat_take_next(rows, i as int);
                lemma_flat_row(rows, i as int);
            }
            offsets.push(values.len() as u32);
            i += 1;
        }
        assert(rows.take(i as int) =~= rows);
        proof {
            lemma_packed(offsets@, values@, rows);
        }
        CsrVec { offsets, values }
    }

    /// A copy.
    pub(crate) fn duplicate(&self) -> (r: CsrVec)
        ensures
            r.offset_list() == self.offset_list(),
            r.value_list() == self.value_list(),
            r@ == self@,
    {
        CsrVec { offsets: copied(&self.offsets), values: copied(&self.values) }
    }

    /// Rows of the same lengths with other values.
    pub(crate) fn with_values(&self, values: &[u32]) -> (r: CsrVec)
        requires
            self.packed(),
            values@.len() == flat(self@).len(),
        ensures
            r.packed(),
            r@.len() == self@.len(),
            forall|i: int| 0 <= i < self@.len() ==> (#[trigger] r@[i]).len() == self@[i].len(),
            flat(r@) == values@,
    {
        let mut offsets: Vec<u32> = Vec::new();
        let mut copy: Vec<u32> = Vec::new();
        let mut i: usize = 0;
        while i < self.offsets.len()
            invariant
                i <= self.offsets.len(),
                offsets@ == self.offsets@.take(i as int),
            decreases self.offsets.len() - i,
        {
            offsets.push(self.offsets[i]);
            i += 1;
            assert(offsets@ =~= self.offsets@.take(i as int));
        }
        assert(offsets@ =~= self.offsets@);
        let mut k: usize = 0;
        while k < values.len()
            invariant
                k <= values.len(),
                copy@ == values@.take(k as int),
            decreases values.len() - k,
        {
            copy.push(values[k]);
            k += 1;
            assert(copy@ =~= values@.take(k as int));
        }
        assert(copy@ =~= values@);
        proof {
            lemma_recut(self.offsets@, self@, values@);
        }
        CsrVec { offsets, values: copy }
    }

    /// Packs inline rows.
    pub(crate) fn from_rows(jagged: &[Row]) -> (r: CsrVec)
        requires
            flat(row_lists(jagged@)).len() <= u32::MAX,
        ensures
            r.packed(),
            r@ == row_lists(jagged@),
    {
        let ghost rows = row_lists(jagged@);
        let mut offsets: Vec<u32> = Vec::new();
        let mut values: Vec<u32> = Vec::new();
        offsets.push(0);
        assert(rows.take(0) =~= Seq::<Seq<u32>>::empty());
        let mut i: usize = 0;
        while i < jagged.len()
            invariant
                i <= jagged.len(),
                rows == row_lists(jagged@),
                flat(rows).len() <= u32::MAX,
                values@ == flat(rows.take(i as int)),
                offsets@.len() == i + 1,
                forall|j: int| 0 <= j <= i ==> offsets@[j] == #[trigger] row_start(rows, j),
            decreases jagged.len() - i,
        {
            let src: &[u32] = jagged[i].as_slice();
            let ghost before = values@;
            let mut k: usize = 0;
            while k < src.len()
                invariant
                    k <= src.len(),
                    values@ == before + src@.take(k as int),
                decreases src.len() - k,
            {
                values.push(src[k]);
                k += 1;
                assert(values@ =~= before + src@.take(k as int));
            }
            assert(src@.take(k as int) =~= rows[i as int]);
            proof {
                lemma_flat_take_next(rows, i as int);
                lemma_flat_row(rows, i as int);
            }
            offsets.push(values.len() as u32);
            i += 1;
        }
        assert(rows.take(i as int) =~= rows);
        proof {
            lemma_packed(offsets@, values@, rows);
        }
        CsrVec { offsets, values }
    }
}

/// Offsets at the row starts cut the flat buffer back into its rows.
pub proof fn lemma_packed(offsets: Seq<u32>, values: Seq<u32>, rows: Seq<Seq<u32>>)
    requires
        offsets.len() == rows.len() + 1,
        forall|j: int| 0 <= j <= rows.len() ==> offsets[j] == #[trigger] row_start(rows, j),
        values == flat(rows),
    ensures
        valid_offsets(offsets, values.len()),
        cut_rows(offsets, values) == rows,
        ints(offsets) == row_starts(rows),
{
    assert forall|i: int, j: int| 0 <= i <= j < offsets.len() implies offsets[i] <= offsets[j] by {
        crate::rows::lemma_row_start_monotone(rows, i, j);
        assert(offsets[i] == row_start(rows, i));
        assert(offsets[j] == row_start(rows, j));
    }
    assert(rows.take(rows.len() as int) =~= rows);
    assert(offsets.last() == row_start(rows, rows.len() as int));
    assert forall|i: int| 0 <= i < rows.len() implies cut_rows(offsets, values)[i] == #[trigger] rows[i] by {
        lemma_flat_row(rows, i);
        assert(offsets[i] == row_start(rows, i));
        assert(offsets[i + 1] == row_start(rows, i + 1));
    }
    assert(cut_rows(offsets, values) =~= rows);
    assert(ints(offsets) =~= row_starts(rows));
}

/// Offsets at the starts of some rows cut any buffer of the same length into
/// rows of the same lengths.
pub proof fn lemma_recut(offsets: Seq<u32>, rows: Seq<Seq<u32>>, values: Seq<u32>)
    requires
        ints(offsets) == row_starts(rows),
        values.len() == flat(rows).len(),
    ensures
        valid_offsets(offsets, values.len()),
        cut_rows(offsets, values).len() == rows.len(),
        forall|i: int| 0 <= i < rows.len() ==> (#[trigger] cut_rows(offsets, values)[i]).len() == rows[i].len(),
        ints(offsets) == row_starts(cut_rows(offsets, values)),
        flat(cut_rows(offsets, values)) == values,
{
    let cut = cut_rows(offsets, values);
    assert(offsets.len() == ints(offsets).len());
    assert(ints(offsets).len() == row_starts(rows).len());
    assert forall|j: int| 0 <= j < offsets.len() implies offsets[j] == row_start(rows, j) by {
        assert(ints(offsets)[j] == offsets[j] as int);
        assert(row_starts(rows)[j] == row_start(rows, j));
    }
    assert(rows.take(rows.len() as int) =~= rows);
    assert forall|i: int, j: int| 0 <= i <= j < offsets.len() implies offsets[i] <= offsets[j] by {
        crate::rows::lemma_row_start_monotone(rows, i, j);
    }
    assert forall|i: int| 0 <= i < rows.len() implies (#[trigger] cut[i]).len() == rows[i].len() by {
        lemma_flat_row(rows, i);
    }
    assert forall|i: int| 0 <= i <= rows.len() implies row_start(cut, i) == row_start(rows, i) && flat(
        #[trigger] cut.take(i),
    ) == values.take(row_start(rows, i)) by {
        lemma_recut_prefix(offsets, rows, values, i);
    }
    assert(cut.take(rows.len() as int) =~= cut);
    assert(values.take(values.len() as int) =~= values);
    assert forall|j: int| 0 <= j < offsets.len() implies ints(offsets)[j] == row_starts(cut)[j] by {
        assert(flat(cut.take(j)) == values.take(row_start(rows, j)));
    }
    assert(ints(offsets) =~= row_starts(cut));
}

proof fn lemma_recut_prefix(offsets: Seq<u32>, rows: Seq<Seq<u32>>, values: Seq<u32>, i: int)
    requires
        offsets.len() == rows.len() + 1,
        forall|j: int| 0 <= j < offsets.len() ==> offsets[j] == row_start(rows, j),
        values.len() == flat(rows).len(),
        0 <= i <= rows.len(),
    ensures
        row_start(cut_rows(offsets, values), i) == row_start(rows, i),
        flat(cut_rows(offsets, values).take(i)) == values.take(row_start(rows, i)),
    decreases i,
{
    let cut = cut_rows(offsets, values);
    if i > 0 {
        lemma_recut_prefix(offsets, rows, values, i - 1);
        lemma_flat_row(rows, i - 1);
        lemma_flat_take_next(cut, i - 1);
        assert(flat(cut.take(i)) =~= values.take(row_start(rows, i)));
    } else {
        assert(cut.take(0) =~= Seq::<Seq<u32>>::empty());
        assert(rows.take(0) =~= Seq::<Seq<u32>>::empty());
        assert(values.take(0) =~= Seq::<u32>::empty());
    }
}

/// Packed rows are determined by their lists: equal lists have equal buffers.
pub proof fn packed_rows_have_one_form(a: CsrVec, b: CsrVec)
    requires
        a.packed(),
        b.packed(),
        a@ == b@,
    ensures
        a.offset_list() == b.offset_list(),
        a.value_list() == b.value_list(),
{
    assert(a.offset_list().len() == b.offset_list().len());
    assert forall|i: int| 0 <= i < a.offset_list().len() implies a.offset_list()[i] == b.offset_list()[i] by {
        assert(ints(a.offset_list())[i] == ints(b.offset_list())[i]);
    }
    assert(a.offset_list() =~= b.offset_list());
}

/// A copy of a list.
pub(crate) fn copied<T: Copy>(v: &[T]) -> (r: Vec<T>)
    ensures
        r@ == v@,
{
    let mut out: Vec<T> = Vec::new();
    let mut i: usize = 0;
    while i < v.len()
        invariant
            i <= v.len(),
            out@ == v@.take(i as int),
        decreases v.len() - i,
    {
        out.push(v[i]);
        i += 1;
        assert(out@ =~= v@.take(i as int));
    }
    assert(out@ =~= v@);
    out
}

pub proof fn lemma_row_within_flat(rows: Seq<Seq<u32>>, i: int)
    requires
        0 <= i < rows.len(),
    ensures
        rows[i].len() <= flat(rows).len(),
{
    lemma_flat_row(rows, i);
}

/// Packed rows fit the 32-bit offsets.
pub proof fn lemma_packed_fits(rows: CsrVec)
    requires
        rows.packed(),
    ensures
        flat(rows@).len() <= u32::MAX,
{
    let n = rows@.len() as int;
    assert(rows@.take(n) =~= rows@);
    assert(crate::rows::row_starts(rows@)[n] == flat(rows@).len());
    assert(crate::rows::ints(rows.offset_list())[n] == rows.offset_list()[n] as int);
}

/// Where each face starts.
pub(crate) fn starts_of(faces: &CsrVec) -> (r: Vec<u32>)
    requires
        faces.packed(),
    ensures
        r@.len() == faces@.len() + 1,
        forall|f: int| 0 <= f <= faces@.len() ==> r@[f] == #[trigger] row_start(faces@, f),
{
    let (offsets, _) = faces.duplicate().into_parts();
    proof {
        assert forall|f: int| 0 <= f <= faces@.len() implies offsets@[f] == #[trigger] row_start(faces@, f) by {
            assert(ints(offsets@)[f] == row_starts(faces@)[f]);
            assert(crate::rows::ints(offsets@)[f] == offsets@[f] as int);
        }
        assert(crate::rows::ints(offsets@).len() == offsets@.len());
    }
    offsets
}

} // verus!
