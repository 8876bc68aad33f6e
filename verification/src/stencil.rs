//! Stencil tables: each output is a weighted sum of inputs.

use crate::interpolate::Interpolatable;
use crate::rows::{flat, lemma_flat_row, lemma_flat_take_next, row_start};
use crate::scalar::{one, one_of, Scalar};
use vstd::prelude::*;

verus! {

/// Linear maps in compressed rows: row `i` lists the inputs of output `i` and
/// their weights.
#[derive(Debug, Clone, PartialEq)]
#[must_use]
pub struct StencilTable<S> {
    /// Start of each row in `indices` and `weights`, and the total length.
    pub offsets: Vec<u32>,
    /// The inputs of each row.
    pub indices: Vec<u32>,
    /// The weights, parallel to `indices`.
    pub weights: Vec<S>,
}

/// The blend of one row: its inputs added one by one to the origin.
pub open spec fn blend<S: Scalar, T: Interpolatable<S>>(row: Seq<(u32, S)>, input: Seq<T>) -> T
    decreases row.len(),
{
    if row.len() == 0 {
        T::origin_of()
    } else {
        blend::<S, T>(row.drop_last(), input).moved(input[row.last().0 as int], row.last().1)
    }
}

/// All rows of a table applied to an input.
pub open spec fn blend_all<S: Scalar, T: Interpolatable<S>>(
    rows: Seq<Seq<(u32, S)>>,
    input: Seq<T>,
) -> Seq<T> {
    Seq::new(rows.len(), |i: int| blend::<S, T>(rows[i], input))
}

/// Every index of the row is below `n`.
pub open spec fn row_below<S>(row: Seq<(u32, S)>, n: nat) -> bool {
    forall|k: int| 0 <= k < row.len() ==> (#[trigger] row[k]).0 < n
}

pub open spec fn rows_below<S>(rows: Seq<Seq<(u32, S)>>, n: nat) -> bool {
    forall|i: int| 0 <= i < rows.len() ==> row_below(#[trigger] rows[i], n)
}

/// The row has an entry for `index`.
pub open spec fn mentions<S>(row: Seq<(u32, S)>, index: u32) -> bool {
    exists|k: int| 0 <= k < row.len() && (#[trigger] row[k]).0 == index
}

/// Position `p` holds the first entry for `index`.
pub open spec fn first_entry<S>(row: Seq<(u32, S)>, index: u32, p: int) -> bool {
    &&& 0 <= p < row.len()
    &&& row[p].0 == index
    &&& forall|q: int| 0 <= q < p ==> (#[trigger] row[q]).0 != index
}

/// A row with `weight` added to its entry for `index`; a new entry goes last.
pub open spec fn accumulated<S: Scalar>(row: Seq<(u32, S)>, index: u32, weight: S) -> Seq<(u32, S)> {
    if exists|p: int| first_entry(row, index, p) {
        let p = choose|p: int| first_entry(row, index, p);
        row.update(p, (index, S::plus_of(row[p].1, weight)))
    } else {
        row.push((index, weight))
    }
}

/// A row with another one, scaled by `weight`, accumulated entry by entry.
pub open spec fn merged<S: Scalar>(row: Seq<(u32, S)>, src: Seq<(u32, S)>, weight: S) -> Seq<(u32, S)>
    decreases src.len(),
{
    if src.len() == 0 {
        row
    } else {
        accumulated(
            merged(row, src.drop_last(), weight),
            src.last().0,
            S::times_of(weight, src.last().1),
        )
    }
}

/// One row of a composition: the rows of `inner` that `row` lists, merged.
pub open spec fn composed_row<S: Scalar>(
    inner: Seq<Seq<(u32, S)>>,
    row: Seq<(u32, S)>,
) -> Seq<(u32, S)>
    decreases row.len(),
{
    if row.len() == 0 {
        Seq::empty()
    } else {
        merged(composed_row(inner, row.drop_last()), inner[row.last().0 as int], row.last().1)
    }
}

/// The rows of `outer` after `inner`.
pub open spec fn composed<S: Scalar>(
    inner: Seq<Seq<(u32, S)>>,
    outer: Seq<Seq<(u32, S)>>,
) -> Seq<Seq<(u32, S)>> {
    Seq::new(outer.len(), |i: int| composed_row(inner, outer[i]))
}

/// The rows that copy `count` inputs one for one.
pub open spec fn identity_rows<S: Scalar>(count: nat) -> Seq<Seq<(u32, S)>> {
    Seq::new(count, |i: int| seq![(i as u32, one_of::<S>())])
}

/// The inputs and weights of a flat list of entries.
pub open spec fn entry_indices<S>(entries: Seq<(u32, S)>) -> Seq<u32> {
    entries.map_values(|e: (u32, S)| e.0)
}

pub open spec fn entry_weights<S>(entries: Seq<(u32, S)>) -> Seq<S> {
    entries.map_values(|e: (u32, S)| e.1)
}

/// The table was written from `rows`: its buffers hold them one after the
/// other, and it is well formed as long as their total length fits the 32-bit
/// offsets.
pub open spec fn written_from<S: Scalar>(table: StencilTable<S>, rows: Seq<Seq<(u32, S)>>) -> bool {
    &&& table.indices@ == entry_indices(flat(rows))
    &&& table.weights@ == entry_weights(flat(rows))
    &&& table.offsets@.len() == rows.len() + 1
    &&& flat(rows).len() <= u32::MAX ==> table.packed() && table@ == rows
}

/// Adds `weight` to the entry for `index`, or appends one.
pub fn accumulate<S: Scalar>(row: &mut Vec<(u32, S)>, index: u32, weight: S)
    ensures
        final(row)@ == accumulated(old(row)@, index, weight),
{
    let ghost before = row@;
    let mut p: usize = 0;
    while p < row.len()
        invariant
            p <= row.len(),
            row@ == before,
            before == old(row)@,
            forall|q: int| 0 <= q < p ==> (#[trigger] before[q]).0 != index,
        ensures
            p < row.len() ==> first_entry(before, index, p as int),
        decreases row.len() - p,
    {
        if row[p].0 == index {
            break;
        }
        p += 1;
    }
    if p < row.len() {
        assert(first_entry(before, index, p as int));
        let sum: S = row[p].1.plus(weight);
        row[p] = (index, sum);
        proof {
            let c = choose|c: int| first_entry(before, index, c);
            assert(c == p) by {
                if c < p {
                    assert(before[c].0 != index);
                }
                if p < c {
                    assert(before[p as int].0 != index);
                }
            }
        }
    } else {
        assert(!exists|c: int| first_entry(before, index, c));
        row.push((index, weight));
    }
}

/// Accumulates a row, scaled by `weight`, into another.
pub fn merge<S: Scalar>(row: &mut Vec<(u32, S)>, src: &[(u32, S)], weight: S)
    ensures
        final(row)@ == merged(old(row)@, src@, weight),
{
    let mut k: usize = 0;
    assert(src@.take(0) =~= Seq::<(u32, S)>::empty());
    while k < src.len()
        invariant
            k <= src.len(),
            row@ == merged(old(row)@, src@.take(k as int), weight),
        decreases src.len() - k,
    {
        let (index, w) = src[k];
        accumulate(row, index, weight.times(w));
        k += 1;
        assert(src@.take(k as int).drop_last() =~= src@.take(k - 1));
    }
    assert(src@.take(k as int) =~= src@);
}

impl<S: Scalar> StencilTable<S> {
    pub open spec fn row_count(self) -> nat {
        if self.offsets@.len() == 0 {
            0
        } else {
            (self.offsets@.len() - 1) as nat
        }
    }

    /// Each row lies inside both buffers.
    pub open spec fn wf(self) -> bool {
        forall|i: int|
            #![trigger self.offsets@[i]]
            0 <= i < self.row_count() ==> self.offsets@[i] <= self.offsets@[i + 1]
                <= self.indices@.len() && self.offsets@[i + 1] <= self.weights@.len()
    }

    /// Each row lies inside the list of inputs.
    pub open spec fn reads_ok(self) -> bool {
        forall|i: int|
            #![trigger self.offsets@[i]]
            0 <= i < self.row_count() ==> self.offsets@[i] <= self.offsets@[i + 1] <= self.indices@.len()
    }

    /// Entries of row `i`.
    pub open spec fn row(self, i: int) -> Seq<(u32, S)> {
        Seq::new(
            (self.offsets@[i + 1] - self.offsets@[i]) as nat,
            |k: int| (self.indices@[self.offsets@[i] + k], self.weights@[self.offsets@[i] + k]),
        )
    }

    /// The rows.
    pub open spec fn view(self) -> Seq<Seq<(u32, S)>> {
        Seq::new(self.row_count(), |i: int| self.row(i))
    }

    /// The rows lie one after the other and fill the buffers.
    pub open spec fn packed(self) -> bool {
        &&& self.wf()
        &&& self.offsets@.len() == self@.len() + 1
        &&& crate::rows::ints(self.offsets@) == crate::rows::row_starts(self@)
        &&& self.indices@ == entry_indices(flat(self@))
        &&& self.weights@ == entry_weights(flat(self@))
    }

    /// Number of outputs.
    pub fn output_count(&self) -> (r: usize)
        ensures
            r == self.row_count(),
    {
        self.offsets.len().saturating_sub(1)
    }

    /// The entries of row `r` blended.
    fn blend_row<T: Interpolatable<S>>(&self, r: usize, input: &[T]) -> (result: T)
        requires
            self.wf(),
            r < self.row_count(),
            row_below(self@[r as int], input@.len()),
        ensures
            result == blend::<S, T>(self@[r as int], input@),
    {
        let n: usize = self.offsets.len();
        assert(r + 1 < n);
        let ghost row = self@[r as int];
        assert(self.offsets@[r as int] <= self.offsets@[r + 1]);
        let start: usize = self.offsets[r] as usize;
        let end: usize = self.offsets[r + 1] as usize;
        let mut result: T = T::origin();
        let mut k: usize = start;
        assert(row.take(0) =~= Seq::<(u32, S)>::empty());
        while k < end
            invariant
                start <= k <= end,
                end <= self.indices@.len(),
                end <= self.weights@.len(),
                row.len() == end - start,
                forall|j: int|
                    0 <= j < end - start ==> #[trigger] row[j] == (
                        self.indices@[start + j],
                        self.weights@[start + j],
                    ),
                row_below(row, input@.len()),
                result == blend::<S, T>(row.take(k - start), input@),
            decreases end - k,
        {
            assert(row[k - start].0 < input@.len());
            let index: usize = self.indices[k] as usize;
            result.add_with_weight(&input[index], self.weights[k]);
            k += 1;
            assert(row.take(k - start).drop_last() =~= row.take(k - 1 - start));
        }
        assert(row.take(k - start) =~= row);
        result
    }

    /// Applies every row to `input`.
    pub fn interpolate<T: Interpolatable<S>>(&self, input: &[T]) -> (r: Vec<T>)
        requires
            self.wf(),
            rows_below(self@, input@.len()),
        ensures
            r@ == blend_all::<S, T>(self@, input@),
    {
        let count: usize = self.output_count();
        let mut out: Vec<T> = Vec::new();
        let mut i: usize = 0;
        while i < count
            invariant
                i <= count,
                count == self.row_count(),
                self.wf(),
                rows_below(self@, input@.len()),
                out@ == blend_all::<S, T>(self@, input@).take(i as int),
            decreases count - i,
        {
            assert(row_below(self@[i as int], input@.len()));
            out.push(self.blend_row(i, input));
            i += 1;
            assert(out@ =~= blend_all::<S, T>(self@, input@).take(i as int));
        }
        assert(out@ =~= blend_all::<S, T>(self@, input@));
        out
    }

    /// Applies the listed rows only, writing each result to its place in
    /// `output` and leaving the other places alone.
    pub fn interpolate_rows<T: Interpolatable<S>>(&self, input: &[T], rows: &[u32], output: &mut [T])
        requires
            self.wf(),
            forall|k: int|
                0 <= k < rows@.len() ==> (#[trigger] rows@[k]) < self.row_count() && rows@[k]
                    < old(output)@.len() && row_below(self@[rows@[k] as int], input@.len()),
        ensures
            final(output)@.len() == old(output)@.len(),
            forall|i: int|
                0 <= i < final(output)@.len() ==> #[trigger] final(output)@[i] == (if rows@.contains(
                    i as u32,
                ) && i <= u32::MAX {
                    blend::<S, T>(self@[i], input@)
                } else {
                    old(output)@[i]
                }),
    {
        let mut k: usize = 0;
        while k < rows.len()
            invariant
                k <= rows.len(),
                self.wf(),
                forall|k: int|
                    0 <= k < rows@.len() ==> (#[trigger] rows@[k]) < self.row_count() && rows@[k]
                        < old(output)@.len() && row_below(self@[rows@[k] as int], input@.len()),
                output@.len() == old(output)@.len(),
                forall|i: int|
                    0 <= i < output@.len() ==> #[trigger] output@[i] == (if rows@.take(
                        k as int,
                    ).contains(i as u32) && i <= u32::MAX {
                        blend::<S, T>(self@[i], input@)
                    } else {
                        old(output)@[i]
                    }),
            decreases rows.len() - k,
        {
            let ghost before = output@;
            let r: usize = rows[k] as usize;
            assert(rows@[k as int] < self.row_count());
            let value: T = self.blend_row(r, input);
            output[r] = value;
            assert(rows@.take(k + 1) =~= rows@.take(k as int).push(rows@[k as int]));
            assert forall|i: int| 0 <= i < output@.len() implies #[trigger] output@[i] == (if rows@.take(
                k + 1,
            ).contains(i as u32) && i <= u32::MAX {
                blend::<S, T>(self@[i], input@)
            } else {
                old(output)@[i]
            }) by {
                let done = rows@.take(k as int);
                let more = rows@.take(k + 1);
                if i == r {
                    assert(more[k as int] == i as u32);
                } else {
                    assert(before[i] == output@[i]);
                    if done.contains(i as u32) {
                        let q = done.index_of(i as u32);
                        assert(more[q] == i as u32);
                    }
                    if more.contains(i as u32) && i <= u32::MAX {
                        let q = more.index_of(i as u32);
                        assert(done[q] == i as u32);
                    }
                }
            }
            k += 1;
        }
        assert(rows@.take(k as int) =~= rows@);
    }

    /// One table that does what `self` and then `other` do.
    pub fn compose(&self, other: &StencilTable<S>) -> (r: StencilTable<S>)
        requires
            self.wf(),
            other.wf(),
            rows_below(other@, self@.len()),
        ensures
            written_from(r, composed(self@, other@)),
    {
        let ghost rows = composed(self@, other@);
        let count: usize = other.output_count();
        let mut offsets: Vec<u32> = Vec::new();
        let mut indices: Vec<u32> = Vec::new();
        let mut weights: Vec<S> = Vec::new();
        offsets.push(0);
        assert(rows.take(0) =~= Seq::<Seq<(u32, S)>>::empty());
        assert(indices@ =~= entry_indices(flat(rows.take(0))));
        assert(weights@ =~= entry_weights(flat(rows.take(0))));
        let mut c: usize = 0;
        while c < count
            invariant
                c <= count,
                count == other.row_count(),
                self.wf(),
                other.wf(),
                rows_below(other@, self@.len()),
                rows == composed(self@, other@),
                indices@ == entry_indices(flat(rows.take(c as int))),
                weights@ == entry_weights(flat(rows.take(c as int))),
                offsets@.len() == c + 1,
                flat(rows).len() <= u32::MAX ==> forall|j: int|
                    0 <= j <= c ==> offsets@[j] == #[trigger] row_start(rows, j),
            decreases count - c,
        {
            let ghost row = other@[c as int];
            assert(row_below(row, self@.len()));
            let n: usize = other.offsets.len();
            assert(c + 1 < n);
            assert(other.offsets@[c as int] <= other.offsets@[c + 1]);
            let start: usize = other.offsets[c] as usize;
            let end: usize = other.offsets[c + 1] as usize;
            let mut combined: Vec<(u32, S)> = Vec::new();
            let mut k: usize = start;
            assert(row.take(0) =~= Seq::<(u32, S)>::empty());
            while k < end
                invariant
                    start <= k <= end,
                    end <= other.indices@.len(),
                    end <= other.weights@.len(),
                    self.wf(),
                    row.len() == end - start,
                    forall|j: int|
                        0 <= j < end - start ==> #[trigger] row[j] == (
                            other.indices@[start + j],
                            other.weights@[start + j],
                        ),
                    row_below(row, self@.len()),
                    combined@ == composed_row(self@, row.take(k - start)),
                decreases end - k,
            {
                assert(row[k - start].0 < self@.len());
                let b: usize = other.indices[k] as usize;
                self.merge_row(&mut combined, b, other.weights[k]);
                k += 1;
                assert(row.take(k - start).drop_last() =~= row.take(k - 1 - start));
            }
            assert(row.take(k - start) =~= row);
            assert(combined@ == rows[c as int]);
            proof {
                lemma_flat_take_next(rows, c as int);
                lemma_flat_row(rows, c as int);
            }
            push_entries(&mut indices, &mut weights, &combined);
            offsets.push(indices.len() as u32);
            c += 1;
            assert(indices@ =~= entry_indices(flat(rows.take(c as int))));
            assert(weights@ =~= entry_weights(flat(rows.take(c as int))));
        }
        assert(rows.take(c as int) =~= rows);
        let table = StencilTable { offsets, indices, weights };
        proof {
            if flat(rows).len() <= u32::MAX {
                lemma_packed_table(table, rows);
            }
        }
        table
    }

    /// Merges row `b` of this table, scaled by `weight`, into `combined`.
    fn merge_row(&self, combined: &mut Vec<(u32, S)>, b: usize, weight: S)
        requires
            self.wf(),
            b < self.row_count(),
        ensures
            final(combined)@ == merged(old(combined)@, self@[b as int], weight),
    {
        let ghost row = self@[b as int];
        let n: usize = self.offsets.len();
        assert(b + 1 < n);
        assert(self.offsets@[b as int] <= self.offsets@[b + 1]);
        let start: usize = self.offsets[b] as usize;
        let end: usize = self.offsets[b + 1] as usize;
        let mut k: usize = start;
        assert(row.take(0) =~= Seq::<(u32, S)>::empty());
        while k < end
            invariant
                start <= k <= end,
                end <= self.indices@.len(),
                end <= self.weights@.len(),
                row.len() == end - start,
                forall|j: int|
                    0 <= j < end - start ==> #[trigger] row[j] == (
                        self.indices@[start + j],
                        self.weights@[start + j],
                    ),
                combined@ == merged(old(combined)@, row.take(k - start), weight),
            decreases end - k,
        {
            accumulate(combined, self.indices[k], weight.times(self.weights[k]));
            k += 1;
            assert(row.take(k - start).drop_last() =~= row.take(k - 1 - start));
            assert(row.take(k - start).last() == row[k - 1 - start]);
        }
        assert(row.take(k - start) =~= row);
    }

    /// The table that copies `count` inputs.
    pub fn identity(count: usize) -> (r: StencilTable<S>)
        requires
            count <= u32::MAX,
        ensures
            r.packed(),
            r@ == identity_rows::<S>(count as nat),
    {
        let ghost rows = identity_rows::<S>(count as nat);
        let mut offsets: Vec<u32> = Vec::new();
        let mut indices: Vec<u32> = Vec::new();
        let mut weights: Vec<S> = Vec::new();
        offsets.push(0);
        let mut i: usize = 0;
        assert(rows.take(0) =~= Seq::<Seq<(u32, S)>>::empty());
        assert(indices@ =~= entry_indices(flat(rows.take(0))));
        assert(weights@ =~= entry_weights(flat(rows.take(0))));
        while i < count
            invariant
                i <= count <= u32::MAX,
                rows == identity_rows::<S>(count as nat),
                indices@ == entry_indices(flat(rows.take(i as int))),
                weights@ == entry_weights(flat(rows.take(i as int))),
                flat(rows.take(i as int)).len() == i,
                offsets@.len() == i + 1,
                forall|j: int| 0 <= j <= i ==> offsets@[j] == #[trigger] row_start(rows, j),
            decreases count - i,
        {
            proof {
                lemma_flat_take_next(rows, i as int);
            }
            indices.push(i as u32);
            weights.push(one::<S>());
            i += 1;
            offsets.push(i as u32);
            assert(indices@ =~= entry_indices(flat(rows.take(i as int))));
            assert(weights@ =~= entry_weights(flat(rows.take(i as int))));
        }
        assert(rows.take(i as int) =~= rows);
        let table = StencilTable { offsets, indices, weights };
        proof {
            lemma_packed_table(table, rows);
        }
        table
    }

    /// Packs rows into a table.
    pub fn from_rows(source: &[Vec<(u32, S)>]) -> (r: StencilTable<S>)
        ensures
            written_from(r, crate::rows::views(source@)),
    {
        let ghost rows = crate::rows::views(source@);
        let mut offsets: Vec<u32> = Vec::new();
        let mut indices: Vec<u32> = Vec::new();
        let mut weights: Vec<S> = Vec::new();
        offsets.push(0);
        let mut i: usize = 0;
        assert(rows.take(0) =~= Seq::<Seq<(u32, S)>>::empty());
        assert(indices@ =~= entry_indices(flat(rows.take(0))));
        assert(weights@ =~= entry_weights(flat(rows.take(0))));
        while i < source.len()
            invariant
                i <= source.len(),
                rows == crate::rows::views(source@),
                indices@ == entry_indices(flat(rows.take(i as int))),
                weights@ == entry_weights(flat(rows.take(i as int))),
                offsets@.len() == i + 1,
                flat(rows).len() <= u32::MAX ==> forall|j: int|
                    0 <= j <= i ==> offsets@[j] == #[trigger] row_start(rows, j),
            decreases source.len() - i,
        {
            proof {
                lemma_flat_take_next(rows, i as int);
                lemma_flat_row(rows, i as int);
            }
            push_entries(&mut indices, &mut weights, &source[i]);
            i += 1;
            offsets.push(indices.len() as u32);
            assert(indices@ =~= entry_indices(flat(rows.take(i as int))));
            assert(weights@ =~= entry_weights(flat(rows.take(i as int))));
        }
        assert(rows.take(i as int) =~= rows);
        let table = StencilTable { offsets, indices, weights };
        proof {
            if flat(rows).len() <= u32::MAX {
                lemma_packed_table(table, rows);
            }
        }
        table
    }
}

/// Appends the entries of a row to the two buffers of a table.
fn push_entries<S: Scalar>(indices: &mut Vec<u32>, weights: &mut Vec<S>, row: &[(u32, S)])
    ensures
        final(indices)@ == old(indices)@ + entry_indices(row@),
        final(weights)@ == old(weights)@ + entry_weights(row@),
{
    let mut k: usize = 0;
    assert(indices@ =~= old(indices)@ + entry_indices(row@.take(0)));
    assert(weights@ =~= old(weights)@ + entry_weights(row@.take(0)));
    while k < row.len()
        invariant
            k <= row.len(),
            indices@ == old(indices)@ + entry_indices(row@.take(k as int)),
            weights@ == old(weights)@ + entry_weights(row@.take(k as int)),
        decreases row.len() - k,
    {
        indices.push(row[k].0);
        weights.push(row[k].1);
        k += 1;
        assert(indices@ =~= old(indices)@ + entry_indices(row@.take(k as int)));
        assert(weights@ =~= old(weights)@ + entry_weights(row@.take(k as int)));
    }
    assert(row@.take(k as int) =~= row@);
}

/// Buffers that hold rows one after the other form a packed table of them.
pub proof fn lemma_packed_table<S: Scalar>(table: StencilTable<S>, rows: Seq<Seq<(u32, S)>>)
    requires
        table.offsets@.len() == rows.len() + 1,
        forall|j: int| 0 <= j <= rows.len() ==> table.offsets@[j] == #[trigger] row_start(rows, j),
        table.indices@ == entry_indices(flat(rows)),
        table.weights@ == entry_weights(flat(rows)),
    ensures
        table.packed(),
        table@ == rows,
{
    assert forall|i: int| 0 <= i < rows.len() implies table.offsets@[i] <= table.offsets@[i + 1]
        <= table.indices@.len() && #[trigger] table.row(i) == rows[i] by {
        lemma_flat_row(rows, i);
        assert(table.offsets@[i] == row_start(rows, i));
        assert(table.offsets@[i + 1] == row_start(rows, i + 1));
        let cut = flat(rows).subrange(row_start(rows, i), row_start(rows, i + 1));
        assert forall|k: int| 0 <= k < rows[i].len() implies table.row(i)[k] == rows[i][k] by {
            assert(cut[k] == flat(rows)[row_start(rows, i) + k]);
        }
        assert(table.row(i) =~= rows[i]);
    }
    assert forall|i: int| #![trigger table.offsets@[i]] 0 <= i < table.row_count() implies table.offsets@[i]
        <= table.offsets@[i + 1] <= table.indices@.len() && table.offsets@[i + 1]
        <= table.weights@.len() by {
        assert(table.row(i) == rows[i]);
    }
    assert(table@ =~= rows);
    assert(crate::rows::ints(table.offsets@) =~= crate::rows::row_starts(rows)) by {
        assert forall|j: int| 0 <= j <= rows.len() implies table.offsets@[j] == row_start(rows, j) by {}
    }
}

/// Two inputs that agree wherever a row looks give the same blend.
pub proof fn blend_reads_its_row_only<S: Scalar, T: Interpolatable<S>>(
    row: Seq<(u32, S)>,
    a: Seq<T>,
    b: Seq<T>,
)
    requires
        forall|k: int| 0 <= k < row.len() ==> a[(#[trigger] row[k]).0 as int] == b[row[k].0 as int],
    ensures
        blend::<S, T>(row, a) == blend::<S, T>(row, b),
    decreases row.len(),
{
    if row.len() > 0 {
        assert forall|k: int| 0 <= k < row.drop_last().len() implies a[(
        #[trigger] row.drop_last()[k]).0 as int] == b[row.drop_last()[k].0 as int] by {
            assert(row.drop_last()[k] == row[k]);
        }
        blend_reads_its_row_only::<S, T>(row.drop_last(), a, b);
        assert(a[row[row.len() - 1].0 as int] == b[row[row.len() - 1].0 as int]);
    }
}

/// An entry is in an accumulated row exactly if it was there or is the new one.
pub proof fn lemma_accumulated_mentions<S: Scalar>(row: Seq<(u32, S)>, index: u32, weight: S, x: u32)
    ensures
        mentions(accumulated(row, index, weight), x) <==> mentions(row, x) || x == index,
{
    let next = accumulated(row, index, weight);
    if exists|p: int| first_entry(row, index, p) {
        let p = choose|p: int| first_entry(row, index, p);
        assert forall|k: int| 0 <= k < row.len() implies (#[trigger] next[k]).0 == row[k].0 by {}
        if mentions(row, x) {
            let k = choose|k: int| 0 <= k < row.len() && (#[trigger] row[k]).0 == x;
            assert(next[k].0 == x);
        }
        if mentions(next, x) {
            let k = choose|k: int| 0 <= k < next.len() && (#[trigger] next[k]).0 == x;
            assert(row[k].0 == x);
        }
        assert(next[p].0 == index);
    } else {
        if mentions(row, x) {
            let k = choose|k: int| 0 <= k < row.len() && (#[trigger] row[k]).0 == x;
            assert(next[k].0 == x);
        }
        if mentions(next, x) && x != index {
            let k = choose|k: int| 0 <= k < next.len() && (#[trigger] next[k]).0 == x;
            assert(row[k].0 == x);
        }
        assert(next[row.len() as int].0 == index);
    }
}

pub proof fn lemma_merged_mentions<S: Scalar>(
    row: Seq<(u32, S)>,
    src: Seq<(u32, S)>,
    weight: S,
    x: u32,
)
    ensures
        mentions(merged(row, src, weight), x) <==> mentions(row, x) || mentions(src, x),
    decreases src.len(),
{
    if src.len() > 0 {
        let front = src.drop_last();
        lemma_merged_mentions(row, front, weight, x);
        lemma_accumulated_mentions(
            merged(row, front, weight),
            src.last().0,
            S::times_of(weight, src.last().1),
            x,
        );
        if mentions(front, x) {
            let k = choose|k: int| 0 <= k < front.len() && (#[trigger] front[k]).0 == x;
            assert(src[k].0 == x);
        }
        if mentions(src, x) && x != src.last().0 {
            let k = choose|k: int| 0 <= k < src.len() && (#[trigger] src[k]).0 == x;
            assert(front[k].0 == x);
        }
        assert(src[src.len() - 1].0 == src.last().0);
    }
}

/// A composed row reads exactly what the rows that it goes through read.
pub proof fn composed_row_reads<S: Scalar>(
    inner: Seq<Seq<(u32, S)>>,
    row: Seq<(u32, S)>,
    x: u32,
)
    ensures
        mentions(composed_row(inner, row), x) <==> exists|b: u32| #[trigger]
            mentions(row, b) && mentions(inner[b as int], x),
    decreases row.len(),
{
    if row.len() > 0 {
        let front = row.drop_last();
        composed_row_reads(inner, front, x);
        lemma_merged_mentions(
            composed_row(inner, front),
            inner[row.last().0 as int],
            row.last().1,
            x,
        );
        assert forall|b: u32| #[trigger] mentions(row, b) <==> mentions(front, b) || b == row.last().0 by {
            if mentions(front, b) {
                let k = choose|k: int| 0 <= k < front.len() && (#[trigger] front[k]).0 == b;
                assert(row[k].0 == b);
            }
            if mentions(row, b) && b != row.last().0 {
                let k = choose|k: int| 0 <= k < row.len() && (#[trigger] row[k]).0 == b;
                assert(front[k].0 == b);
            }
            assert(row[row.len() - 1].0 == row.last().0);
        }
        if exists|b: u32| #[trigger] mentions(front, b) && mentions(inner[b as int], x) {
            let b = choose|b: u32| #[trigger] mentions(front, b) && mentions(inner[b as int], x);
            assert(mentions(row, b));
        }
        assert(mentions(row, row.last().0));
        if exists|b: u32| #[trigger] mentions(row, b) && mentions(inner[b as int], x) {
            let b = choose|b: u32| #[trigger] mentions(row, b) && mentions(inner[b as int], x);
            assert(mentions(front, b) || b == row.last().0);
        }
    } else {
        assert(forall|b: u32| !mentions(row, b));
    }
}

pub proof fn lemma_below_mentions<S>(row: Seq<(u32, S)>, n: nat)
    ensures
        row_below(row, n) <==> forall|x: u32| #[trigger] mentions(row, x) ==> x < n,
{
    if forall|x: u32| #[trigger] mentions(row, x) ==> x < n {
        assert forall|k: int| 0 <= k < row.len() implies (#[trigger] row[k]).0 < n by {
            assert(mentions(row, row[k].0));
        }
    }
}

/// Merging rows below `n` gives a row below `n`.
pub proof fn lemma_merged_below<S: Scalar>(row: Seq<(u32, S)>, src: Seq<(u32, S)>, weight: S, n: nat)
    requires
        row_below(row, n),
        row_below(src, n),
    ensures
        row_below(merged(row, src, weight), n),
{
    let next = merged(row, src, weight);
    assert forall|x: u32| #[trigger] mentions(next, x) implies x < n by {
        lemma_merged_mentions(row, src, weight, x);
        lemma_below_mentions(row, n);
        lemma_below_mentions(src, n);
    }
    lemma_below_mentions(next, n);
}

/// Two rows blended: `1 - share` of the one and `share` of the other.
pub open spec fn mixed<S: Scalar>(a: Seq<(u32, S)>, b: Seq<(u32, S)>, share: S) -> Seq<(u32, S)> {
    merged(merged(Seq::empty(), a, S::minus_of(one_of(), share)), b, share)
}

pub proof fn lemma_mixed_below<S: Scalar>(a: Seq<(u32, S)>, b: Seq<(u32, S)>, share: S, n: nat)
    requires
        row_below(a, n),
        row_below(b, n),
    ensures
        row_below(mixed(a, b, share), n),
{
    lemma_merged_below(Seq::empty(), a, S::minus_of(one_of(), share), n);
    lemma_merged_below(merged(Seq::empty(), a, S::minus_of(one_of(), share)), b, share, n);
}

/// Two rows blended: `1 - share` of the one and `share` of the other.
pub fn mix<S: Scalar>(a: &[(u32, S)], b: &[(u32, S)], share: S) -> (r: Vec<(u32, S)>)
    ensures
        r@ == mixed(a@, b@, share),
{
    let mut out: Vec<(u32, S)> = Vec::new();
    merge(&mut out, a, one::<S>().minus(share));
    merge(&mut out, b, share);
    out
}

/// The row that copies input `index`.
pub open spec fn identity_row<S: Scalar>(index: u32) -> Seq<(u32, S)> {
    seq![(index, one_of::<S>())]
}

pub fn identity_entry<S: Scalar>(index: u32) -> (r: Vec<(u32, S)>)
    ensures
        r@ == identity_row::<S>(index),
{
    let mut out: Vec<(u32, S)> = Vec::new();
    out.push((index, one()));
    assert(out@ =~= identity_row::<S>(index));
    out
}

} // verus!
