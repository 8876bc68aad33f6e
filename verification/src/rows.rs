//! Lists of lists, and how they lie one after the other in a flat buffer.

use vstd::prelude::*;

verus! {

/// The entries of all rows, one row after the other.
pub open spec fn flat<A>(rows: Seq<Seq<A>>) -> Seq<A>
    decreases rows.len(),
{
    if rows.len() == 0 {
        Seq::empty()
    } else {
        flat(rows.drop_last()) + rows.last()
    }
}

/// Where row `i` starts in the flat buffer.
pub open spec fn row_start<A>(rows: Seq<Seq<A>>, i: int) -> int {
    flat(rows.take(i)).len() as int
}

/// Start of each row, and the total length as last entry.
pub open spec fn row_starts<A>(rows: Seq<Seq<A>>) -> Seq<int> {
    Seq::new(rows.len() + 1, |i: int| row_start(rows, i))
}

/// The views of a list of vectors.
pub open spec fn views<A>(rows: Seq<Vec<A>>) -> Seq<Seq<A>> {
    rows.map_values(|r: Vec<A>| r@)
}

/// An offset buffer as mathematical integers.
pub open spec fn ints(offsets: Seq<u32>) -> Seq<int> {
    offsets.map_values(|o: u32| o as int)
}

pub proof fn lemma_flat_push<A>(rows: Seq<Seq<A>>, row: Seq<A>)
    ensures
        flat(rows.push(row)) == flat(rows) + row,
{
    assert(rows.push(row).drop_last() =~= rows);
}

pub proof fn lemma_flat_take_next<A>(rows: Seq<Seq<A>>, i: int)
    requires
        0 <= i < rows.len(),
    ensures
        flat(rows.take(i + 1)) == flat(rows.take(i)) + rows[i],
        row_start(rows, i + 1) == row_start(rows, i) + rows[i].len(),
{
    assert(rows.take(i + 1) =~= rows.take(i).push(rows[i]));
    lemma_flat_push(rows.take(i), rows[i]);
}

pub proof fn lemma_row_start_monotone<A>(rows: Seq<Seq<A>>, i: int, j: int)
    requires
        0 <= i <= j <= rows.len(),
    ensures
        row_start(rows, i) <= row_start(rows, j),
    decreases j - i,
{
    if i < j {
        lemma_row_start_monotone(rows, i, j - 1);
        lemma_flat_take_next(rows, j - 1);
    }
}

/// The flat buffer of a prefix of the rows is a prefix of the flat buffer.
pub proof fn lemma_flat_prefix<A>(rows: Seq<Seq<A>>, i: int)
    requires
        0 <= i <= rows.len(),
    ensures
        row_start(rows, i) <= flat(rows).len(),
        flat(rows).take(row_start(rows, i)) == flat(rows.take(i)),
    decreases rows.len() - i,
{
    if i == rows.len() {
        assert(rows.take(i) =~= rows);
        assert(flat(rows).take(row_start(rows, i)) =~= flat(rows));
    } else {
        lemma_flat_prefix(rows, i + 1);
        lemma_flat_take_next(rows, i);
        assert(flat(rows).take(row_start(rows, i)) =~= flat(rows).take(row_start(rows, i + 1)).take(
            row_start(rows, i),
        ));
        assert(flat(rows.take(i + 1)).take(row_start(rows, i)) =~= flat(rows.take(i)));
    }
}

/// Each row is found again in the flat buffer, from its start on.
pub proof fn lemma_flat_row<A>(rows: Seq<Seq<A>>, i: int)
    requires
        0 <= i < rows.len(),
    ensures
        0 <= row_start(rows, i) <= row_start(rows, i + 1) <= flat(rows).len(),
        row_start(rows, i + 1) == row_start(rows, i) + rows[i].len(),
        flat(rows).subrange(row_start(rows, i), row_start(rows, i + 1)) == rows[i],
{
    lemma_flat_prefix(rows, i + 1);
    lemma_flat_take_next(rows, i);
    assert(flat(rows).subrange(row_start(rows, i), row_start(rows, i + 1)) =~= flat(rows).take(
        row_start(rows, i + 1),
    ).subrange(row_start(rows, i), row_start(rows, i + 1)));
    assert(flat(rows.take(i + 1)).subrange(row_start(rows, i), row_start(rows, i + 1)) =~= rows[i]);
}

/// Appending one entry to one row lengthens the flat buffer by one.
pub proof fn lemma_flat_len_grow<A>(rows: Seq<Seq<A>>, i: int, x: A)
    requires
        0 <= i < rows.len(),
    ensures
        flat(rows.update(i, rows[i].push(x))).len() == flat(rows).len() + 1,
    decreases rows.len(),
{
    let next = rows.update(i, rows[i].push(x));
    if i == rows.len() - 1 {
        assert(next.drop_last() =~= rows.drop_last());
    } else {
        lemma_flat_len_grow(rows.drop_last(), i, x);
        assert(next.drop_last() =~= rows.drop_last().update(i, rows[i].push(x)));
    }
}

pub proof fn lemma_flat_empty_rows<A>(rows: Seq<Seq<A>>)
    requires
        forall|i: int| 0 <= i < rows.len() ==> (#[trigger] rows[i]).len() == 0,
    ensures
        flat(rows) == Seq::<A>::empty(),
    decreases rows.len(),
{
    if rows.len() > 0 {
        lemma_flat_empty_rows(rows.drop_last());
        assert(rows.last().len() == 0);
        assert(flat(rows) =~= Seq::<A>::empty());
    }
}

} // verus!
