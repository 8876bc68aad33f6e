//! What holds of stencil tables and of their inverses, whatever the numbers.

use crate::hashing::strictly_ascending;
use crate::interpolate::Interpolatable;
use crate::inverse::{
    chain_fits, chain_listed, chain_listed_is_reached, chain_reached, chain_values, chain_width, listed_is_reached,
    reached, table_rows, unreached_chain_outputs_keep_their_value, InverseStencilChain, InverseStencilMap,
};
use crate::linear::{one_changes_nothing, one_is_neutral, times_commutes};
use crate::output::RefinementResult;
use crate::scalar::{one_of, Scalar};
use crate::stencil::{
    accumulated, blend, blend_all, composed, composed_row, composed_row_reads, first_entry, identity_rows, mentions,
    merged, row_below, rows_below, StencilTable,
};
use vstd::prelude::*;

verus! {

// ---------------------------------------------------------------------------
// Composition
// ---------------------------------------------------------------------------
/// No input occurs twice in a row.
pub open spec fn reads_once<S>(row: Seq<(u32, S)>) -> bool {
    forall|j: int, k: int|
        0 <= j < row.len() && 0 <= k < row.len() && j != k ==> (#[trigger] row[j]).0 != (#[trigger] row[k]).0
}

/// An accumulated row reads each input once if the row does.
pub proof fn accumulated_rows_read_once<S: Scalar>(row: Seq<(u32, S)>, index: u32, weight: S)
    requires
        reads_once(row),
    ensures
        reads_once(accumulated(row, index, weight)),
{
    let next = accumulated(row, index, weight);
    if exists|p: int| first_entry(row, index, p) {
        assert forall|k: int| 0 <= k < row.len() implies (#[trigger] next[k]).0 == row[k].0 by {}
    } else {
        assert forall|k: int| 0 <= k < row.len() implies (#[trigger] row[k]).0 != index by {
            if row[k].0 == index {
                lemma_first_entry(row, index, k);
            }
        }
    }
}

/// Where an entry is, there is a first one.
proof fn lemma_first_entry<S>(row: Seq<(u32, S)>, index: u32, k: int)
    requires
        0 <= k < row.len(),
        row[k].0 == index,
    ensures
        exists|p: int| first_entry(row, index, p),
    decreases k,
{
    if exists|q: int| 0 <= q < k && (#[trigger] row[q]).0 == index {
        let q = choose|q: int| 0 <= q < k && (#[trigger] row[q]).0 == index;
        lemma_first_entry(row, index, q);
    } else {
        assert(first_entry(row, index, k));
    }
}

/// A merged row reads each input once if the row does that it is merged into.
pub proof fn merged_rows_read_once<S: Scalar>(row: Seq<(u32, S)>, src: Seq<(u32, S)>, weight: S)
    requires
        reads_once(row),
    ensures
        reads_once(merged(row, src, weight)),
    decreases src.len(),
{
    if src.len() > 0 {
        merged_rows_read_once(row, src.drop_last(), weight);
        accumulated_rows_read_once(
            merged(row, src.drop_last(), weight),
            src.last().0,
            S::times_of(weight, src.last().1),
        );
    }
}

/// No input occurs twice in a row of a composed table.
pub proof fn composed_rows_read_once<S: Scalar>(inner: Seq<Seq<(u32, S)>>, row: Seq<(u32, S)>)
    ensures
        reads_once(composed_row(inner, row)),
    decreases row.len(),
{
    if row.len() > 0 {
        composed_rows_read_once(inner, row.drop_last());
        merged_rows_read_once(composed_row(inner, row.drop_last()), inner[row.last().0 as int], row.last().1);
    }
}

/// A composed table has the outputs of the outer one, and reads only what the
/// inner one reads.
pub proof fn composed_tables_fit<S: Scalar>(inner: Seq<Seq<(u32, S)>>, outer: Seq<Seq<(u32, S)>>, n: nat)
    requires
        rows_below(inner, n),
        rows_below(outer, inner.len()),
    ensures
        composed(inner, outer).len() == outer.len(),
        rows_below(composed(inner, outer), n),
{
    let all = composed(inner, outer);
    assert forall|i: int| 0 <= i < all.len() implies row_below(#[trigger] all[i], n) by {
        assert(row_below(outer[i], inner.len()));
        assert forall|k: int| 0 <= k < all[i].len() implies (#[trigger] all[i][k]).0 < n by {
            let x = all[i][k].0;
            assert(mentions(all[i], x));
            composed_row_reads(inner, outer[i], x);
            let b = choose|b: u32| #[trigger] mentions(outer[i], b) && mentions(inner[b as int], x);
            let j = choose|j: int| 0 <= j < outer[i].len() && (#[trigger] outer[i][j]).0 == b;
            assert(outer[i][j].0 < inner.len());
            assert(row_below(inner[b as int], n));
            let m = choose|m: int| 0 <= m < inner[b as int].len() && (#[trigger] inner[b as int][m]).0 == x;
            assert(inner[b as int][m].0 < n);
        }
    }
}

// ---------------------------------------------------------------------------
// Identity
// ---------------------------------------------------------------------------
/// The identity table leaves values alone, where a move from the origin by weight
/// one leads to the value.
pub proof fn identity_leaves_values_alone<S: Scalar, T: Interpolatable<S>>(input: Seq<T>)
    requires
        one_is_neutral::<S, T>(),
        input.len() <= u32::MAX,
    ensures
        blend_all::<S, T>(identity_rows::<S>(input.len()), input) == input,
{
    reveal(one_is_neutral);
    let rows = identity_rows::<S>(input.len());
    let out = blend_all::<S, T>(rows, input);
    assert forall|i: int| 0 <= i < input.len() implies out[i] == input[i] by {
        assert(rows[i].drop_last() =~= Seq::<(u32, S)>::empty());
        assert(blend::<S, T>(rows[i].drop_last(), input) == T::origin_of());
        assert(T::origin_of().moved(input[i], one_of::<S>()) == input[i]);
    }
    assert(out =~= input);
}

/// A table after the identity table is that table, where no input occurs twice in
/// its rows and a weight times one is that weight.
pub proof fn identity_before_a_table_changes_nothing<S: Scalar>(rows: Seq<Seq<(u32, S)>>, n: nat)
    requires
        one_changes_nothing::<S>(),
        n <= u32::MAX,
        rows_below(rows, n),
        forall|i: int| 0 <= i < rows.len() ==> reads_once(#[trigger] rows[i]),
    ensures
        composed(identity_rows::<S>(n), rows) == rows,
{
    let all = composed(identity_rows::<S>(n), rows);
    assert forall|i: int| 0 <= i < rows.len() implies all[i] == rows[i] by {
        assert(row_below(rows[i], n));
        assert(reads_once(rows[i]));
        lemma_identity_row_before(rows[i], n);
    }
    assert(all =~= rows);
}

proof fn lemma_identity_row_before<S: Scalar>(row: Seq<(u32, S)>, n: nat)
    requires
        one_changes_nothing::<S>(),
        n <= u32::MAX,
        row_below(row, n),
        reads_once(row),
    ensures
        composed_row(identity_rows::<S>(n), row) == row,
    decreases row.len(),
{
    let inner = identity_rows::<S>(n);
    if row.len() > 0 {
        let front = row.drop_last();
        let (i, w) = row.last();
        assert forall|k: int| 0 <= k < front.len() implies (#[trigger] front[k]).0 < n && front[k].0 != i by {
            assert(front[k] == row[k]);
            assert(row[k].0 != row[row.len() - 1].0);
        }
        assert forall|j: int, k: int|
            0 <= j < front.len() && 0 <= k < front.len() && j != k implies (#[trigger] front[j]).0 != (
        #[trigger] front[k]).0 by {
            assert(row[j].0 != row[k].0);
        }
        lemma_identity_row_before(front, n);
        assert(row[row.len() - 1].0 < n);
        let src = inner[i as int];
        assert(src.drop_last() =~= Seq::<(u32, S)>::empty());
        assert(merged(front, src.drop_last(), w) == front);
        assert(S::times_of(w, one_of::<S>()) == w) by {
            reveal(one_changes_nothing);
        }
        if exists|p: int| first_entry(front, i, p) {
            let p = choose|p: int| first_entry(front, i, p);
            assert(front[p].0 != i);
        }
        assert(front.push((i, w)) =~= row);
    } else {
        assert(composed_row(inner, row) =~= row);
    }
}

/// The identity table after a table is that table, under the same conditions.
pub proof fn identity_after_a_table_changes_nothing<S: Scalar>(rows: Seq<Seq<(u32, S)>>)
    requires
        one_changes_nothing::<S>(),
        times_commutes::<S>(),
        rows.len() <= u32::MAX,
        forall|i: int| 0 <= i < rows.len() ==> reads_once(#[trigger] rows[i]),
    ensures
        composed(rows, identity_rows::<S>(rows.len())) == rows,
{
    let outer = identity_rows::<S>(rows.len());
    let all = composed(rows, outer);
    assert forall|i: int| 0 <= i < rows.len() implies all[i] == rows[i] by {
        assert(reads_once(rows[i]));
        let row = outer[i];
        assert(row.drop_last() =~= Seq::<(u32, S)>::empty());
        assert(composed_row(rows, row.drop_last()) =~= Seq::<(u32, S)>::empty());
        lemma_copied_row(rows[i]);
    }
    assert(all =~= rows);
}

proof fn lemma_copied_row<S: Scalar>(row: Seq<(u32, S)>)
    requires
        one_changes_nothing::<S>(),
        times_commutes::<S>(),
        reads_once(row),
    ensures
        merged(Seq::empty(), row, one_of::<S>()) == row,
    decreases row.len(),
{
    if row.len() > 0 {
        let front = row.drop_last();
        let (i, w) = row.last();
        assert forall|k: int| 0 <= k < front.len() implies (#[trigger] front[k]).0 != i by {
            assert(row[k].0 != row[row.len() - 1].0);
        }
        assert forall|j: int, k: int|
            0 <= j < front.len() && 0 <= k < front.len() && j != k implies (#[trigger] front[j]).0 != (
        #[trigger] front[k]).0 by {
            assert(row[j].0 != row[k].0);
        }
        lemma_copied_row(front);
        assert(S::times_of(one_of::<S>(), w) == w) by {
            reveal(one_changes_nothing);
            reveal(times_commutes);
            assert(S::times_of(w, one_of::<S>()) == w);
        }
        if exists|p: int| first_entry(front, i, p) {
            let p = choose|p: int| first_entry(front, i, p);
            assert(front[p].0 != i);
        }
        assert(front.push((i, w)) =~= row);
    } else {
        assert(merged(Seq::empty(), row, one_of::<S>()) =~= row);
    }
}

// ---------------------------------------------------------------------------
// Inverses
// ---------------------------------------------------------------------------
/// What the inverse of a table answers are exactly the rows that read a changed
/// input.
pub proof fn affected_outputs_read_a_change<S>(
    map: InverseStencilMap,
    rows: Seq<Seq<(u32, S)>>,
    changed: Seq<u32>,
    answer: Seq<u32>,
    row: u32,
)
    requires
        map.inverts(rows),
        strictly_ascending(answer),
        answer.to_set() == map.listed(changed.to_set()),
    ensures
        answer.contains(row) <==> row < rows.len() && exists|k: int|
            0 <= k < rows[row as int].len() && changed.contains((#[trigger] rows[row as int][k]).0),
{
    listed_is_reached(map, rows, changed.to_set());
    let set = reached(rows, changed.to_set());
    assert(answer.contains(row) <==> answer.to_set().contains(row));
    if set.contains(row) {
        let i = choose|i: u32| #[trigger] changed.to_set().contains(i) && mentions(rows[row as int], i);
        let k = choose|k: int| 0 <= k < rows[row as int].len() && (#[trigger] rows[row as int][k]).0 == i;
        assert(changed.contains(rows[row as int][k].0));
    }
    if row < rows.len() && exists|k: int|
        0 <= k < rows[row as int].len() && changed.contains((#[trigger] rows[row as int][k]).0) {
        let k = choose|k: int|
            0 <= k < rows[row as int].len() && changed.contains((#[trigger] rows[row as int][k]).0);
        let i = rows[row as int][k].0;
        assert(mentions(rows[row as int], i));
        assert(changed.to_set().contains(i));
    }
}

/// The inverse of a table depends on which inputs its rows read, not on the
/// weights.
pub proof fn inverses_ignore_weights<S: Scalar>(
    a: StencilTable<S>,
    b: StencilTable<S>,
    x: InverseStencilMap,
    y: InverseStencilMap,
    changed: Set<u32>,
)
    requires
        a.offsets@ == b.offsets@,
        a.indices@ == b.indices@,
        x.inverts(a@),
        y.inverts(b@),
    ensures
        x.outputs() == y.outputs(),
        x.listed(changed) == y.listed(changed),
{
    assert forall|i: u32, row: u32| row < a@.len() implies #[trigger] mentions(a@[row as int], i) == mentions(
        b@[row as int],
        i,
    ) by {
        let p = a@[row as int];
        let q = b@[row as int];
        assert(p.len() == q.len());
        assert forall|k: int| 0 <= k < p.len() implies (#[trigger] p[k]).0 == (#[trigger] q[k]).0 by {}
        if mentions(p, i) {
            let k = choose|k: int| 0 <= k < p.len() && (#[trigger] p[k]).0 == i;
            assert(q[k].0 == i);
        }
        if mentions(q, i) {
            let k = choose|k: int| 0 <= k < q.len() && (#[trigger] q[k]).0 == i;
            assert(p[k].0 == i);
        }
    }
    assert forall|row: u32| x.listed(changed).contains(row) <==> y.listed(changed).contains(row) by {
        if x.listed(changed).contains(row) {
            let i = choose|i: u32| #[trigger] changed.contains(i) && x.lists_output(i, row);
            assert(mentions(a@[row as int], i));
            assert(y.lists_output(i, row));
        }
        if y.listed(changed).contains(row) {
            let i = choose|i: u32| #[trigger] changed.contains(i) && y.lists_output(i, row);
            assert(mentions(a@[row as int], i));
            assert(x.lists_output(i, row));
        }
    }
    assert(x.listed(changed) =~= y.listed(changed));
}

/// The tables of a chain composed, the first of them first.
pub open spec fn composed_in_turn<S: Scalar>(levels: Seq<Seq<Seq<(u32, S)>>>) -> Seq<Seq<(u32, S)>>
    decreases levels.len(),
{
    if levels.len() <= 1 {
        levels[0]
    } else {
        composed(composed_in_turn(levels.drop_last()), levels.last())
    }
}

/// What a change reaches along a chain of tables is what it reaches through the
/// tables composed.
pub proof fn chains_reach_what_composed_tables_reach<S: Scalar>(
    levels: Seq<Seq<Seq<(u32, S)>>>,
    n: nat,
    changed: Set<u32>,
)
    requires
        levels.len() > 0,
        chain_fits(levels, n),
    ensures
        chain_reached(levels, changed) == reached(composed_in_turn(levels), changed),
        composed_in_turn(levels).len() == chain_width(levels, n),
    decreases levels.len(),
{
    let front = levels.drop_last();
    if levels.len() == 1 {
        assert(chain_reached(front, changed) == changed);
    } else {
        chains_reach_what_composed_tables_reach(front, n, changed);
        let inner = composed_in_turn(front);
        let outer = levels.last();
        lemma_reached_in_turn(inner, outer, changed);
    }
}

/// What two tables reach one after the other is what they reach composed.
proof fn lemma_reached_in_turn<S: Scalar>(
    inner: Seq<Seq<(u32, S)>>,
    outer: Seq<Seq<(u32, S)>>,
    changed: Set<u32>,
)
    requires
        rows_below(outer, inner.len()),
    ensures
        reached(outer, reached(inner, changed)) == reached(composed(inner, outer), changed),
{
    let whole = composed(inner, outer);
    let mid = reached(inner, changed);
    assert forall|row: u32| reached(outer, mid).contains(row) <==> reached(whole, changed).contains(row) by {
        if row < outer.len() {
            let line = outer[row as int];
            assert(row_below(line, inner.len()));
            assert(whole[row as int] == composed_row(inner, line));
            if reached(outer, mid).contains(row) {
                let b = choose|b: u32| #[trigger] mid.contains(b) && mentions(line, b);
                let i = choose|i: u32| #[trigger] changed.contains(i) && mentions(inner[b as int], i);
                composed_row_reads(inner, line, i);
                assert(mentions(whole[row as int], i));
            }
            if reached(whole, changed).contains(row) {
                let i = choose|i: u32| #[trigger] changed.contains(i) && mentions(whole[row as int], i);
                composed_row_reads(inner, line, i);
                let b = choose|b: u32| #[trigger] mentions(line, b) && mentions(inner[b as int], i);
                let k = choose|k: int| 0 <= k < line.len() && (#[trigger] line[k]).0 == b;
                assert(line[k].0 < inner.len());
                assert(reached(inner, changed).contains(b));
            }
        }
    }
    assert(reached(outer, mid) =~= reached(whole, changed));
}

/// The inverses of a chain of tables answer what the inverse of the tables
/// composed answers.
pub proof fn inverse_chains_answer_as_one<S: Scalar>(
    chain: InverseStencilChain,
    tables: Seq<StencilTable<S>>,
    whole: InverseStencilMap,
    n: nat,
    changed: Set<u32>,
)
    requires
        tables.len() > 0,
        chain.inverts(tables),
        chain_fits(table_rows(tables), n),
        whole.inverts(composed_in_turn(table_rows(tables))),
    ensures
        chain_listed(chain.maps(), changed) == whole.listed(changed),
        whole.outputs() == tables.last()@.len(),
{
    let levels = table_rows(tables);
    chain_listed_is_reached(chain, tables, changed);
    chains_reach_what_composed_tables_reach(levels, n, changed);
    listed_is_reached(whole, composed_in_turn(levels), changed);
    assert(levels.last() == tables.last()@);
}

/// Refined vertices that are not among the affected ones keep their value when the
/// changed vertices get other values.
pub proof fn unaffected_vertices_keep_their_value<S: Scalar, T: Interpolatable<S>>(
    result: RefinementResult<S>,
    changed: Seq<u32>,
    affected: Seq<u32>,
    before: Seq<T>,
    after: Seq<T>,
    v: u32,
)
    requires
        chain_fits(table_rows(result.level_stencils@), before.len()),
        affected.to_set() == chain_reached(table_rows(result.level_stencils@), changed.to_set()),
        before.len() == after.len(),
        forall|i: u32| i < before.len() && !changed.contains(i) ==> before[i as int] == after[i as int],
        v < chain_width(table_rows(result.level_stencils@), before.len()),
        !affected.contains(v),
    ensures
        chain_values::<S, T>(table_rows(result.level_stencils@), before)[v as int] == chain_values::<S, T>(
            table_rows(result.level_stencils@),
            after,
        )[v as int],
{
    let levels = table_rows(result.level_stencils@);
    assert(!affected.to_set().contains(v));
    assert forall|i: u32| i < before.len() && !changed.to_set().contains(i) implies before[i as int]
        == after[i as int] by {}
    unreached_chain_outputs_keep_their_value::<S, T>(levels, changed.to_set(), before, after, v);
}

} // verus!
