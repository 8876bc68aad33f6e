//! What holds of stencils where arithmetic does not round.

use crate::interpolate::Interpolatable;
use crate::inverse::{chain_composed, chain_fits, chain_values, chain_width};
use crate::scalar::{one_of, zero_of, Scalar};
use crate::stencil::{
    accumulated, blend, blend_all, composed, composed_row, first_entry, identity_rows, merged, row_below, rows_below,
};
use vstd::prelude::*;

verus! {

/// The order of two moves does not matter.
#[verifier::opaque]
pub open spec fn moves_commute<S: Scalar, T: Interpolatable<S>>() -> bool {
    forall|x: T, a: T, b: T, v: S, w: S|
        #![trigger x.moved(a, v).moved(b, w)]
        x.moved(a, v).moved(b, w) == x.moved(b, w).moved(a, v)
}

/// Two moves by one value are one by the sum of the weights.
#[verifier::opaque]
pub open spec fn moves_add_up<S: Scalar, T: Interpolatable<S>>() -> bool {
    forall|x: T, a: T, v: S, w: S|
        #![trigger x.moved(a, S::plus_of(v, w))]
        x.moved(a, S::plus_of(v, w)) == x.moved(a, v).moved(a, w)
}

/// A move by a moved value is two moves.
#[verifier::opaque]
pub open spec fn moves_distribute<S: Scalar, T: Interpolatable<S>>() -> bool {
    forall|x: T, y: T, a: T, v: S, w: S|
        #![trigger x.moved(y.moved(a, v), w)]
        x.moved(y.moved(a, v), w) == x.moved(y, w).moved(a, S::times_of(w, v))
}

/// A move by the origin is none.
#[verifier::opaque]
pub open spec fn origin_is_neutral<S: Scalar, T: Interpolatable<S>>() -> bool {
    forall|x: T, w: S| #[trigger] x.moved(T::origin_of(), w) == x
}

/// A move from the origin by weight one leads to the value.
#[verifier::opaque]
pub open spec fn one_is_neutral<S: Scalar, T: Interpolatable<S>>() -> bool {
    forall|a: T| #[trigger] T::origin_of().moved(a, one_of::<S>()) == a
}

/// Values move as in a vector space over the weights.
pub open spec fn moves_exactly<S: Scalar, T: Interpolatable<S>>() -> bool {
    &&& moves_commute::<S, T>()
    &&& moves_add_up::<S, T>()
    &&& moves_distribute::<S, T>()
    &&& origin_is_neutral::<S, T>()
    &&& one_is_neutral::<S, T>()
}

#[verifier::opaque]
pub open spec fn plus_commutes<S: Scalar>() -> bool {
    forall|a: S, b: S| #[trigger] S::plus_of(a, b) == S::plus_of(b, a)
}

#[verifier::opaque]
pub open spec fn plus_associates<S: Scalar>() -> bool {
    forall|a: S, b: S, c: S|
        #![trigger S::plus_of(S::plus_of(a, b), c)]
        S::plus_of(S::plus_of(a, b), c) == S::plus_of(a, S::plus_of(b, c))
}

#[verifier::opaque]
pub open spec fn zero_adds_nothing<S: Scalar>() -> bool {
    forall|a: S| #[trigger] S::plus_of(a, zero_of::<S>()) == a
}

#[verifier::opaque]
pub open spec fn times_commutes<S: Scalar>() -> bool {
    forall|a: S, b: S| #[trigger] S::times_of(a, b) == S::times_of(b, a)
}

#[verifier::opaque]
pub open spec fn times_associates<S: Scalar>() -> bool {
    forall|a: S, b: S, c: S|
        #![trigger S::times_of(S::times_of(a, b), c)]
        S::times_of(S::times_of(a, b), c) == S::times_of(a, S::times_of(b, c))
}

#[verifier::opaque]
pub open spec fn one_changes_nothing<S: Scalar>() -> bool {
    forall|a: S| #[trigger] S::times_of(a, one_of::<S>()) == a
}

#[verifier::opaque]
pub open spec fn zero_leaves_nothing<S: Scalar>() -> bool {
    forall|a: S| #[trigger] S::times_of(a, zero_of::<S>()) == zero_of::<S>()
}

#[verifier::opaque]
pub open spec fn times_distributes<S: Scalar>() -> bool {
    forall|a: S, b: S, c: S|
        #![trigger S::times_of(S::plus_of(a, b), c)]
        S::times_of(S::plus_of(a, b), c) == S::plus_of(S::times_of(a, c), S::times_of(b, c))
}

/// The weights are a commutative semiring.
pub open spec fn adds_exactly<S: Scalar>() -> bool {
    &&& plus_commutes::<S>()
    &&& plus_associates::<S>()
    &&& zero_adds_nothing::<S>()
    &&& times_commutes::<S>()
    &&& times_associates::<S>()
    &&& one_changes_nothing::<S>()
    &&& zero_leaves_nothing::<S>()
    &&& times_distributes::<S>()
}

proof fn plus_swap<S: Scalar>(a: S, b: S)
    requires
        plus_commutes::<S>(),
    ensures
        S::plus_of(a, b) == S::plus_of(b, a),
{
    reveal(plus_commutes);
}

proof fn plus_regroup<S: Scalar>(a: S, b: S, c: S)
    requires
        plus_associates::<S>(),
    ensures
        S::plus_of(S::plus_of(a, b), c) == S::plus_of(a, S::plus_of(b, c)),
{
    reveal(plus_associates);
}

proof fn times_swap<S: Scalar>(a: S, b: S)
    requires
        times_commutes::<S>(),
    ensures
        S::times_of(a, b) == S::times_of(b, a),
{
    reveal(times_commutes);
}

proof fn times_regroup<S: Scalar>(a: S, b: S, c: S)
    requires
        times_associates::<S>(),
    ensures
        S::times_of(S::times_of(a, b), c) == S::times_of(a, S::times_of(b, c)),
{
    reveal(times_associates);
}

proof fn times_spread<S: Scalar>(a: S, b: S, c: S)
    requires
        times_distributes::<S>(),
    ensures
        S::times_of(S::plus_of(a, b), c) == S::plus_of(S::times_of(a, c), S::times_of(b, c)),
{
    reveal(times_distributes);
}

/// Numbers move exactly where they add and multiply exactly.
pub proof fn exact_numbers_move_exactly<S: Scalar>()
    requires
        adds_exactly::<S>(),
    ensures
        moves_exactly::<S, S>(),
{
    assert(moves_commute::<S, S>()) by {
        reveal(moves_commute);
        assert forall|x: S, a: S, b: S, v: S, w: S|
            #![trigger x.moved(a, v).moved(b, w)]
            x.moved(a, v).moved(b, w) == x.moved(b, w).moved(a, v) by {
            let p = S::times_of(a, v);
            let q = S::times_of(b, w);
            plus_regroup(x, p, q);
            plus_regroup(x, q, p);
            plus_swap(p, q);
        }
    }
    assert(moves_add_up::<S, S>()) by {
        reveal(moves_add_up);
        assert forall|x: S, a: S, v: S, w: S|
            #![trigger x.moved(a, S::plus_of(v, w))]
            x.moved(a, S::plus_of(v, w)) == x.moved(a, v).moved(a, w) by {
            times_swap(a, S::plus_of(v, w));
            times_spread(v, w, a);
            times_swap(v, a);
            times_swap(w, a);
            plus_regroup(x, S::times_of(a, v), S::times_of(a, w));
        }
    }
    assert(moves_distribute::<S, S>()) by {
        reveal(moves_distribute);
        assert forall|x: S, y: S, a: S, v: S, w: S|
            #![trigger x.moved(y.moved(a, v), w)]
            x.moved(y.moved(a, v), w) == x.moved(y, w).moved(a, S::times_of(w, v)) by {
            let p = S::times_of(a, v);
            times_spread(y, p, w);
            times_regroup(a, v, w);
            times_swap(v, w);
            plus_regroup(x, S::times_of(y, w), S::times_of(p, w));
        }
    }
    let nought = <S as Interpolatable<S>>::origin_of();
    assert(origin_is_neutral::<S, S>()) by {
        reveal(origin_is_neutral);
        assert forall|x: S, w: S| #[trigger] x.moved(nought, w) == x by {
            times_swap(nought, w);
            assert(S::times_of(w, zero_of::<S>()) == zero_of::<S>()) by {
                reveal(zero_leaves_nothing);
            }
            assert(S::plus_of(x, zero_of::<S>()) == x) by {
                reveal(zero_adds_nothing);
            }
        }
    }
    assert(one_is_neutral::<S, S>()) by {
        reveal(one_is_neutral);
        assert forall|a: S| #[trigger] nought.moved(a, one_of::<S>()) == a by {
            assert(S::times_of(a, one_of::<S>()) == a) by {
                reveal(one_changes_nothing);
            }
            plus_swap(zero_of::<S>(), a);
            assert(S::plus_of(a, zero_of::<S>()) == a) by {
                reveal(zero_adds_nothing);
            }
        }
    }
}

proof fn move_swap<S: Scalar, T: Interpolatable<S>>(x: T, a: T, v: S, b: T, w: S)
    requires
        moves_commute::<S, T>(),
    ensures
        x.moved(a, v).moved(b, w) == x.moved(b, w).moved(a, v),
{
    reveal(moves_commute);
}

proof fn move_sum<S: Scalar, T: Interpolatable<S>>(x: T, a: T, v: S, w: S)
    requires
        moves_add_up::<S, T>(),
    ensures
        x.moved(a, S::plus_of(v, w)) == x.moved(a, v).moved(a, w),
{
    reveal(moves_add_up);
}

proof fn move_spread<S: Scalar, T: Interpolatable<S>>(x: T, y: T, a: T, v: S, w: S)
    requires
        moves_distribute::<S, T>(),
    ensures
        x.moved(y.moved(a, v), w) == x.moved(y, w).moved(a, S::times_of(w, v)),
{
    reveal(moves_distribute);
}

/// To accumulate a weight is to move by it.
proof fn lemma_accumulated<S: Scalar, T: Interpolatable<S>>(row: Seq<(u32, S)>, input: Seq<T>, i: u32, w: S)
    requires
        moves_exactly::<S, T>(),
    ensures
        blend::<S, T>(accumulated(row, i, w), input) == blend::<S, T>(row, input).moved(input[i as int], w),
{
    if exists|p: int| first_entry(row, i, p) {
        let p = choose|p: int| first_entry(row, i, p);
        lemma_updated::<S, T>(row, input, p, w);
    } else {
        assert(row.push((i, w)).drop_last() =~= row);
    }
}

proof fn lemma_updated<S: Scalar, T: Interpolatable<S>>(row: Seq<(u32, S)>, input: Seq<T>, p: int, w: S)
    requires
        moves_exactly::<S, T>(),
        0 <= p < row.len(),
    ensures
        blend::<S, T>(row.update(p, (row[p].0, S::plus_of(row[p].1, w))), input) == blend::<S, T>(row, input).moved(
            input[row[p].0 as int],
            w,
        ),
    decreases row.len(),
{
    let more = row.update(p, (row[p].0, S::plus_of(row[p].1, w)));
    let front = row.drop_last();
    let a = input[row[p].0 as int];
    if p == row.len() - 1 {
        assert(more.drop_last() =~= front);
        let x = blend::<S, T>(front, input);
        move_sum::<S, T>(x, a, row[p].1, w);
    } else {
        assert(more.drop_last() =~= front.update(p, (front[p].0, S::plus_of(front[p].1, w))));
        lemma_updated::<S, T>(front, input, p, w);
        let x = blend::<S, T>(front, input);
        let b = input[row.last().0 as int];
        let v = row.last().1;
        assert(more.last() == row.last());
        move_swap::<S, T>(x, a, w, b, v);
    }
}

/// To merge a row is to move by its blend.
proof fn lemma_merged<S: Scalar, T: Interpolatable<S>>(
    row: Seq<(u32, S)>,
    src: Seq<(u32, S)>,
    input: Seq<T>,
    w: S,
)
    requires
        moves_exactly::<S, T>(),
    ensures
        blend::<S, T>(merged(row, src, w), input) == blend::<S, T>(row, input).moved(blend::<S, T>(src, input), w),
    decreases src.len(),
{
    let x = blend::<S, T>(row, input);
    if src.len() == 0 {
        reveal(origin_is_neutral);
        assert(x.moved(T::origin_of(), w) == x);
    } else {
        let front = src.drop_last();
        let (i, v) = src.last();
        lemma_merged::<S, T>(row, front, input, w);
        lemma_accumulated::<S, T>(merged(row, front, w), input, i, S::times_of(w, v));
        let y = blend::<S, T>(front, input);
        let a = input[i as int];
        move_spread::<S, T>(x, y, a, v, w);
    }
}

/// A row of a composed table gives what the outer row gives of the inner
/// outputs.
pub proof fn composed_row_blends_in_turn<S: Scalar, T: Interpolatable<S>>(
    inner: Seq<Seq<(u32, S)>>,
    row: Seq<(u32, S)>,
    input: Seq<T>,
)
    requires
        moves_exactly::<S, T>(),
        row_below(row, inner.len()),
    ensures
        blend::<S, T>(composed_row(inner, row), input) == blend::<S, T>(row, blend_all::<S, T>(inner, input)),
    decreases row.len(),
{
    if row.len() > 0 {
        let front = row.drop_last();
        let (j, w) = row.last();
        assert(row[row.len() - 1].0 < inner.len());
        assert forall|k: int| 0 <= k < front.len() implies (#[trigger] front[k]).0 < inner.len() by {
            assert(row[k].0 < inner.len());
        }
        composed_row_blends_in_turn::<S, T>(inner, front, input);
        lemma_merged::<S, T>(composed_row(inner, front), inner[j as int], input, w);
        assert(blend_all::<S, T>(inner, input)[j as int] == blend::<S, T>(inner[j as int], input));
    }
}

/// Two tables composed give what they give one after the other, unless
/// arithmetic rounds.
pub proof fn composition_is_application_in_turn<S: Scalar, T: Interpolatable<S>>(
    inner: Seq<Seq<(u32, S)>>,
    outer: Seq<Seq<(u32, S)>>,
    input: Seq<T>,
)
    requires
        moves_exactly::<S, T>(),
        rows_below(outer, inner.len()),
    ensures
        blend_all::<S, T>(composed(inner, outer), input) == blend_all::<S, T>(
            outer,
            blend_all::<S, T>(inner, input),
        ),
{
    let a = blend_all::<S, T>(composed(inner, outer), input);
    let b = blend_all::<S, T>(outer, blend_all::<S, T>(inner, input));
    assert forall|i: int| 0 <= i < outer.len() implies a[i] == b[i] by {
        assert(row_below(outer[i], inner.len()));
        composed_row_blends_in_turn::<S, T>(inner, outer[i], input);
    }
    assert(a =~= b);
}

/// The composed stencils of a refinement give what its levels give one after the
/// other, unless arithmetic rounds.
pub proof fn composed_chain_gives_the_same<S: Scalar, T: Interpolatable<S>>(
    levels: Seq<Seq<Seq<(u32, S)>>>,
    input: Seq<T>,
)
    requires
        moves_exactly::<S, T>(),
        input.len() <= u32::MAX,
        chain_fits(levels, input.len()),
    ensures
        blend_all::<S, T>(chain_composed(levels, input.len()), input) == chain_values::<S, T>(levels, input),
        chain_composed(levels, input.len()).len() == chain_width(levels, input.len()),
    decreases levels.len(),
{
    let n = input.len();
    if levels.len() == 0 {
        let rows = identity_rows::<S>(n);
        let a = blend_all::<S, T>(rows, input);
        assert forall|i: int| 0 <= i < n implies a[i] == input[i] by {
            let row = rows[i];
            assert(row.drop_last() =~= Seq::<(u32, S)>::empty());
            assert(blend::<S, T>(row.drop_last(), input) == T::origin_of());
            reveal(one_is_neutral);
            assert(T::origin_of().moved(input[i], one_of::<S>()) == input[i]);
        }
        assert(a =~= input);
    } else {
        let front = levels.drop_last();
        composed_chain_gives_the_same::<S, T>(front, input);
        composition_is_application_in_turn::<S, T>(chain_composed(front, n), levels.last(), input);
    }
}

} // verus!
