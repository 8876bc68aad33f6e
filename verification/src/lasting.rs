//! What stays sharp on every level, and the places of corners, in plain numbers.

use crate::catmull_clark::sharpness::{child_corner, child_creases};
use crate::decay::{lemma_decay, one_less_or_lasting};
use crate::hashing::EdgeKey;
use crate::hulls::corner_spot;
use crate::limit_eval::{exact_corner_of, nearest_corner_of, stays_corner, stays_sharp};
use crate::options::{CreaseComputationMethod, SchemeOptions};
use crate::points::computes_exactly;
use crate::scalar::Scalar;
use crate::sharpness::positive;
use crate::weights::lemma_one;
use vstd::prelude::*;

verus! {

/// The sharpness of an edge and of one of its halves on each later level. `edges` and
/// `around` are what lies round the edge on each level.
pub open spec fn handed_down<S: Scalar>(
    history: Seq<S>,
    edges: Seq<EdgeKey>,
    around: Seq<Seq<u32>>,
    options: SchemeOptions,
) -> bool {
    forall|k: int|
        0 <= k < history.len() - 1 ==> #[trigger] history[k + 1] == child_creases(
            0,
            edges,
            around,
            seq![history[k]],
            options,
        ).0
}

/// The sharpness of a corner on each level.
pub open spec fn corner_handed_down<S: Scalar>(history: Seq<S>, options: SchemeOptions) -> bool {
    forall|k: int|
        0 <= k < history.len() - 1 ==> #[trigger] history[k + 1] == child_corner(history[k], options.corner_normalize)
}

/// What is below ten and loses one on each level is gone after ten levels.
proof fn lemma_fades<S: Scalar>(val: spec_fn(S) -> real, history: Seq<S>, k: int)
    requires
        computes_exactly(val),
        0 <= k < history.len(),
        val(history[0]) < 10 as real,
        forall|j: int|
            0 <= j < history.len() - 1 ==> val(#[trigger] history[j + 1]) == one_less_or_lasting(val(history[j])) || (val(
                history[j],
            ) <= 0 as real && val(history[j + 1]) == 0 as real),
    ensures
        val(history[k]) <= 0 as real || val(history[k]) < (10 - k) as real,
    decreases k,
{
    if k > 0 {
        lemma_fades(val, history, k - 1);
        let j = k - 1;
        assert(val(history[j + 1]) == one_less_or_lasting(val(history[j])) || (val(history[j]) <= 0 as real && val(
            history[j + 1],
        ) == 0 as real));
        assert((10 - j) as real == (10 - k) as real + 1 as real);
    }
}

/// What is ten or more loses nothing.
proof fn lemma_lasts<S: Scalar>(val: spec_fn(S) -> real, history: Seq<S>, k: int)
    requires
        0 <= k < history.len(),
        val(history[0]) >= 10 as real,
        forall|j: int|
            0 <= j < history.len() - 1 ==> val(#[trigger] history[j + 1]) == one_less_or_lasting(val(history[j])) || val(
                history[j],
            ) <= 0 as real,
    ensures
        val(history[k]) >= 10 as real,
    decreases k,
{
    if k > 0 {
        lemma_lasts(val, history, k - 1);
        let j = k - 1;
        assert(val(history[j + 1]) == one_less_or_lasting(val(history[j])) || val(history[j]) <= 0 as real);
    }
}

proof fn lemma_same<S: Scalar>(history: Seq<S>, k: int)
    requires
        0 <= k < history.len(),
        positive(history[0]),
        forall|j: int|
            0 <= j < history.len() - 1 ==> #[trigger] history[j + 1] == history[j] || !positive(history[j]),
    ensures
        history[k] == history[0],
    decreases k,
{
    if k > 0 {
        lemma_same(history, k - 1);
        let j = k - 1;
        assert(history[j + 1] == history[j] || !positive(history[j]));
    }
}

/// An edge that stays sharp is sharp on every level. One that does not, and that decays
/// evenly, is sharp on the first ten levels at most.
pub proof fn lasting_edges_stay_sharp<S: Scalar>(
    val: spec_fn(S) -> real,
    history: Seq<S>,
    edges: Seq<EdgeKey>,
    around: Seq<Seq<u32>>,
    options: SchemeOptions,
    k: int,
)
    requires
        computes_exactly(val),
        handed_down(history, edges, around, options),
        0 <= k < history.len(),
        S::finite_of(history[0]),
    ensures
        stays_sharp(history[0], options) ==> val(history[k]) > 0 as real,
        !stays_sharp(history[0], options) && options.crease_computation == CreaseComputationMethod::Uniform && k >= 10
            ==> val(history[k]) <= 0 as real,
        stays_sharp(history[0], options) ==> options.crease_normalize || options.crease_computation
            == CreaseComputationMethod::Uniform,
{
    lemma_one::<S>(val);
    assert(val(S::ratio_of(10, 1)) == (10int as real) / (1int as real));
    let uniform = options.crease_computation == CreaseComputationMethod::Uniform;
    assert forall|j: int| 0 <= j < history.len() - 1 implies ({
        let next = #[trigger] history[j + 1];
        &&& val(history[j]) <= 0 as real ==> val(next) == 0 as real
        &&& positive(history[j]) && options.crease_normalize ==> next == history[j]
        &&& positive(history[j]) && !options.crease_normalize && uniform ==> val(next) == one_less_or_lasting(
            val(history[j]),
        )
    }) by {
        lemma_decay(val, history[j]);
        assert(seq![history[j]][0] == history[j]);
    }
    lemma_decay(val, history[0]);
    if options.crease_normalize {
        if positive(history[0]) {
            assert forall|j: int| 0 <= j < history.len() - 1 implies #[trigger] history[j + 1] == history[j] || !positive(
                history[j],
            ) by {
                assert(positive(history[j]) ==> history[j + 1] == history[j]);
            }
            lemma_same(history, k);
        } else if k > 0 {
            lemma_gone(val, history, k);
        }
    } else if uniform {
        assert forall|j: int| 0 <= j < history.len() - 1 implies val(#[trigger] history[j + 1]) == one_less_or_lasting(
            val(history[j]),
        ) || (val(history[j]) <= 0 as real && val(history[j + 1]) == 0 as real) by {
            assert(val(history[j]) <= 0 as real ==> val(history[j + 1]) == 0 as real);
            lemma_decay(val, history[j]);
        }
        if val(history[0]) < 10 as real {
            lemma_fades(val, history, k);
        } else {
            lemma_lasts(val, history, k);
        }
    }
}

/// What is not sharp does not become sharp.
proof fn lemma_gone<S: Scalar>(val: spec_fn(S) -> real, history: Seq<S>, k: int)
    requires
        0 <= k < history.len(),
        val(history[0]) <= 0 as real,
        forall|j: int|
            0 <= j < history.len() - 1 ==> (val(history[j]) <= 0 as real ==> val(#[trigger] history[j + 1]) <= 0 as real),
    ensures
        val(history[k]) <= 0 as real,
    decreases k,
{
    if k > 0 {
        lemma_gone(val, history, k - 1);
        let j = k - 1;
        assert(val(history[j]) <= 0 as real ==> val(history[j + 1]) <= 0 as real);
    }
}

/// A corner that stays sharp is sharp on every level, and one that does not is sharp on the
/// first ten levels at most.
pub proof fn lasting_corners_stay_sharp<S: Scalar>(
    val: spec_fn(S) -> real,
    history: Seq<S>,
    options: SchemeOptions,
    k: int,
)
    requires
        computes_exactly(val),
        corner_handed_down(history, options),
        0 <= k < history.len(),
        S::finite_of(history[0]),
    ensures
        stays_corner(history[0], options) ==> val(history[k]) > 0 as real,
        !stays_corner(history[0], options) && k >= 10 ==> val(history[k]) <= 0 as real,
{
    lemma_one::<S>(val);
    assert(val(S::ratio_of(10, 1)) == (10int as real) / (1int as real));
    lemma_decay(val, history[0]);
    if options.corner_normalize {
        assert forall|j: int| 0 <= j < history.len() - 1 implies #[trigger] history[j + 1] == history[j] by {}
        if positive(history[0]) {
            lemma_same(history, k);
        } else {
            lemma_gone(val, history, k);
        }
    } else {
        assert forall|j: int| 0 <= j < history.len() - 1 implies val(#[trigger] history[j + 1]) == one_less_or_lasting(
            val(history[j]),
        ) || (val(history[j]) <= 0 as real && val(history[j + 1]) == 0 as real) by {
            lemma_decay(val, history[j]);
        }
        if val(history[0]) < 10 as real {
            lemma_fades(val, history, k);
        } else {
            lemma_lasts(val, history, k);
        }
    }
}

// ---------------------------------------------------------------------------
// Places of corners
// ---------------------------------------------------------------------------
/// A place is a corner if it is where the corner is.
pub proof fn corners_are_found_at_their_place<W: Scalar>(wal: spec_fn(W) -> real, uv: (W, W), k: int)
    requires
        computes_exactly(wal),
        0 <= k < 4,
    ensures
        exact_corner_of(uv) == Some(k) <==> (wal(uv.0), wal(uv.1)) == corner_spot(k),
        exact_corner_of(uv) is Some ==> 0 <= exact_corner_of(uv)->Some_0 < 4,
{
    lemma_one::<W>(wal);
}

/// The corner that is taken for a place inside a quad is not more than half a side away in
/// either direction, and no corner is closer.
pub proof fn nearest_corners_are_nearest<W: Scalar>(wal: spec_fn(W) -> real, uv: (W, W), k: int)
    requires
        computes_exactly(wal),
        (0 as real) <= wal(uv.0) && wal(uv.0) <= 1 as real,
        (0 as real) <= wal(uv.1) && wal(uv.1) <= 1 as real,
        0 <= k < 4,
    ensures
        0 <= nearest_corner_of(uv) < 4,
        away(wal(uv.0), corner_spot(nearest_corner_of(uv)).0) <= away(wal(uv.0), corner_spot(k).0),
        away(wal(uv.1), corner_spot(nearest_corner_of(uv)).1) <= away(wal(uv.1), corner_spot(k).1),
        away(wal(uv.0), corner_spot(nearest_corner_of(uv)).0) * 2 as real <= 1 as real,
        away(wal(uv.1), corner_spot(nearest_corner_of(uv)).1) * 2 as real <= 1 as real,
{
    lemma_one::<W>(wal);
    assert(wal(W::ratio_of(1, 2)) == (1int as real) / (2int as real));
}

/// How far apart two numbers are.
pub open spec fn away(a: real, b: real) -> real {
    if a < b {
        b - a
    } else {
        a - b
    }
}

} // verus!
