//! How an edge is searched, in plain numbers.

use crate::closest_point::{
    closer, coarse_best, coarse_place, edge_offer, in_unit, narrowed_down, swept, Offer, EDGE_ROUNDS,
};
use crate::limit_eval::LimitEvaluator;
use crate::metric::Metric;
use crate::normals::measures_exactly;
use crate::scalar::{Scalar, Wide};
use crate::weights::lemma_one;
use vstd::prelude::*;

verus! {

/// The nine places are an eighth apart.
proof fn lemma_eighths<W: Metric>(wal: spec_fn(W) -> real, k: int)
    requires
        measures_exactly(wal),
        0 <= k <= 8,
    ensures
        wal(coarse_place::<W>(k)) == (k as real) / (8 as real),
        (0 as real) <= wal(coarse_place::<W>(k)),
        wal(coarse_place::<W>(k)) <= 1 as real,
{
    let a = W::ratio_of(k as u32, 1);
    let b = W::ratio_of(1, 8);
    assert(wal(a) == (k as real) / (1int as real));
    assert(wal(b) == (1int as real) / (8int as real));
    let (r, s) = (wal(a), wal(b));
    assert(r * s == r / (8 as real)) by (nonlinear_arith)
        requires
            s == (1 as real) / (8 as real),
    ;
    assert(wal(W::times_of(a, b)) == r * s);
}

proof fn lemma_coarse<W: Metric>(wal: spec_fn(W) -> real, seg: Seq<Offer<W>>, k: int, j: int)
    requires
        measures_exactly(wal),
        0 <= k <= 9,
        k <= seg.len(),
    ensures
        0 <= j < k ==> wal(coarse_best(seg, k).0) <= wal(seg[j].dist2),
        (0 as real) <= wal(coarse_best(seg, k).1),
        wal(coarse_best(seg, k).1) <= 1 as real,
    decreases k,
{
    lemma_one::<W>(wal);
    if k > 0 {
        lemma_coarse(wal, seg, k - 1, j);
        lemma_eighths::<W>(wal, k - 1);
    }
}

proof fn lemma_narrowed<'a, S: Metric, W: Wide<S> + Metric>(
    wal: spec_fn(W) -> real,
    ev: LimitEvaluator<'a, S>,
    q: Seq<W>,
    face: u32,
    slot: int,
    left: nat,
    step: W,
    best: (W, W),
    seg: Seq<Offer<W>>,
    out: (W, W),
    j: int,
)
    requires
        measures_exactly(wal),
        narrowed_down::<S, W>(ev, q, face, slot, left, step, best, seg, out),
        (0 as real) <= wal(best.1),
        wal(best.1) <= 1 as real,
    ensures
        wal(out.0) <= wal(best.0),
        0 <= j < seg.len() ==> wal(out.0) <= wal(seg[j].dist2),
        (0 as real) <= wal(out.1),
        wal(out.1) <= 1 as real,
        out == best || exists|k: int|
            0 <= k < seg.len() && out.0 == (#[trigger] seg[k]).dist2 && edge_offer::<S, W>(ev, q, face, slot, out.1, seg[k]),
    decreases left,
{
    lemma_one::<W>(wal);
    if left > 0 {
        let half = W::times_of(step, W::ratio_of(1, 2));
        let low = W::minus_of(best.1, half);
        let high = W::plus_of(best.1, half);
        let in_low = in_unit(low);
        let in_high = in_unit(high);
        let n: int = if in_low {
            1
        } else {
            0
        };
        let m: int = if in_high {
            n + 1
        } else {
            n
        };
        let first = if in_low {
            closer(best, seg[0].dist2, low)
        } else {
            best
        };
        let second = if in_high {
            closer(first, seg[n].dist2, high)
        } else {
            first
        };
        let rest = seg.skip(m);
        lemma_narrowed::<S, W>(wal, ev, q, face, slot, (left - 1) as nat, half, second, rest, out, j - m);
        if m <= j < seg.len() {
            assert(rest[j - m] == seg[j]);
        }
        if out == second {
            if out != best {
                if in_high && second == (seg[n].dist2, high) {
                    assert(edge_offer::<S, W>(ev, q, face, slot, out.1, seg[n]));
                } else {
                    assert(edge_offer::<S, W>(ev, q, face, slot, out.1, seg[0]));
                }
            }
        } else {
            let k = choose|k: int|
                0 <= k < rest.len() && out.0 == (#[trigger] rest[k]).dist2 && edge_offer::<S, W>(
                    ev,
                    q,
                    face,
                    slot,
                    out.1,
                    rest[k],
                );
            assert(rest[k] == seg[k + m]);
        }
    }
}

/// A sweep of an edge looks at it from end to end, an eighth apart, and ends at a place of
/// the edge that is no further away than any that it looked at.
pub proof fn sweeps_end_at_the_closest_place<'a, S: Metric, W: Wide<S> + Metric>(
    wal: spec_fn(W) -> real,
    ev: LimitEvaluator<'a, S>,
    q: Seq<W>,
    face: u32,
    slot: int,
    seg: Seq<Offer<W>>,
    out: (W, W),
    k: int,
    j: int,
) -> (x: W)
    requires
        measures_exactly(wal),
        swept::<S, W>(ev, q, face, slot, seg, out),
        0 <= k <= 8,
        0 <= j < seg.len(),
    ensures
        edge_offer::<S, W>(ev, q, face, slot, x, seg[k]),
        wal(x) == (k as real) / (8 as real),
        wal(out.0) <= wal(seg[j].dist2),
        (0 as real) <= wal(out.1),
        wal(out.1) <= 1 as real,
{
    lemma_eighths::<W>(wal, k);
    lemma_coarse(wal, seg, 9, j);
    assert(edge_offer::<S, W>(ev, q, face, slot, coarse_place(k), seg[k]));
    let rest = seg.skip(9);
    lemma_narrowed::<S, W>(
        wal,
        ev,
        q,
        face,
        slot,
        EDGE_ROUNDS as nat,
        W::ratio_of(1, 8),
        coarse_best(seg, 9),
        rest,
        out,
        j - 9,
    );
    if j >= 9 {
        assert(rest[j - 9] == seg[j]);
    }
    coarse_place(k)
}

} // verus!
