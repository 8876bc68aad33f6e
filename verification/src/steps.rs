//! The steps of a search, in plain numbers.

use crate::closest_point::{
    crossing_of, first_improved, leads_out, line_searched, line_step_of, newton_step_of, reduced_step_of, seen, share_of,
    Stand, StepModel,
};
use crate::limit_eval::{clamped, LimitEvaluator};
use crate::metric::{difference_of, dot_of, Metric};
use crate::normals::{
    dot3, lemma_dot, lemma_sign_of_product, measures_exactly, plus3, reading, scaled_dot, sum_dot, times3,
};
use crate::points::{product_of_difference, product_of_sum, product_of_three, quotient_times};
use crate::scalar::{Scalar, Wide};
use crate::weights::{lemma_one, reads_exactly};
use vstd::prelude::*;

verus! {

proof fn nothing_from_product(x: real, d: real)
    requires
        d > 0 as real,
        x * d == 0 as real,
    ensures
        x == 0 as real,
{
    lemma_sign_of_product(x, d);
}

/// The solution of two linear equations, multiplied out.
proof fn lemma_solves(a: real, b: real, c: real, g: real, h: real, s: real, t: real, det: real)
    requires
        det == a * b - c * c,
        det > 0 as real,
        s * det == c * h - b * g,
        t * det == c * g - a * h,
    ensures
        g + s * a + t * c == 0 as real,
        h + s * c + t * b == 0 as real,
{
    let x = g + s * a + t * c;
    let y = h + s * c + t * b;
    let (ab, cc) = (a * b, c * c);
    product_of_sum(det, g + s * a, t * c);
    product_of_sum(det, g, s * a);
    product_of_three(s, a, det);
    product_of_three(t, c, det);
    product_of_difference(g, ab, cc);
    product_of_difference(a, c * h, b * g);
    product_of_difference(c, c * g, a * h);
    product_of_three(g, det, 1 as real);
    product_of_three(s * det, a, 1 as real);
    product_of_three(t * det, c, 1 as real);
    product_of_three(c, h, a);
    product_of_three(b, g, a);
    product_of_three(c, g, c);
    product_of_three(a, h, c);
    product_of_three(a, b, g);
    product_of_three(c, c, g);
    assert((s * a) * det == (s * det) * a);
    assert((t * c) * det == (t * det) * c);
    assert(x * det == 0 as real);
    nothing_from_product(x, det);
    product_of_sum(det, h + s * c, t * b);
    product_of_sum(det, h, s * c);
    product_of_three(s, c, det);
    product_of_three(t, b, det);
    product_of_difference(h, ab, cc);
    product_of_difference(c, c * h, b * g);
    product_of_difference(b, c * g, a * h);
    product_of_three(h, det, 1 as real);
    product_of_three(s * det, c, 1 as real);
    product_of_three(t * det, b, 1 as real);
    product_of_three(c, h, c);
    product_of_three(b, g, c);
    product_of_three(c, g, b);
    product_of_three(a, h, b);
    product_of_three(a, b, h);
    product_of_three(c, c, h);
    assert((s * c) * det == (s * det) * c);
    assert((t * b) * det == (t * det) * b);
    assert(y * det == 0 as real);
    nothing_from_product(y, det);
}

/// The step of a search leads to the place where a plane with the derivatives of the
/// surface is closest: what is left of the way there is at right angles to both
/// derivatives. This holds where the derivatives span an area.
pub proof fn steps_lead_to_the_foot<W: Metric>(wal: spec_fn(W) -> real, d: Seq<W>, du: Seq<W>, dv: Seq<W>)
    requires
        measures_exactly(wal),
        ({
            let (a, b) = (reading(wal, du), reading(wal, dv));
            dot3(a, a) * dot3(b, b) - dot3(a, b) * dot3(a, b) > (wal(W::tiny_of(12)) * dot3(a, a)) * dot3(b, b)
        }),
        ({
            let (a, b) = (reading(wal, du), reading(wal, dv));
            dot3(a, a) * dot3(b, b) - dot3(a, b) * dot3(a, b) > 0 as real
        }),
    ensures
        ({
            let (s, t) = newton_step_of(d, du, dv);
            let (a, b) = (reading(wal, du), reading(wal, dv));
            let left = plus3(reading(wal, d), plus3(times3(wal(s), a), times3(wal(t), b)));
            dot3(left, a) == 0 as real && dot3(left, b) == 0 as real
        }),
{
    lemma_dot(wal, du, du);
    lemma_dot(wal, dv, dv);
    lemma_dot(wal, du, dv);
    lemma_dot(wal, d, du);
    lemma_dot(wal, d, dv);
    let (p, q) = (reading(wal, du), reading(wal, dv));
    let r = reading(wal, d);
    let (wa, wb, wc) = (dot_of(du, du), dot_of(dv, dv), dot_of(du, dv));
    let (wg, wh) = (dot_of(d, du), dot_of(d, dv));
    let (a, b, c, g, h) = (wal(wa), wal(wb), wal(wc), wal(wg), wal(wh));
    let det = W::minus_of(W::times_of(wa, wb), W::times_of(wc, wc));
    assert(wal(W::times_of(wa, wb)) == a * b);
    assert(wal(W::times_of(wc, wc)) == c * c);
    assert(wal(det) == a * b - c * c);
    let small = W::times_of(W::tiny_of(12), wa);
    assert(wal(small) == wal(W::tiny_of(12)) * a);
    assert(wal(W::times_of(small, wb)) == wal(small) * b);
    let top_s = W::minus_of(W::times_of(wc, wh), W::times_of(wb, wg));
    let top_t = W::minus_of(W::times_of(wc, wg), W::times_of(wa, wh));
    assert(wal(top_s) == c * h - b * g);
    assert(wal(top_t) == c * g - a * h);
    let (s, t) = newton_step_of(d, du, dv);
    let e = wal(det);
    assert(wal(s) == wal(top_s) / e);
    assert(wal(t) == wal(top_t) / e);
    quotient_times(wal(s), wal(top_s), e);
    quotient_times(wal(t), wal(top_t), e);
    lemma_solves(a, b, c, g, h, wal(s), wal(t), e);
    let (sp, tq) = (times3(wal(s), p), times3(wal(t), q));
    sum_dot(r, plus3(sp, tq), p);
    sum_dot(sp, tq, p);
    scaled_dot(wal(s), p, p);
    scaled_dot(wal(t), q, p);
    sum_dot(r, plus3(sp, tq), q);
    sum_dot(sp, tq, q);
    scaled_dot(wal(s), p, q);
    scaled_dot(wal(t), q, q);
    assert(dot3(q, p) == dot3(p, q)) by {
        product_of_three(p.0, q.0, 1 as real);
        product_of_three(p.1, q.1, 1 as real);
        product_of_three(p.2, q.2, 1 as real);
    }
}

/// The step along a line leads to the place where the line is closest.
pub proof fn line_steps_lead_to_the_foot<W: Metric>(wal: spec_fn(W) -> real, d: Seq<W>, along: Seq<W>)
    requires
        measures_exactly(wal),
        wal(W::tiny_of(30)) >= 0 as real,
    ensures
        line_step_of(d, along) is Some <==> dot3(reading(wal, along), reading(wal, along)) > wal(W::tiny_of(30)),
        line_step_of(d, along) is Some ==> ({
            let a = reading(wal, along);
            dot3(plus3(reading(wal, d), times3(wal(line_step_of(d, along)->Some_0), a)), a) == 0 as real
        }),
{
    lemma_dot(wal, along, along);
    lemma_dot(wal, d, along);
    let a = reading(wal, along);
    let r = reading(wal, d);
    if let Some(s) = line_step_of(d, along) {
        let m = wal(dot_of(along, along));
        let g = wal(dot_of(d, along));
        assert(wal(s) == (-g) / m);
        quotient_times(wal(s), -g, m);
        sum_dot(r, times3(wal(s), a), a);
        scaled_dot(wal(s), a, a);
    }
}

/// A number held between nought and one.
pub open spec fn held_number(t: real) -> real {
    if t < 0 as real {
        0 as real
    } else if t > 1 as real {
        1 as real
    } else {
        t
    }
}

proof fn lemma_share<W: Scalar>(wal: spec_fn(W) -> real, j: nat)
    requires
        reads_exactly(wal),
    ensures
        (0 as real) < wal(share_of::<W>(j)),
        wal(share_of::<W>(j)) <= 1 as real,
        j > 0 ==> wal(share_of::<W>(j)) == wal(share_of::<W>((j - 1) as nat)) / (2 as real),
    decreases j,
{
    lemma_one::<W>(wal);
    if j > 0 {
        lemma_share::<W>(wal, (j - 1) as nat);
        let half = W::ratio_of(1, 2);
        assert(wal(half) == (1int as real) / (2int as real));
        let s = wal(share_of::<W>((j - 1) as nat));
        let h = wal(half);
        assert(s * h == s / (2 as real)) by (nonlinear_arith)
            requires
                h == (1 as real) / (2 as real),
        ;
        assert(h * s == s / (2 as real)) by (nonlinear_arith)
            requires
                h == (1 as real) / (2 as real),
        ;
    }
}

/// A step that a search takes leads closer, to a place on the way of the step that is held
/// inside the quad, by a part of the step that is not more than the whole.
pub proof fn taken_steps_lead_closer<'a, S: Metric, W: Wide<S> + Metric>(
    wal: spec_fn(W) -> real,
    ev: LimitEvaluator<'a, S>,
    q: Seq<W>,
    from: Stand<W>,
    step: (W, W),
    out: StepModel<W>,
) -> (share: real)
    requires
        measures_exactly(wal),
        line_searched::<S, W>(ev, q, from, step, Some(out)),
    ensures
        (0 as real) < share,
        share <= 1 as real,
        wal(out.to.dist2) < wal(from.dist2),
        out.to.face == from.face,
        wal(out.to.uv.0) == held_number(wal(from.uv.0) + share * wal(step.0)),
        wal(out.to.uv.1) == held_number(wal(from.uv.1) + share * wal(step.1)),
        seen::<S, W>(ev, from.face, out.to.uv, Ok(out.to.s)),
        wal(out.to.dist2) == ({
            let d = (wal(out.to.s.p[0]) - wal(q[0]), wal(out.to.s.p[1]) - wal(q[1]), wal(out.to.s.p[2]) - wal(q[2]));
            dot3(d, d)
        }),
{
    reveal(line_searched);
    lemma_one::<W>(wal);
    let j = choose|j: nat| #[trigger] first_improved::<S, W>(ev, q, from, step, j, out);
    lemma_share::<W>(wal, j);
    let s = share_of::<W>(j);
    let share = wal(s);
    let d = difference_of(out.to.s.p, q);
    lemma_dot(wal, d, d);
    let (a, b) = (wal(step.0), wal(step.1));
    product_of_three(a, share, 1 as real);
    product_of_three(b, share, 1 as real);
    assert(wal(W::times_of(step.0, s)) == a * share);
    assert(wal(W::times_of(step.1, s)) == b * share);
    assert(wal(W::times_of(s, step.0)) == share * a);
    assert(wal(W::times_of(s, step.1)) == share * b);
    share
}

/// A step is taken to have crossed the near end of a side where it leads below nought, and
/// the far end where it leads beyond one.
pub proof fn steps_cross_where_they_lead_out<W: Metric>(wal: spec_fn(W) -> real, raw: W)
    requires
        measures_exactly(wal),
    ensures
        wal(clamped(raw)) == held_number(wal(raw)),
        wal(raw) < 0 as real ==> crossing_of(clamped(raw), raw) == Some(false),
        wal(raw) > 1 as real ==> crossing_of(clamped(raw), raw) == Some(true),
        (0 as real) <= wal(raw) && wal(raw) <= 1 as real ==> crossing_of(clamped(raw), raw) is None,
{
    lemma_one::<W>(wal);
}

/// A number at an end, and a step away from the other end.
pub open spec fn goes_out(t: real, step: real) -> bool {
    (t == 0 as real && step < 0 as real) || (t == 1 as real && step > 0 as real)
}

/// Where the full step leads out over one side of the quad, the step that is taken in its
/// place runs along the side, to the place where its line is closest.
pub proof fn steps_at_a_side_run_along_it<W: Metric>(
    wal: spec_fn(W) -> real,
    uv: (W, W),
    full: (W, W),
    d: Seq<W>,
    du: Seq<W>,
    dv: Seq<W>,
)
    requires
        measures_exactly(wal),
        wal(W::tiny_of(30)) >= 0 as real,
    ensures
        ({
            let out_u = goes_out(wal(uv.0), wal(full.0));
            let out_v = goes_out(wal(uv.1), wal(full.1));
            let (a, b, r) = (reading(wal, du), reading(wal, dv), reading(wal, d));
            let eps = wal(W::tiny_of(30));
            match reduced_step_of(uv, full, d, du, dv) {
                Some(s) => if out_u {
                    &&& !out_v
                    &&& wal(s.0) == 0 as real
                    &&& dot3(b, b) > eps
                    &&& dot3(plus3(r, times3(wal(s.1), b)), b) == 0 as real
                } else {
                    &&& out_v
                    &&& wal(s.1) == 0 as real
                    &&& dot3(a, a) > eps
                    &&& dot3(plus3(r, times3(wal(s.0), a)), a) == 0 as real
                },
                None => out_u == out_v || (out_u && dot3(b, b) <= eps) || (out_v && dot3(a, a) <= eps),
            }
        }),
{
    lemma_one::<W>(wal);
    line_steps_lead_to_the_foot(wal, d, du);
    line_steps_lead_to_the_foot(wal, d, dv);
    assert(leads_out(uv.0, full.0) == goes_out(wal(uv.0), wal(full.0)));
    assert(leads_out(uv.1, full.1) == goes_out(wal(uv.1), wal(full.1)));
}

} // verus!
