//! Where a search for the closest point looks.

use crate::bounds::SearchIndex;
use crate::closest_point::{
    best_of, beyond, centre_of, corners_started, crossed_over, edge_done, edge_place, edge_polished,
    edges_through, fan_queued, fanned_out, far_corner, feature_line_of, features_polished, followed,
    no_offer_is_closer, offer_of, ordered, quad_searched, quad_start, queued, ran, same_seed, searched_in_turn,
    seeds_run, seen, starts_as, swept, walk_closed, walked, Agenda, MAX_NEWTON_ITERATIONS, MAX_SEEDS, Offer,
    Progress, Seed, Stand, Trail, WalkEnd,
};
use crate::limit_eval::{corner_place, LimitEvaluator, SampleModel};
use crate::metric::Metric;
use crate::ring::{faces_at, quad_at};
use crate::scalar::{one_of, zero_of, Wide};
use vstd::prelude::*;

verus! {

// ---------------------------------------------------------------------------
// Seeds stay
// ---------------------------------------------------------------------------
proof fn lemma_starts_as_in_turn<A>(a: Seq<A>, b: Seq<A>, c: Seq<A>)
    requires
        starts_as(a, b),
        starts_as(b, c),
    ensures
        starts_as(a, c),
{
    assert forall|i: int| 0 <= i < c.len() implies #[trigger] a[i] == c[i] by {
        assert(b[i] == c[i]);
    }
}

proof fn lemma_fan_keeps_seeds<'a, S: Metric, W: Wide<S> + Metric>(
    ev: LimitEvaluator<'a, S>,
    v: u32,
    seeds: Seq<Seed<W>>,
    m: int,
)
    ensures
        starts_as(fan_queued::<S, W>(ev, v, seeds, m), seeds),
    decreases m,
{
    if m > 0 {
        lemma_fan_keeps_seeds::<S, W>(ev, v, seeds, m - 1);
        lemma_starts_as_in_turn(
            fan_queued::<S, W>(ev, v, seeds, m),
            fan_queued::<S, W>(ev, v, seeds, m - 1),
            seeds,
        );
    }
}

proof fn lemma_fanned_out_keeps_seeds<'a, S: Metric, W: Wide<S> + Metric>(
    ev: LimitEvaluator<'a, S>,
    a: Agenda<W>,
    face: u32,
    uv: (W, W),
)
    ensures
        starts_as(fanned_out::<S, W>(ev, a, face, uv).seeds, a.seeds),
{
    let v = quad_at(ev.mesh(), face as int)[far_corner(uv)];
    lemma_fan_keeps_seeds::<S, W>(ev, v, a.seeds, faces_at(ev.adj(), v as int).len() as int);
}

proof fn lemma_edge_keeps_seeds<'a, S: Metric, W: Wide<S> + Metric>(
    ev: LimitEvaluator<'a, S>,
    q: Seq<W>,
    a: Agenda<W>,
    face: u32,
    slot: int,
    seg: Seq<Offer<W>>,
    b: Agenda<W>,
)
    requires
        edge_polished::<S, W>(ev, q, a, face, slot, seg, b),
    ensures
        starts_as(b.seeds, a.seeds),
{
    reveal(edge_polished);
    let edge = ev.adj().face_edges@[4 * face + slot];
    if !a.polished.contains(edge) {
        let best = choose|best: (W, W)| #[trigger]
            swept::<S, W>(ev, q, face, slot, seg, best) && b == edge_done(ev, a, face, slot, best);
        let done = Agenda { seeds: a.seeds, fanned: a.fanned, polished: a.polished.push(edge) };
        lemma_fanned_out_keeps_seeds::<S, W>(
            ev,
            done,
            face,
            edge_place(slot, zero_of()),
        );
        lemma_fanned_out_keeps_seeds::<S, W>(
            ev,
            done,
            face,
            edge_place(slot, one_of()),
        );
    }
}

proof fn lemma_features_keep_seeds<'a, S: Metric, W: Wide<S> + Metric>(
    ev: LimitEvaluator<'a, S>,
    q: Seq<W>,
    a: Agenda<W>,
    face: u32,
    slots: Seq<int>,
    seg: Seq<Offer<W>>,
    b: Agenda<W>,
)
    requires
        features_polished::<S, W>(ev, q, a, face, slots, seg, b),
    ensures
        starts_as(b.seeds, a.seeds),
    decreases slots.len(),
{
    if slots.len() > 0 {
        if !feature_line_of(ev, face, slots[0]) {
            lemma_features_keep_seeds::<S, W>(ev, q, a, face, slots.skip(1), seg, b);
        } else {
            let (k, mid) = choose|k: int, mid: Agenda<W>|
                0 <= k <= seg.len() && #[trigger] edge_polished::<S, W>(ev, q, a, face, slots[0], seg.take(k), mid)
                    && features_polished::<S, W>(ev, q, mid, face, slots.skip(1), seg.skip(k), b);
            lemma_edge_keeps_seeds::<S, W>(ev, q, a, face, slots[0], seg.take(k), mid);
            lemma_features_keep_seeds::<S, W>(ev, q, mid, face, slots.skip(1), seg.skip(k), b);
            lemma_starts_as_in_turn(b.seeds, mid.seeds, a.seeds);
        }
    }
}

proof fn lemma_beyond_keeps_seeds<'a, S: Metric, W: Wide<S> + Metric>(
    ev: LimitEvaluator<'a, S>,
    a: Agenda<W>,
    face: u32,
    uv: (W, W),
)
    ensures
        starts_as(beyond::<S, W>(ev, a, face, uv).seeds, a.seeds),
{
    lemma_fanned_out_keeps_seeds::<S, W>(ev, a, face, uv);
    assert forall|side: (int, W)| starts_as(#[trigger] crossed_over::<S, W>(ev, a, face, side).seeds, a.seeds) by {}
}

proof fn lemma_walk_keeps_seeds<'a, S: Metric, W: Wide<S> + Metric>(
    ev: LimitEvaluator<'a, S>,
    q: Seq<W>,
    a: Agenda<W>,
    end: WalkEnd<W>,
    seg: Seq<Offer<W>>,
    b: Agenda<W>,
)
    requires
        walk_closed::<S, W>(ev, q, a, end, seg, b),
    ensures
        starts_as(b.seeds, a.seeds),
{
    match end {
        WalkEnd::Rest(face, uv) => {
            let mid = choose|mid: Agenda<W>| #[trigger]
                features_polished::<S, W>(ev, q, a, face, edges_through(uv), seg, mid) && b
                    == beyond(ev, mid, face, uv);
            lemma_features_keep_seeds::<S, W>(ev, q, a, face, edges_through(uv), seg, mid);
            lemma_beyond_keeps_seeds::<S, W>(ev, mid, face, uv);
            lemma_starts_as_in_turn(b.seeds, mid.seeds, a.seeds);
        },
        WalkEnd::Corner(face, uv) => {
            lemma_fanned_out_keeps_seeds::<S, W>(ev, a, face, uv);
        },
        WalkEnd::Feature(face, slot) => {
            lemma_edge_keeps_seeds::<S, W>(ev, q, a, face, slot as int, seg, b);
        },
        WalkEnd::Stop => {},
    }
}

/// A run starts at its seed and keeps all seeds.
proof fn lemma_run<'a, S: Metric, W: Wide<S> + Metric>(
    ev: LimitEvaluator<'a, S>,
    q: Seq<W>,
    tolerance: W,
    a: Agenda<W>,
    seed: Seed<W>,
    seg: Seq<Offer<W>>,
    b: Agenda<W>,
)
    requires
        ran::<S, W>(ev, q, tolerance, a, seed, seg, b),
    ensures
        starts_as(b.seeds, a.seeds),
        seg.len() > 0,
        seg[0].face == seed.0,
        seg[0].uv == seed.1,
{
    let (s, end, k) = choose|s: SampleModel<W, W>, end: WalkEnd<W>, k: int|
        #![trigger seen::<S, W>(ev, seed.0, seed.1, Ok(s)), walk_closed::<S, W>(ev, q, a, end, seg.skip(k), b)]
        1 <= k <= seg.len() && seen::<S, W>(ev, seed.0, seed.1, Ok(s)) && seg[0]
            == offer_of(q, seed.0, seed.1, s) && walked::<S, W>(
            ev,
            q,
            tolerance,
            Stand {
                face: seed.0,
                uv: seed.1,
                s,
                dist2: offer_of(q, seed.0, seed.1, s).dist2,
            },
            0,
            MAX_NEWTON_ITERATIONS as nat,
            seg.subrange(1, k),
            end,
        ) && walk_closed::<S, W>(ev, q, a, end, seg.skip(k), b);
    lemma_walk_keeps_seeds::<S, W>(ev, q, a, end, seg.skip(k), b);
}

// ---------------------------------------------------------------------------
// Every seed is looked at
// ---------------------------------------------------------------------------
/// One of the offers is at a place, as far as the order of numbers tells.
pub open spec fn offered_at<W: Metric>(log: Seq<Offer<W>>, face: u32, uv: (W, W)) -> bool {
    exists|i: int| 0 <= i < log.len() && same_seed(((#[trigger] log[i]).face, log[i].uv), (face, uv))
}

proof fn lemma_offered_in_part<W: Metric>(part: Seq<Offer<W>>, log: Seq<Offer<W>>, from: int, face: u32, uv: (W, W))
    requires
        offered_at(part, face, uv),
        0 <= from,
        from + part.len() <= log.len(),
        forall|i: int| 0 <= i < part.len() ==> #[trigger] part[i] == log[from + i],
    ensures
        offered_at(log, face, uv),
{
    let i = choose|i: int| 0 <= i < part.len() && same_seed(((#[trigger] part[i]).face, part[i].uv), (face, uv));
    assert(log[from + i] == part[i]);
}

proof fn lemma_seeds_are_looked_at<'a, S: Metric, W: Wide<S> + Metric>(
    ev: LimitEvaluator<'a, S>,
    q: Seq<W>,
    tolerance: W,
    a: Agenda<W>,
    next: int,
    seg: Seq<Offer<W>>,
    b: Agenda<W>,
    j: int,
)
    requires
        seeds_run::<S, W>(ev, q, tolerance, a, next, seg, b),
        0 <= next <= j < a.seeds.len(),
        j < MAX_SEEDS,
    ensures
        offered_at(seg, a.seeds[j].0, a.seeds[j].1),
    decreases j - next,
{
    let (k, mid) = choose|k: int, mid: Agenda<W>|
        0 <= k <= seg.len() && #[trigger] ran::<S, W>(ev, q, tolerance, a, a.seeds[next], seg.take(k), mid)
            && seeds_run::<S, W>(ev, q, tolerance, mid, next + 1, seg.skip(k), b);
    lemma_run::<S, W>(ev, q, tolerance, a, a.seeds[next], seg.take(k), mid);
    if j == next {
        assert(seg.take(k)[0] == seg[0]);
        assert(same_seed((seg[0].face, seg[0].uv), (a.seeds[j].0, a.seeds[j].1)));
    } else {
        assert(mid.seeds[j] == a.seeds[j]);
        lemma_seeds_are_looked_at::<S, W>(ev, q, tolerance, mid, next + 1, seg.skip(k), b, j);
        lemma_offered_in_part(seg.skip(k), seg, k, a.seeds[j].0, a.seeds[j].1);
    }
}

/// A place is among the seeds.
spec fn seeded<W: Metric>(seeds: Seq<Seed<W>>, face: u32, uv: (W, W)) -> bool {
    exists|j: int| 0 <= j < seeds.len() && same_seed(#[trigger] seeds[j], (face, uv))
}

proof fn lemma_queued_is_seeded<W: Metric>(seeds: Seq<Seed<W>>, face: u32, uv: (W, W))
    requires
        seeds.len() < MAX_SEEDS,
    ensures
        seeded(queued(seeds, (face, uv)), face, uv),
        starts_as(queued(seeds, (face, uv)), seeds),
        queued(seeds, (face, uv)).len() <= seeds.len() + 1,
{
    let more = queued(seeds, (face, uv));
    if exists|i: int| 0 <= i < seeds.len() && same_seed(#[trigger] seeds[i], (face, uv)) {
        let i = choose|i: int| 0 <= i < seeds.len() && same_seed(#[trigger] seeds[i], (face, uv));
        assert(more[i] == seeds[i]);
    } else {
        assert(more[seeds.len() as int] == (face, uv));
        assert(same_seed(more[seeds.len() as int], (face, uv)));
    }
}

/// Of the corners of a quad each is looked at right away or becomes a seed.
proof fn lemma_corners_are_due<'a, S: Metric, W: Wide<S> + Metric>(
    ev: LimitEvaluator<'a, S>,
    q: Seq<W>,
    face: u32,
    from: int,
    a: Progress<W>,
    seg: Seq<Offer<W>>,
    b: Progress<W>,
    c: int,
)
    requires
        0 <= from <= 4,
        a.agenda.seeds.len() <= from + 1,
        corners_started::<S, W>(ev, q, face, from, a, seg, b),
    ensures
        starts_as(b.agenda.seeds, a.agenda.seeds),
        b.agenda.seeds.len() <= 5,
        from <= c < 4 ==> offered_at(seg, face, corner_place::<W>(c)) || seeded(
            b.agenda.seeds,
            face,
            corner_place::<W>(c),
        ),
    decreases 4 - from,
{
    if from < 4 {
        let v = quad_at(ev.mesh(), face as int)[from];
        let at = corner_place::<W>(from);
        if a.corner_runs.contains(v) {
            lemma_corners_are_due::<S, W>(ev, q, face, from + 1, a, seg.skip(1), b, c);
            assert(seg[0].face == face && seg[0].uv == at);
            if c == from {
                assert(same_seed((seg[0].face, seg[0].uv), (face, at)));
            } else if from < c < 4 && offered_at(seg.skip(1), face, corner_place::<W>(c)) {
                lemma_offered_in_part(seg.skip(1), seg, 1, face, corner_place::<W>(c));
            }
        } else {
            let next = Progress {
                agenda: Agenda {
                    seeds: queued(a.agenda.seeds, (face, at)),
                    fanned: a.agenda.fanned,
                    polished: a.agenda.polished,
                },
                corner_runs: a.corner_runs.push(v),
            };
            lemma_queued_is_seeded(a.agenda.seeds, face, at);
            lemma_corners_are_due::<S, W>(ev, q, face, from + 1, next, seg, b, c);
            lemma_starts_as_in_turn(b.agenda.seeds, next.agenda.seeds, a.agenda.seeds);
            if c == from {
                let j = choose|j: int|
                    0 <= j < next.agenda.seeds.len() && same_seed(#[trigger] next.agenda.seeds[j], (face, at));
                assert(b.agenda.seeds[j] == next.agenda.seeds[j]);
            }
        }
    }
}

/// The search of a quad looks at its centre and at its four corners.
pub proof fn searched_quads_are_looked_at<'a, S: Metric, W: Wide<S> + Metric>(
    ev: LimitEvaluator<'a, S>,
    q: Seq<W>,
    tolerance: W,
    a: Progress<W>,
    face: u32,
    seg: Seq<Offer<W>>,
    b: Progress<W>,
    c: int,
)
    requires
        quad_searched::<S, W>(ev, q, tolerance, a, face, seg, b),
        0 <= c < 4,
    ensures
        offered_at(seg, face, centre_of::<W>()),
        offered_at(seg, face, corner_place::<W>(c)),
{
    reveal(quad_searched);
    let start = quad_start(a, face);
    let (k, mid) = choose|k: int, mid: Progress<W>|
        0 <= k <= seg.len() && #[trigger] corners_started::<S, W>(ev, q, face, 0, start, seg.take(k), mid)
            && seeds_run::<S, W>(ev, q, tolerance, mid.agenda, 0, seg.skip(k), b.agenda) && b.corner_runs
            == mid.corner_runs;
    lemma_corners_are_due::<S, W>(ev, q, face, 0, start, seg.take(k), mid, c);
    assert(mid.agenda.seeds[0] == start.agenda.seeds[0]);
    lemma_seeds_are_looked_at::<S, W>(ev, q, tolerance, mid.agenda, 0, seg.skip(k), b.agenda, 0);
    lemma_offered_in_part(seg.skip(k), seg, k, face, centre_of::<W>());
    let at = corner_place::<W>(c);
    if offered_at(seg.take(k), face, at) {
        lemma_offered_in_part(seg.take(k), seg, 0, face, at);
    } else {
        let seeds = mid.agenda.seeds;
        let j = choose|j: int| 0 <= j < seeds.len() && same_seed(#[trigger] seeds[j], (face, at));
        lemma_seeds_are_looked_at::<S, W>(ev, q, tolerance, mid.agenda, 0, seg.skip(k), b.agenda, j);
        let rest = seg.skip(k);
        let i = choose|i: int|
            0 <= i < rest.len() && same_seed(((#[trigger] rest[i]).face, rest[i].uv), (seeds[j].0, seeds[j].1));
        assert(same_seed((rest[i].face, rest[i].uv), (face, at)));
        lemma_offered_in_part(rest, seg, k, face, at);
    }
}

/// The result of a search is no farther than the centre and the four corners of
/// each quad that was searched.
pub proof fn searched_quads_are_no_closer<'a, S: Metric, W: Wide<S> + Metric>(
    ev: LimitEvaluator<'a, S>,
    q: Seq<W>,
    index: SearchIndex<S, W>,
    log: Seq<Offer<W>>,
    trail: Trail<W>,
    k: int,
    c: int,
)
    requires
        ordered::<W>(),
        followed::<S, W>(ev, q, index, log, trail),
        0 <= k < trail.faces.len(),
        0 <= c < 4,
    ensures
        offered_at(log, trail.faces[k], centre_of::<W>()),
        offered_at(log, trail.faces[k], corner_place::<W>(c)),
        forall|i: int| 0 <= i < log.len() ==> !W::less_of((#[trigger] log[i]).dist2, best_of(log).dist2),
{
    assert(searched_in_turn::<S, W>(ev, q, index, log, trail, k));
    let face = trail.faces[k];
    let seg = log.subrange(trail.cuts[k], trail.cuts[k + 1]);
    searched_quads_are_looked_at::<S, W>(
        ev,
        q,
        W::times_of(W::tiny_of(6), index.diag),
        trail.stages[k],
        face,
        seg,
        trail.stages[k + 1],
        c,
    );
    lemma_offered_in_part(seg, log, trail.cuts[k], face, centre_of::<W>());
    lemma_offered_in_part(seg, log, trail.cuts[k], face, corner_place::<W>(c));
    assert forall|i: int| 0 <= i < log.len() implies !W::less_of(
        (#[trigger] log[i]).dist2,
        best_of(log).dist2,
    ) by {
        no_offer_is_closer(log, i);
    }
}

} // verus!
