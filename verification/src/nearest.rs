//! The closest point of a surface, by the boxes of its quads.

use crate::blends::{lemma_sampled_node, samples_are_unique};
use crate::bounds::{boxes_joined, join_all, tree_ok, BoxModel, SearchIndex};
use crate::closest_point::{
    beaten, best_of, best_offer_was_made, box_distance, centre_of, finished, found_by, honest, in_wide, no_offer,
    no_offer_is_closer, offer_of, ordered, rounded, ruled_out, same_seed, seen, settled, ClosestPoint, Offer, Trail,
    Visits,
};
use crate::error::KernelError;
use crate::hulls::{bounds_exactly, in_square, quads_stay_in_their_box};
use crate::limit_eval::{
    clamped, corner_place, node_frame, place, quadrant_of, sampled, snap_target_of, widened, LimitEvaluator,
    SampleModel, MAX_ISOLATION_DEPTH,
};
use crate::means::orders_exactly;
use crate::metric::{difference_of, length_of, norm2_of, nothing_of, scaled_of, unit_of, Metric};
use crate::options::{BoundaryInterpolation, SchemeOptions};
use crate::patch::regular_quad;
use crate::scalar::{one_of, Scalar, Wide};
use crate::searches::{offered_at, searched_quads_are_no_closer};
use crate::topology::{Adjacency, Mesh};
use crate::unity::reads_both;
use crate::weights::{lemma_one, reads_exactly};
use vstd::prelude::*;

verus! {

/// The order of the distances of the boxes is that of the numbers.
pub open spec fn ranks_boxes<S: Metric, W: Wide<S> + Metric>(
    wal: spec_fn(W) -> real,
    index: SearchIndex<S, W>,
    q: Seq<W>,
) -> bool {
    forall|i: int, face: u32, d: W|
        #![trigger index.nodes@[i], box_distance(index, q, face, d)]
        0 <= i < index.nodes@.len() && box_distance(index, q, face, d) && W::order_of(
            index.nodes@[i].aabb@.distance2::<W>(q),
        ) <= W::order_of(d) ==> wal(index.nodes@[i].aabb@.distance2::<W>(q)) <= wal(d)
}

// ---------------------------------------------------------------------------
// Distances of boxes
// ---------------------------------------------------------------------------
/// A number held between two bounds.
pub open spec fn held(x: real, lo: real, hi: real) -> real {
    if x < lo {
        lo
    } else if hi < x {
        hi
    } else {
        x
    }
}

proof fn lemma_square_order(a: real, b: real)
    requires
        (0 as real <= a <= b) || (b <= a <= 0 as real),
    ensures
        a * a <= b * b,
{
    assert(a * a <= b * b) by (nonlinear_arith)
        requires
            (0 as real <= a <= b) || (b <= a <= 0 as real),
    ;
}

/// The square of the gap between a box and a point along an axis.
pub(crate) proof fn lemma_gap<S: Metric, W: Wide<S>>(
    val: spec_fn(S) -> real,
    wal: spec_fn(W) -> real,
    b: BoxModel<S>,
    q: Seq<W>,
    c: int,
)
    requires
        reads_both::<S, W>(val, wal),
        orders_exactly(wal),
    ensures
        ({
            let t = held(wal(q[c]), val(b.min[c]), val(b.max[c])) - wal(q[c]);
            wal(b.gap::<W>(q, c)) == t * t
        }),
{
    let x = crate::metric::bounded_of(q[c], W::widen_of(b.min[c]), W::widen_of(b.max[c]));
    assert(wal(W::widen_of(b.min[c])) == val(b.min[c]));
    assert(wal(W::widen_of(b.max[c])) == val(b.max[c]));
    assert(wal(x) == held(wal(q[c]), val(b.min[c]), val(b.max[c])));
    let t = W::minus_of(x, q[c]);
    assert(wal(t) == wal(x) - wal(q[c]));
    assert(wal(W::times_of(t, t)) == wal(t) * wal(t));
}

/// A box that holds another is no farther.
proof fn lemma_gap_shrinks(x: real, lo: real, hi: real, a: real, b: real)
    requires
        lo <= a,
        b <= hi,
        a <= b,
    ensures
        ({
            let s = held(x, lo, hi) - x;
            let t = held(x, a, b) - x;
            s * s <= t * t
        }),
{
    lemma_square_order(held(x, lo, hi) - x, held(x, a, b) - x);
}

proof fn lemma_distance_shrinks<S: Metric, W: Wide<S>>(
    val: spec_fn(S) -> real,
    wal: spec_fn(W) -> real,
    outer: BoxModel<S>,
    inner: BoxModel<S>,
    q: Seq<W>,
)
    requires
        reads_both::<S, W>(val, wal),
        orders_exactly(wal),
        forall|c: int|
            0 <= c < 3 ==> val(outer.min[c]) <= val(#[trigger] inner.min[c]) && val(inner.min[c]) <= val(inner.max[c])
                && val(inner.max[c]) <= val(outer.max[c]),
    ensures
        wal(outer.distance2::<W>(q)) <= wal(inner.distance2::<W>(q)),
{
    assert forall|c: int| 0 <= c < 3 implies wal(#[trigger] outer.gap::<W>(q, c)) <= wal(inner.gap::<W>(q, c)) by {
        lemma_gap::<S, W>(val, wal, outer, q, c);
        lemma_gap::<S, W>(val, wal, inner, q, c);
        assert(val(outer.min[c]) <= val(inner.min[c]) && val(inner.min[c]) <= val(inner.max[c]) && val(inner.max[c])
            <= val(outer.max[c]));
        lemma_gap_shrinks(wal(q[c]), val(outer.min[c]), val(outer.max[c]), val(inner.min[c]), val(inner.max[c]));
    }
    lemma_distance_sum::<S, W>(wal, outer, q);
    lemma_distance_sum::<S, W>(wal, inner, q);
    assert(wal(outer.gap::<W>(q, 0)) <= wal(inner.gap::<W>(q, 0)));
    assert(wal(outer.gap::<W>(q, 1)) <= wal(inner.gap::<W>(q, 1)));
    assert(wal(outer.gap::<W>(q, 2)) <= wal(inner.gap::<W>(q, 2)));
}

pub(crate) proof fn lemma_distance_sum<S: Metric, W: Wide<S>>(wal: spec_fn(W) -> real, b: BoxModel<S>, q: Seq<W>)
    requires
        reads_exactly(wal),
    ensures
        wal(b.distance2::<W>(q)) == wal(b.gap::<W>(q, 0)) + wal(b.gap::<W>(q, 1)) + wal(b.gap::<W>(q, 2)),
{
    let a = W::plus_of(b.gap::<W>(q, 0), b.gap::<W>(q, 1));
    assert(wal(a) == wal(b.gap::<W>(q, 0)) + wal(b.gap::<W>(q, 1)));
}

/// A point in a box is no closer than the box.
pub proof fn points_are_no_closer_than_their_box<S: Metric, W: Wide<S>>(
    val: spec_fn(S) -> real,
    wal: spec_fn(W) -> real,
    b: BoxModel<S>,
    p: Seq<S>,
    q: Seq<W>,
)
    requires
        reads_both::<S, W>(val, wal),
        orders_exactly(wal),
        p.len() == 3,
        forall|c: int| 0 <= c < 3 ==> val(b.min[c]) <= val(#[trigger] p[c]) <= val(b.max[c]),
    ensures
        wal(b.distance2::<W>(q)) <= wal(norm2_of(difference_of(widened::<S, W>(p), q))),
{
    let w = widened::<S, W>(p);
    let d = difference_of(w, q);
    assert forall|c: int| 0 <= c < 3 implies wal(#[trigger] b.gap::<W>(q, c)) <= wal(W::times_of(d[c], d[c])) by {
        lemma_gap::<S, W>(val, wal, b, q, c);
        assert(val(b.min[c]) <= val(p[c]) <= val(b.max[c]));
        assert(w[c] == W::widen_of(p[c]));
        assert(d[c] == W::minus_of(w[c], q[c]));
        let x = wal(q[c]);
        let y = val(p[c]);
        assert(wal(d[c]) == y - x);
        assert(wal(W::times_of(d[c], d[c])) == wal(d[c]) * wal(d[c]));
        lemma_gap_shrinks(x, val(b.min[c]), val(b.max[c]), y, y);
        assert(held(x, y, y) == y);
    }
    lemma_distance_sum::<S, W>(wal, b, q);
    assert(wal(b.gap::<W>(q, 0)) <= wal(W::times_of(d[0], d[0])));
    assert(wal(b.gap::<W>(q, 1)) <= wal(W::times_of(d[1], d[1])));
    assert(wal(b.gap::<W>(q, 2)) <= wal(W::times_of(d[2], d[2])));
    let a = W::plus_of(W::times_of(d[0], d[0]), W::times_of(d[1], d[1]));
    assert(wal(a) == wal(W::times_of(d[0], d[0])) + wal(W::times_of(d[1], d[1])));
    assert(norm2_of(d) == W::plus_of(a, W::times_of(d[2], d[2])));
}

// ---------------------------------------------------------------------------
// Boxes of nodes
// ---------------------------------------------------------------------------
proof fn lemma_join_holds<S: Metric>(
    val: spec_fn(S) -> real,
    boxes: Seq<crate::bounds::Aabb<S>>,
    faces: Seq<u32>,
    k: int,
    i: int,
    c: int,
)
    requires
        bounds_exactly(val),
        0 <= i < k <= faces.len(),
        0 <= c < 3,
    ensures
        val(join_all(boxes, faces, k).min[c]) <= val(boxes[faces[i] as int]@.min[c]),
        val(boxes[faces[i] as int]@.max[c]) <= val(join_all(boxes, faces, k).max[c]),
    decreases k,
{
    let before = join_all(boxes, faces, k - 1);
    let own = boxes[faces[k - 1] as int]@;
    let all = join_all(boxes, faces, k);
    assert(all.min[c] == S::smaller_of(before.min[c], own.min[c]));
    assert(all.max[c] == S::larger_of(before.max[c], own.max[c]));
    if i < k - 1 {
        lemma_join_holds(val, boxes, faces, k - 1, i, c);
    }
}

/// The box of a node holds the boxes of the faces below it.
pub proof fn nodes_hold_their_faces<S: Metric, W: Wide<S> + Metric>(
    val: spec_fn(S) -> real,
    index: SearchIndex<S, W>,
    i: int,
    face: u32,
    c: int,
)
    requires
        bounds_exactly(val),
        tree_ok(index.nodes@, index.order@, index.boxes@, i),
        index.faces_under(i).contains(face),
        0 <= c < 3,
    ensures
        val(index.nodes@[i].aabb@.min[c]) <= val(index.boxes@[face as int]@.min[c]),
        val(index.boxes@[face as int]@.max[c]) <= val(index.nodes@[i].aabb@.max[c]),
{
    let faces = index.faces_under(i);
    let b = index.nodes@[i].aabb@;
    assert(boxes_joined(index.boxes@, faces, b));
    let list = choose|list: Seq<u32>| #[trigger]
        list.to_multiset() == faces.to_multiset() && list.len() == faces.len() && b == join_all(
            index.boxes@,
            list,
            list.len() as int,
        );
    faces.to_multiset_ensures();
    list.to_multiset_ensures();
    assert(faces.to_multiset().contains(face));
    assert(list.to_multiset().contains(face));
    assert(list.contains(face));
    let k = list.index_of(face);
    lemma_join_holds(val, index.boxes@, list, list.len() as int, k, c);
}

// ---------------------------------------------------------------------------
// Quads that were ruled out
// ---------------------------------------------------------------------------
/// The best offer gets no farther when more offers are made.
proof fn lemma_best_shrinks<W: Metric>(wal: spec_fn(W) -> real, log: Seq<Offer<W>>, k: int)
    requires
        orders_exactly(wal),
        0 <= k <= log.len(),
    ensures
        wal(best_of(log).dist2) <= wal(best_of(log.take(k)).dist2),
    decreases log.len(),
{
    if k == log.len() {
        assert(log.take(k) =~= log);
    } else {
        lemma_best_shrinks(wal, log.drop_last(), k);
        assert(log.drop_last().take(k) =~= log.take(k));
    }
}

proof fn lemma_place_in_square<S: Scalar, W: Wide<S>>(wal: spec_fn(W) -> real, uv: Seq<S>)
    requires
        reads_exactly(wal),
        orders_exactly(wal),
    ensures
        in_square(wal, place::<S, W>(uv)),
{
    lemma_one::<W>(wal);
    assert(place::<S, W>(uv).0 == clamped(W::widen_of(uv[0])));
}

/// A box around a face is no closer than the best offer in the end, if it was ruled
/// out.
proof fn lemma_ruled_out_far<S: Metric, W: Wide<S> + Metric>(
    val: spec_fn(S) -> real,
    wal: spec_fn(W) -> real,
    index: SearchIndex<S, W>,
    q: Seq<W>,
    log: Seq<Offer<W>>,
    trail: Trail<W>,
    face: u32,
)
    requires
        reads_both::<S, W>(val, wal),
        orders_exactly(wal),
        bounds_exactly(val),
        ranks_boxes(wal, index, q),
        ruled_out(index, q, log, trail, face),
        forall|k: int| 0 <= k < trail.cuts.len() ==> 0 <= #[trigger] trail.cuts[k] <= log.len(),
        forall|c: int|
            0 <= c < 3 ==> val(#[trigger] index.boxes@[face as int]@.min[c]) <= val(index.boxes@[face as int]@.max[c]),
    ensures
        wal(best_of(log).dist2) <= wal(index.boxes@[face as int]@.distance2::<W>(q)),
{
    let (d, k) = choose|d: W, k: int|
        #![trigger box_distance(index, q, face, d), log.take(trail.cuts[k])]
        0 <= k < trail.cuts.len() && box_distance(index, q, face, d) && beaten(
            index,
            q,
            d,
            best_of(log.take(trail.cuts[k])).dist2,
        );
    let then = best_of(log.take(trail.cuts[k])).dist2;
    assert(0 <= trail.cuts[k] <= log.len());
    lemma_best_shrinks(wal, log, trail.cuts[k]);
    assert(wal(then) <= wal(d)) by {
        if W::less_of(d, then) {
            let i = choose|i: int|
                0 <= i < index.nodes@.len() && W::order_of((#[trigger] index.nodes@[i]).aabb@.distance2::<W>(q))
                    <= W::order_of(d) && W::at_most_of(then, index.nodes@[i].aabb@.distance2::<W>(q));
            let n = index.nodes@[i].aabb@.distance2::<W>(q);
            assert(wal(n) <= wal(d));
            assert(wal(then) <= wal(n));
        }
    }
    let own = index.boxes@[face as int]@;
    assert(wal(d) <= wal(own.distance2::<W>(q))) by {
        if d != own.distance2::<W>(q) {
            let i = choose|i: int|
                tree_ok(index.nodes@, index.order@, index.boxes@, i) && #[trigger] index.faces_under(i).contains(face)
                    && d == index.nodes@[i].aabb@.distance2::<W>(q);
            let outer = index.nodes@[i].aabb@;
            assert forall|c: int| 0 <= c < 3 implies val(outer.min[c]) <= val(#[trigger] own.min[c]) && val(
                own.min[c],
            ) <= val(own.max[c]) && val(own.max[c]) <= val(outer.max[c]) by {
                nodes_hold_their_faces(val, index, i, face, c);
            }
            lemma_distance_shrinks::<S, W>(val, wal, outer, own, q);
        }
    }
}

/// A limit point has three coordinates.
proof fn lemma_sample_size<S: Scalar, W: Wide<S>>(
    mesh: Mesh<S>,
    adj: Adjacency,
    options: SchemeOptions,
    positions: Seq<[S; 3]>,
    face: u32,
    uv: (W, W),
    left: nat,
    s: SampleModel<S, W>,
)
    requires
        sampled::<S, W>(mesh, adj, options, positions, face, uv, left, Ok(s)),
    ensures
        s.p.len() == 3,
    decreases left,
{
    if regular_quad(mesh, adj, face as int) || snap_target_of(mesh, adj, options, face, uv) is Some || left == 0 {
        reveal(sampled);
    } else {
        let (node, inner) = lemma_sampled_node::<S, W>(mesh, adj, options, positions, face, uv, left, s);
        let k = quadrant_of(uv);
        lemma_sample_size::<S, W>(
            node.refined.topology,
            node.refined.adjacency,
            options,
            node.positions@,
            node.children@[k].face,
            node_frame::<S, W>(node, k).inside(uv),
            (left - 1) as nat,
            inner->Ok_0,
        );
    }
}

/// No limit point of a quad that a search ruled out is closer than the result of the
/// search, unless arithmetic rounds. The boundary is interpolated, or the quad is
/// regular.
pub proof fn ruled_out_quads_are_no_closer<'a, S: Metric, W: Wide<S> + Metric>(
    val: spec_fn(S) -> real,
    wal: spec_fn(W) -> real,
    ev: LimitEvaluator<'a, S>,
    q: Seq<W>,
    index: SearchIndex<S, W>,
    log: Seq<Offer<W>>,
    trail: Trail<W>,
    visits: Visits<W>,
    r: Result<ClosestPoint<S>, KernelError>,
    face: u32,
    uv: Seq<S>,
    s: SampleModel<S, W>,
)
    requires
        reads_both::<S, W>(val, wal),
        orders_exactly(val),
        orders_exactly(wal),
        bounds_exactly(val),
        ranks_boxes(wal, index, q),
        ev.wf(),
        ev.result.options.boundary_interpolation != BoundaryInterpolation::Natural || regular_quad(
            ev.mesh(),
            ev.adj(),
            face as int,
        ),
        found_by::<S, W>(ev, q, index, log, trail, visits, r),
        face < ev.mesh().face_vertex_counts@.len(),
        !trail.faces.contains(face),
        ev.sample_at::<W>(face, uv, Ok(s)),
    ensures
        wal(best_of(log).dist2) <= wal(norm2_of(difference_of(widened::<S, W>(s.p), q))),
{
    assert(settled(index, q, log, trail, face));
    let b = index.boxes@[face as int]@;
    lemma_place_in_square::<S, W>(wal, uv);
    assert forall|c: int| 0 <= c < 3 implies val(b.min[c]) <= val(#[trigger] s.p[c]) <= val(b.max[c]) by {
        quads_stay_in_their_box::<S, W>(
            val,
            wal,
            ev.mesh(),
            ev.adj(),
            ev.result.options,
            ev.positions@,
            face,
            place::<S, W>(uv),
            MAX_ISOLATION_DEPTH as nat,
            s,
            b,
            c,
        );
    }
    assert forall|c: int| 0 <= c < 3 implies val(#[trigger] index.boxes@[face as int]@.min[c]) <= val(
        index.boxes@[face as int]@.max[c],
    ) by {
        assert(val(b.min[c]) <= val(s.p[c]) <= val(b.max[c]));
    }
    assert forall|k: int| 0 <= k < trail.cuts.len() implies 0 <= #[trigger] trail.cuts[k] <= log.len() by {
        if k < trail.faces.len() {
            assert(crate::closest_point::searched_in_turn::<S, W>(ev, q, index, log, trail, k));
        } else {
            assert(trail.cuts[k] == trail.cuts.last());
        }
    }
    lemma_ruled_out_far::<S, W>(val, wal, index, q, log, trail, face);
    lemma_sample_size::<S, W>(
        ev.mesh(),
        ev.adj(),
        ev.result.options,
        ev.positions@,
        face,
        place::<S, W>(uv),
        MAX_ISOLATION_DEPTH as nat,
        s,
    );
    points_are_no_closer_than_their_box::<S, W>(val, wal, b, s.p, q);
}

/// The order of numbers tells a place from the places of the offers.
pub open spec fn ranks_places<W: Metric>(log: Seq<Offer<W>>, at: (W, W)) -> bool {
    forall|i: int|
        0 <= i < log.len() ==> (W::order_of((#[trigger] log[i]).uv.0) == W::order_of(at.0) ==> log[i].uv.0 == at.0)
            && (W::order_of(log[i].uv.1) == W::order_of(at.1) ==> log[i].uv.1 == at.1)
}

/// A place that a search looked at is no closer than its result.
proof fn lemma_offered_far<'a, S: Metric, W: Wide<S> + Metric>(
    val: spec_fn(S) -> real,
    wal: spec_fn(W) -> real,
    ev: LimitEvaluator<'a, S>,
    q: Seq<W>,
    log: Seq<Offer<W>>,
    face: u32,
    at: (W, W),
    s: SampleModel<S, W>,
)
    requires
        reads_both::<S, W>(val, wal),
        orders_exactly(wal),
        ranks_places(log, at),
        forall|i: int| 0 <= i < log.len() ==> honest::<S, W>(ev, q, #[trigger] log[i]),
        offered_at(log, face, at),
        ev.sample_at::<W>(face, rounded::<S, W>(at), Ok(s)),
    ensures
        wal(best_of(log).dist2) <= wal(norm2_of(difference_of(widened::<S, W>(s.p), q))),
{
    let i = choose|i: int| 0 <= i < log.len() && same_seed(((#[trigger] log[i]).face, log[i].uv), (face, at));
    let o = log[i];
    assert(o.uv == at);
    assert(honest::<S, W>(ev, q, log[i]));
    reveal(honest);
    reveal(seen);
    let wide = choose|s: SampleModel<W, W>| #[trigger]
        seen::<S, W>(ev, o.face, o.uv, Ok(s)) && o == offer_of(q, o.face, o.uv, s);
    let inner = choose|inner: Result<SampleModel<S, W>, KernelError>| #[trigger]
        ev.sample_at::<W>(o.face, rounded::<S, W>(o.uv), inner) && Ok::<_, KernelError>(wide) == in_wide::<S, W>(inner);
    samples_are_unique::<S, W>(
        ev.mesh(),
        ev.adj(),
        ev.result.options,
        ev.positions@,
        face,
        place::<S, W>(rounded::<S, W>(at)),
        MAX_ISOLATION_DEPTH as nat,
        s,
        inner->Ok_0,
    );
    assert(ordered::<W>());
    no_offer_is_closer(log, i);
}

/// What a search found: the best of its offers, with its distance, and a sign where the
/// surface has no boundary. The centre and the corners of every quad are no closer, and
/// neither is any other place of a quad that was ruled out. The other places of a quad
/// that was searched are left to the search in it, which follows the slope of the
/// distance and may end at a place where no step leads closer.
pub proof fn results_are_the_closest<'a, S: Metric, W: Wide<S> + Metric>(
    val: spec_fn(S) -> real,
    wal: spec_fn(W) -> real,
    ev: LimitEvaluator<'a, S>,
    q: Seq<W>,
    index: SearchIndex<S, W>,
    log: Seq<Offer<W>>,
    trail: Trail<W>,
    visits: Visits<W>,
    point: ClosestPoint<S>,
    face: u32,
    at: (W, W),
    s: SampleModel<S, W>,
)
    requires
        reads_both::<S, W>(val, wal),
        orders_exactly(val),
        orders_exactly(wal),
        ranks_places(log, at),
        bounds_exactly(val),
        ranks_boxes(wal, index, q),
        ev.wf(),
        ev.result.options.boundary_interpolation != BoundaryInterpolation::Natural || regular_quad(
            ev.mesh(),
            ev.adj(),
            face as int,
        ) || trail.faces.contains(face),
        found_by::<S, W>(ev, q, index, log, trail, visits, Ok(point)),
        face < ev.mesh().face_vertex_counts@.len(),
        ev.sample_at::<W>(face, rounded::<S, W>(at), Ok(s)),
        !trail.faces.contains(face) || at == centre_of::<W>() || exists|c: int|
            0 <= c < 4 && at == #[trigger] corner_place::<W>(c),
    ensures
        point.face == best_of(log).face,
        point.distance == W::narrow_of(W::sqrt_of(best_of(log).dist2)),
        wal(best_of(log).dist2) <= wal(norm2_of(difference_of(widened::<S, W>(s.p), q))),
{
    let r: Result<ClosestPoint<S>, KernelError> = Ok(point);
    assert(finished::<S, W>(ev, q, index.closed, best_of(log), r));
    if trail.faces.contains(face) {
        assert(ordered::<W>());
        let k = trail.faces.index_of(face);
        let c = if at == centre_of::<W>() {
            0
        } else {
            choose|c: int| 0 <= c < 4 && at == #[trigger] corner_place::<W>(c)
        };
        searched_quads_are_no_closer::<S, W>(ev, q, index, log, trail, k, c);
        lemma_offered_far::<S, W>(val, wal, ev, q, log, face, at, s);
    } else {
        ruled_out_quads_are_no_closer::<S, W>(
            val,
            wal,
            ev,
            q,
            index,
            log,
            trail,
            visits,
            r,
            face,
            rounded::<S, W>(at),
            s,
        );
    }
}

// ---------------------------------------------------------------------------
// The point itself
// ---------------------------------------------------------------------------
/// The best offer of a search, if any was made, is the limit of the quad and the place
/// that the result names; the result has its position and its distance. There is a sign
/// if and only if no edge is on a boundary, and the signed distance is the distance or
/// its negative.
pub proof fn results_are_on_the_surface<'a, S: Metric, W: Wide<S> + Metric>(
    val: spec_fn(S) -> real,
    wal: spec_fn(W) -> real,
    ev: LimitEvaluator<'a, S>,
    q: Seq<W>,
    index: SearchIndex<S, W>,
    log: Seq<Offer<W>>,
    trail: Trail<W>,
    visits: Visits<W>,
    point: ClosestPoint<S>,
)
    requires
        reads_both::<S, W>(val, wal),
        roots_exactly(wal),
        found_by::<S, W>(ev, q, index, log, trail, visits, Ok(point)),
        best_of(log) != no_offer::<W>(),
    ensures
        point.face < ev.mesh().face_vertex_counts@.len(),
        exists|s: SampleModel<S, W>| #[trigger]
            ev.sample_at::<W>(point.face, point.uv@, Ok(s)) && forall|c: int|
                0 <= c < 3 ==> val(#[trigger] point.position@[c]) == val(s.p[c]),
        val(point.distance) >= 0 as real,
        val(point.distance) * val(point.distance) == (val(point.position@[0]) - wal(q[0])) * (val(point.position@[0])
            - wal(q[0])) + (val(point.position@[1]) - wal(q[1])) * (val(point.position@[1]) - wal(q[1])) + (val(
            point.position@[2],
        ) - wal(q[2])) * (val(point.position@[2]) - wal(q[2])),
        point.signed_distance is Some <==> !(exists|e: int|
            0 <= e < ev.adj().edge_is_boundary@.len() && #[trigger] ev.adj().edge_is_boundary@[e]),
        point.signed_distance is Some ==> val(point.signed_distance->Some_0) == val(point.distance) || val(
            point.signed_distance->Some_0,
        ) == -val(point.distance),
{
    let r: Result<ClosestPoint<S>, KernelError> = Ok(point);
    let best = best_of(log);
    assert(finished::<S, W>(ev, q, index.closed, best, r));
    best_offer_was_made(log);
    let i = log.index_of(best);
    assert(honest::<S, W>(ev, q, log[i]));
    reveal(honest);
    reveal(seen);
    let wide = choose|s: SampleModel<W, W>| #[trigger]
        seen::<S, W>(ev, best.face, best.uv, Ok(s)) && best == offer_of(q, best.face, best.uv, s);
    let inner = choose|inner: Result<SampleModel<S, W>, KernelError>| #[trigger]
        ev.sample_at::<W>(best.face, rounded::<S, W>(best.uv), inner) && Ok::<_, KernelError>(wide) == in_wide::<
            S,
            W,
        >(inner);
    let s = inner->Ok_0;
    assert(ev.sample_at::<W>(point.face, point.uv@, Ok(s)));
    lemma_sample_size::<S, W>(
        ev.mesh(),
        ev.adj(),
        ev.result.options,
        ev.positions@,
        point.face,
        place::<S, W>(point.uv@),
        MAX_ISOLATION_DEPTH as nat,
        s,
    );
    assert forall|c: int| 0 <= c < 3 implies val(#[trigger] point.position@[c]) == val(s.p[c]) by {
        assert(point.position@[c] == W::narrow_of(W::widen_of(s.p[c])));
    }
    let d = difference_of(best.position, q);
    lemma_norm2(wal, d);
    assert forall|c: int| 0 <= c < 3 implies wal(#[trigger] d[c]) == val(point.position@[c]) - wal(q[c]) by {
        assert(best.position[c] == W::widen_of(s.p[c]));
        assert(d[c] == W::minus_of(best.position[c], q[c]));
        assert(val(point.position@[c]) == val(s.p[c]));
    }
    let x = wal(d[0]);
    let y = wal(d[1]);
    let z = wal(d[2]);
    assert(x * x >= 0 as real) by (nonlinear_arith);
    assert(y * y >= 0 as real) by (nonlinear_arith);
    assert(z * z >= 0 as real) by (nonlinear_arith);
    assert(best.dist2 == norm2_of(d));
    let root = W::sqrt_of(best.dist2);
    assert(wal(root) >= 0 as real && wal(root) * wal(root) == wal(best.dist2));
    assert(val(point.distance) == wal(root));
}

/// Roots are taken exactly, and lengths above the tolerance are above nought.
pub open spec fn roots_exactly<W: Metric>(wal: spec_fn(W) -> real) -> bool {
    &&& forall|a: W|
        wal(a) >= 0 as real ==> #[trigger] wal(W::sqrt_of(a)) >= 0 as real && wal(W::sqrt_of(a)) * wal(
            W::sqrt_of(a),
        ) == wal(a)
    &&& wal(W::tiny_of(12)) > 0 as real
}

proof fn lemma_unit(a: real, b: real, c: real, len: real, k: real)
    requires
        len > 0 as real,
        len * len == a * a + b * b + c * c,
        k == (1 as real) / len,
    ensures
        (a * k) * (a * k) + (b * k) * (b * k) + (c * k) * (c * k) == 1 as real,
{
    let m = k * k;
    assert((a * k) * (a * k) == (a * a) * m) by (nonlinear_arith)
        requires
            m == k * k,
    ;
    assert((b * k) * (b * k) == (b * b) * m) by (nonlinear_arith)
        requires
            m == k * k,
    ;
    assert((c * k) * (c * k) == (c * c) * m) by (nonlinear_arith)
        requires
            m == k * k,
    ;
    let s = a * a + b * b + c * c;
    assert((a * a) * m + (b * b) * m + (c * c) * m == s * m) by (nonlinear_arith)
        requires
            s == a * a + b * b + c * c,
    ;
    assert(k * len == 1 as real) by (nonlinear_arith)
        requires
            len > 0 as real,
            k == (1 as real) / len,
    ;
    assert(s * m == (k * len) * (k * len)) by (nonlinear_arith)
        requires
            s == len * len,
            m == k * k,
    ;
    let one = k * len;
    assert(one * one == 1 as real) by (nonlinear_arith)
        requires
            one == 1 as real,
    ;
}

/// The square of the length of a vector.
proof fn lemma_norm2<W: Scalar>(wal: spec_fn(W) -> real, a: Seq<W>)
    requires
        reads_exactly(wal),
    ensures
        wal(norm2_of(a)) == wal(a[0]) * wal(a[0]) + wal(a[1]) * wal(a[1]) + wal(a[2]) * wal(a[2]),
{
    let x = W::times_of(a[0], a[0]);
    let y = W::times_of(a[1], a[1]);
    let z = W::times_of(a[2], a[2]);
    assert(wal(W::plus_of(x, y)) == wal(x) + wal(y));
    assert(norm2_of(a) == W::plus_of(W::plus_of(x, y), z));
}

/// The normal of a result has length one, or is nought.
pub proof fn normals_are_units<W: Metric>(wal: spec_fn(W) -> real, a: Seq<W>)
    requires
        reads_exactly(wal),
        orders_exactly(wal),
        roots_exactly(wal),
    ensures
        unit_of(a) == nothing_of::<W>() || wal(norm2_of(unit_of(a))) == 1 as real,
{
    let len = length_of(a);
    if W::less_of(W::tiny_of(12), len) {
        let inv = W::over_of(one_of(), len);
        let u = scaled_of(a, inv);
        let x = wal(a[0]);
        let y = wal(a[1]);
        let z = wal(a[2]);
        let l = wal(len);
        let k = wal(inv);
        lemma_one::<W>(wal);
        lemma_norm2(wal, a);
        assert(x * x >= 0 as real) by (nonlinear_arith);
        assert(y * y >= 0 as real) by (nonlinear_arith);
        assert(z * z >= 0 as real) by (nonlinear_arith);
        assert(l * l == wal(norm2_of(a)));
        assert(k == (1 as real) / l);
        lemma_unit(x, y, z, l, k);
        lemma_norm2(wal, u);
        assert(wal(u[0]) == x * k && wal(u[1]) == y * k && wal(u[2]) == z * k);
    }
}

} // verus!
