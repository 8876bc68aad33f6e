//! The weights of every stencil sum up to one, where arithmetic does not round.

use crate::base::level_ok;
use crate::catmull_clark::stencils as cc;
use crate::doo_sabin::stencils as ds;
use crate::hashing::EdgeKey;
use crate::level::LevelData;
use crate::loop_subdivision::stencils as lp;
use crate::options::{Scheme, SchemeOptions, TriangleSubdivisionRule};
use crate::refiner::level_rows;
use crate::rules::{blended_edge_row, cornered_row, face_row, faces_merged, midpoint_row};
use crate::scalar::{one_of, zero_of, Scalar};
use crate::sharpness::{chosen, flagged_neighbors, lemma_chosen, rule_row, sharp_neighbors, sharp_row};
use crate::sqrt3::stencils as s3;
use crate::stencil::{accumulated, composed_row, first_entry, identity_row, merged, mixed, row_below};
use crate::topology::all_below;
use vstd::prelude::*;

verus! {

/// A reading of scalars as real numbers under which nothing is rounded.
pub open spec fn reads_exactly<S: Scalar>(val: spec_fn(S) -> real) -> bool {
    &&& forall|a: S, b: S| #[trigger] val(S::plus_of(a, b)) == val(a) + val(b)
    &&& forall|a: S, b: S| #[trigger] val(S::minus_of(a, b)) == val(a) - val(b)
    &&& forall|a: S, b: S| #[trigger] val(S::times_of(a, b)) == val(a) * val(b)
    &&& forall|a: S| #[trigger] val(S::negated_of(a)) == -val(a)
    &&& forall|a: S, b: S| val(b) != 0 as real ==> #[trigger] val(S::over_of(a, b)) == val(a) / val(b)
    &&& forall|p: u32, q: u32| q > 0 ==> #[trigger] val(S::ratio_of(p, q)) == (p as int as real) / (q as int as real)
}

/// The sum of the weights of a row.
pub open spec fn total<S>(val: spec_fn(S) -> real, row: Seq<(u32, S)>) -> real
    decreases row.len(),
{
    if row.len() == 0 {
        0 as real
    } else {
        total(val, row.drop_last()) + val(row.last().1)
    }
}

proof fn lemma_total_push<S>(val: spec_fn(S) -> real, row: Seq<(u32, S)>, i: u32, w: S)
    ensures
        total(val, row.push((i, w))) == total(val, row) + val(w),
{
    assert(row.push((i, w)).drop_last() =~= row);
}

proof fn lemma_total_updated<S: Scalar>(val: spec_fn(S) -> real, row: Seq<(u32, S)>, p: int, w: S)
    requires
        reads_exactly(val),
        0 <= p < row.len(),
    ensures
        total(val, row.update(p, (row[p].0, S::plus_of(row[p].1, w)))) == total(val, row) + val(w),
    decreases row.len(),
{
    let more = row.update(p, (row[p].0, S::plus_of(row[p].1, w)));
    let front = row.drop_last();
    if p == row.len() - 1 {
        assert(more.drop_last() =~= front);
        assert(val(S::plus_of(row[p].1, w)) == val(row[p].1) + val(w));
    } else {
        assert(more.drop_last() =~= front.update(p, (front[p].0, S::plus_of(front[p].1, w))));
        lemma_total_updated(val, front, p, w);
    }
}

proof fn lemma_total_accumulated<S: Scalar>(val: spec_fn(S) -> real, row: Seq<(u32, S)>, i: u32, w: S)
    requires
        reads_exactly(val),
    ensures
        total(val, accumulated(row, i, w)) == total(val, row) + val(w),
{
    if exists|p: int| first_entry(row, i, p) {
        let p = choose|p: int| first_entry(row, i, p);
        lemma_total_updated(val, row, p, w);
    } else {
        lemma_total_push(val, row, i, w);
    }
}

pub(crate) proof fn lemma_total_merged<S: Scalar>(
    val: spec_fn(S) -> real,
    row: Seq<(u32, S)>,
    src: Seq<(u32, S)>,
    w: S,
)
    requires
        reads_exactly(val),
    ensures
        total(val, merged(row, src, w)) == total(val, row) + val(w) * total(val, src),
    decreases src.len(),
{
    let x = val(w);
    if src.len() == 0 {
        assert(x * (0 as real) == 0 as real) by (nonlinear_arith);
    } else {
        let front = src.drop_last();
        lemma_total_merged(val, row, front, w);
        lemma_total_accumulated(val, merged(row, front, w), src.last().0, S::times_of(w, src.last().1));
        let a = total(val, front);
        let b = val(src.last().1);
        assert(val(S::times_of(w, src.last().1)) == x * b);
        assert(x * (a + b) == x * a + x * b) by (nonlinear_arith);
    }
}

pub(crate) proof fn lemma_one<S: Scalar>(val: spec_fn(S) -> real)
    requires
        reads_exactly(val),
    ensures
        val(one_of::<S>()) == 1 as real,
        val(zero_of::<S>()) == 0 as real,
{
    assert(val(S::ratio_of(1, 1)) == (1int as real) / (1int as real));
    assert(val(S::ratio_of(0, 1)) == (0int as real) / (1int as real));
}

pub(crate) proof fn lemma_single<S: Scalar>(val: spec_fn(S) -> real, i: u32, w: S)
    ensures
        total(val, seq![(i, w)]) == val(w),
{
    let row = seq![(i, w)];
    assert(row.drop_last() =~= Seq::<(u32, S)>::empty());
    assert(total(val, row.drop_last()) == 0 as real);
}

pub(crate) proof fn lemma_identity<S: Scalar>(val: spec_fn(S) -> real, v: u32)
    requires
        reads_exactly(val),
    ensures
        total(val, identity_row::<S>(v)) == 1 as real,
{
    lemma_one::<S>(val);
    lemma_single(val, v, one_of::<S>());
}

/// Two rows with sum one, mixed.
proof fn lemma_mixed<S: Scalar>(val: spec_fn(S) -> real, a: Seq<(u32, S)>, b: Seq<(u32, S)>, share: S)
    requires
        reads_exactly(val),
        total(val, a) == 1 as real,
        total(val, b) == 1 as real,
    ensures
        total(val, mixed(a, b, share)) == 1 as real,
{
    lemma_one::<S>(val);
    let rest = S::minus_of(one_of(), share);
    lemma_total_merged(val, Seq::empty(), a, rest);
    lemma_total_merged(val, merged(Seq::empty(), a, rest), b, share);
    let s = val(share);
    assert(val(rest) == 1 as real - s);
    assert((1 as real - s) * (1 as real) == 1 as real - s) by (nonlinear_arith);
    assert(s * (1 as real) == s) by (nonlinear_arith);
}

/// Rows of one weight.
pub(crate) proof fn lemma_uniform<S: Scalar>(val: spec_fn(S) -> real, row: Seq<(u32, S)>, w: S)
    requires
        forall|k: int| 0 <= k < row.len() ==> (#[trigger] row[k]).1 == w,
    ensures
        total(val, row) == (row.len() as int as real) * val(w),
    decreases row.len(),
{
    let x = val(w);
    if row.len() == 0 {
        assert((0int as real) * x == 0 as real) by (nonlinear_arith);
    } else {
        let front = row.drop_last();
        assert forall|k: int| 0 <= k < front.len() implies (#[trigger] front[k]).1 == w by {
            assert(row[k].1 == w);
        }
        lemma_uniform(val, front, w);
        assert(row[row.len() - 1].1 == w);
        let n = front.len() as int;
        assert(row.len() == n + 1);
        assert(((n + 1) as real) == (n as real) + (1 as real));
        assert(((n as real) + (1 as real)) * x == (n as real) * x + x) by (nonlinear_arith);
    }
}

proof fn lemma_face_row<S: Scalar>(val: spec_fn(S) -> real, face: Seq<u32>)
    requires
        reads_exactly(val),
        0 < face.len() <= u32::MAX,
    ensures
        total(val, face_row::<S>(face)) == 1 as real,
{
    let n = face.len() as int;
    let w = S::ratio_of(1, face.len() as u32);
    lemma_uniform(val, face_row::<S>(face), w);
    let r = n as real;
    assert(val(w) == (1int as real) / r);
    assert(r * ((1int as real) / r) == 1 as real) by (nonlinear_arith)
        requires
            r > 0 as real,
    ;
}

proof fn lemma_midpoint<S: Scalar>(val: spec_fn(S) -> real, edge: EdgeKey)
    requires
        reads_exactly(val),
    ensures
        total(val, midpoint_row::<S>(edge)) == 1 as real,
{
    let w = S::ratio_of(1, 2);
    lemma_uniform(val, midpoint_row::<S>(edge), w);
    assert(val(w) == (1int as real) / (2int as real));
}

proof fn lemma_blended<S: Scalar>(val: spec_fn(S) -> real, smooth: Seq<(u32, S)>, sharp: Seq<(u32, S)>, blend: S)
    requires
        reads_exactly(val),
        total(val, smooth) == 1 as real,
        total(val, sharp) == 1 as real,
    ensures
        total(val, blended_edge_row(smooth, sharp, blend)) == 1 as real,
{
    lemma_mixed(val, smooth, sharp, blend);
}

proof fn lemma_cornered<S: Scalar>(val: spec_fn(S) -> real, smooth: Seq<(u32, S)>, v: u32, corner: S)
    requires
        reads_exactly(val),
        total(val, smooth) == 1 as real,
    ensures
        total(val, cornered_row(smooth, v, corner)) == 1 as real,
{
    lemma_identity::<S>(val, v);
    lemma_mixed(val, smooth, identity_row::<S>(v), crate::sharpness::blend_of(corner));
}

/// Three entries.
proof fn lemma_three<S: Scalar>(val: spec_fn(S) -> real, a: (u32, S), b: (u32, S), c: (u32, S))
    ensures
        total(val, seq![a, b, c]) == val(a.1) + val(b.1) + val(c.1),
{
    let one = seq![a];
    let two = seq![a, b];
    let three = seq![a, b, c];
    assert(three.drop_last() =~= two);
    assert(two.drop_last() =~= one);
    lemma_single(val, a.0, a.1);
    assert(seq![(a.0, a.1)] =~= one);
    assert(total(val, two) == total(val, two.drop_last()) + val(two.last().1));
    assert(total(val, three) == total(val, three.drop_last()) + val(three.last().1));
}

proof fn lemma_rule_row<S: Scalar>(
    val: spec_fn(S) -> real,
    rule: int,
    v: u32,
    smooth: Seq<(u32, S)>,
    original: Seq<(u32, S)>,
    sharp: Seq<u32>,
)
    requires
        reads_exactly(val),
        total(val, smooth) == 1 as real,
        total(val, original) == 1 as real,
    ensures
        total(val, rule_row(rule, v, smooth, original, sharp)) == 1 as real,
{
    if rule == 2 && sharp.len() >= 2 {
        let e = S::ratio_of(1, 8);
        let s = S::ratio_of(6, 8);
        lemma_three(val, (v, s), (sharp.first(), e), (sharp.last(), e));
        assert(val(e) == (1int as real) / (8int as real));
        assert(val(s) == (6int as real) / (8int as real));
    }
}

proof fn lemma_sharp_row<S: Scalar>(
    val: spec_fn(S) -> real,
    v: u32,
    smooth: Seq<(u32, S)>,
    original: Seq<(u32, S)>,
    corner: S,
    neighbors: Seq<(u32, S)>,
)
    requires
        reads_exactly(val),
        total(val, smooth) == 1 as real,
        total(val, original) == 1 as real,
    ensures
        total(val, sharp_row(v, smooth, original, corner, neighbors)) == 1 as real,
{
    let now = crate::sharpness::sharp_list(neighbors, false);
    let next = crate::sharpness::sharp_list(neighbors, true);
    let parent_rule = crate::sharpness::vertex_rule(crate::sharpness::positive(corner), now.len());
    let child_rule = crate::sharpness::vertex_rule(
        crate::sharpness::positive(crate::sharpness::decremented(corner)),
        next.len(),
    );
    lemma_rule_row(val, parent_rule, v, smooth, original, now);
    lemma_rule_row(val, child_rule, v, smooth, original, next);
    lemma_mixed(
        val,
        rule_row(child_rule, v, smooth, original, next),
        rule_row(parent_rule, v, smooth, original, now),
        crate::sharpness::parent_share(corner, neighbors),
    );
}

/// A boundary vertex and its two neighbours.
proof fn lemma_boundary<S: Scalar>(val: spec_fn(S) -> real, v: u32, a: u32, b: u32)
    requires
        reads_exactly(val),
    ensures
        total(val, seq![(v, S::ratio_of(3, 4)), (a, S::ratio_of(1, 8)), (b, S::ratio_of(1, 8))]) == 1 as real,
{
    let e = S::ratio_of(1, 8);
    let s = S::ratio_of(3, 4);
    lemma_three(val, (v, s), (a, e), (b, e));
    assert(val(e) == (1int as real) / (8int as real));
    assert(val(s) == (3int as real) / (4int as real));
}

/// The rows of some faces, merged into a row.
proof fn lemma_faces_merged<S: Scalar>(
    val: spec_fn(S) -> real,
    base: Seq<(u32, S)>,
    list: Seq<u32>,
    faces: Seq<Seq<u32>>,
    weight: S,
)
    requires
        reads_exactly(val),
        forall|k: int| 0 <= k < list.len() ==> 0 < faces[#[trigger] list[k] as int].len() <= u32::MAX,
    ensures
        total(val, faces_merged(base, list, faces, weight)) == total(val, base) + (list.len() as int as real) * val(
            weight,
        ),
    decreases list.len(),
{
    let x = val(weight);
    if list.len() == 0 {
        assert((0int as real) * x == 0 as real) by (nonlinear_arith);
    } else {
        let front = list.drop_last();
        assert forall|k: int| 0 <= k < front.len() implies 0 < faces[#[trigger] front[k] as int].len() <= u32::MAX by {
            assert(list[k] == front[k]);
        }
        lemma_faces_merged(val, base, front, faces, weight);
        let last = list[list.len() - 1];
        assert(0 < faces[last as int].len() <= u32::MAX);
        lemma_face_row::<S>(val, faces[last as int]);
        lemma_total_merged(
            val,
            faces_merged(base, front, faces, weight),
            face_row::<S>(faces[last as int]),
            weight,
        );
        let n = front.len() as int;
        assert(list.len() == n + 1);
        assert(((n + 1) as real) == (n as real) + (1 as real));
        assert(((n as real) + (1 as real)) * x == (n as real) * x + x) by (nonlinear_arith);
        assert(x * (1 as real) == x) by (nonlinear_arith);
    }
}

// ---------------------------------------------------------------------------
// Catmull-Clark
// ---------------------------------------------------------------------------
proof fn lemma_ends<S: Scalar>(val: spec_fn(S) -> real, edge: EdgeKey, w: S)
    ensures
        total(val, cc::ends_row(edge, w)) == val(w) + val(w),
{
    lemma_uniform(val, cc::ends_row(edge, w), w);
    let x = val(w);
    assert((2int as real) * x == x + x) by (nonlinear_arith);
}

proof fn lemma_cc_smooth_edge<S: Scalar>(
    val: spec_fn(S) -> real,
    edge: EdgeKey,
    face_0: Seq<u32>,
    face_1: Seq<u32>,
    selected_0: bool,
    selected_1: bool,
    rule: TriangleSubdivisionRule,
)
    requires
        reads_exactly(val),
        0 < face_0.len() <= u32::MAX,
        0 < face_1.len() <= u32::MAX,
    ensures
        total(val, cc::smooth_edge_row::<S>(edge, face_0, face_1, selected_0, selected_1, rule)) == 1 as real,
{
    lemma_face_row::<S>(val, face_0);
    lemma_face_row::<S>(val, face_1);
    lemma_midpoint::<S>(val, edge);
    lemma_one::<S>(val);
    let third = S::ratio_of(1, 3);
    let quarter = S::ratio_of(1, 4);
    assert(val(third) == (1int as real) / (3int as real));
    assert(val(quarter) == (1int as real) / (4int as real));
    if selected_0 && selected_1 {
        let (vw, fw) = match rule {
            TriangleSubdivisionRule::SmoothTriangles => cc::smooth_tri_weights::<S>(face_0.len(), face_1.len()),
            TriangleSubdivisionRule::CatmullClark => (quarter, quarter),
        };
        let half = S::ratio_of(1, 2);
        let two = S::ratio_of(2, 1);
        assert(val(half) == (1int as real) / (2int as real));
        assert(val(two) == (2int as real) / (1int as real));
        assert(val(vw) + val(vw) + val(fw) + val(fw) == 1 as real) by {
            if rule == TriangleSubdivisionRule::SmoothTriangles && (face_0.len() == 3 || face_1.len() == 3) {
                let x = val(fw);
                assert(val(S::times_of(two, fw)) == val(two) * x);
                assert(val(S::minus_of(one_of(), S::times_of(two, fw))) == 1 as real - val(two) * x);
                assert(vw == S::times_of(half, S::minus_of(one_of(), S::times_of(two, fw))));
                assert(val(vw) == val(half) * (1 as real - val(two) * x));
            }
        }
        let start = cc::ends_row(edge, vw);
        lemma_ends(val, edge, vw);
        lemma_total_merged(val, start, face_row::<S>(face_0), fw);
        lemma_total_merged(val, merged(start, face_row::<S>(face_0), fw), face_row::<S>(face_1), fw);
        assert(val(fw) * (1 as real) == val(fw)) by (nonlinear_arith);
    } else if selected_0 {
        lemma_ends(val, edge, third);
        lemma_total_merged(val, cc::ends_row(edge, third), face_row::<S>(face_0), third);
    } else if selected_1 {
        lemma_ends(val, edge, third);
        lemma_total_merged(val, cc::ends_row(edge, third), face_row::<S>(face_1), third);
    }
}

/// What the sizes of the tables of a level allow.
proof fn lemma_sizes<S: Scalar>(level: LevelData<S>)
    requires
        level.wf(),
    ensures
        forall|f: int|
            0 <= f < level.topo.faces@.len() ==> 3 <= (#[trigger] level.topo.faces@[f]).len() <= u32::MAX,
        forall|v: int|
            0 <= v < level.n() ==> (#[trigger] level.topo.vertex_faces@[v]).len() <= u32::MAX,
{
    let t = level.topo;
    assert forall|f: int| 0 <= f < t.faces@.len() implies 3 <= (#[trigger] t.faces@[f]).len() <= u32::MAX by {
        crate::csr::lemma_row_within_flat(t.faces@, f);
    }
    crate::csr::lemma_packed_fits(t.vertex_faces);
    assert forall|v: int| 0 <= v < level.n() implies (#[trigger] t.vertex_faces@[v]).len() <= u32::MAX by {
        crate::csr::lemma_row_within_flat(t.vertex_faces@, v);
    }
}

proof fn lemma_cc_edge<S: Scalar>(val: spec_fn(S) -> real, level: LevelData<S>, options: SchemeOptions, e: int)
    requires
        reads_exactly(val),
        level.wf(),
        0 <= e < level.topo.edges().len(),
    ensures
        total(val, cc::cc_edge_row(level, options, e)) == 1 as real,
{
    let t = level.topo;
    let edge = t.edges()[e];
    let row = t.edge_faces@[e];
    lemma_sizes(level);
    lemma_midpoint::<S>(val, edge);
    if level.edge_has_selected_face@[e] && row.len() >= 2 {
        assert(row[0] < t.faces@.len());
        assert(row[1] < t.faces@.len());
        assert(t.faces@[row[0] as int].len() >= 3 && t.faces@[row[1] as int].len() >= 3);
        lemma_cc_smooth_edge::<S>(
            val,
            edge,
            t.faces@[row[0] as int],
            t.faces@[row[1] as int],
            level.face_selected@[row[0] as int],
            level.face_selected@[row[1] as int],
            options.triangle_subdivision_rule,
        );
        lemma_blended(
            val,
            cc::smooth_edge_row::<S>(
                edge,
                t.faces@[row[0] as int],
                t.faces@[row[1] as int],
                level.face_selected@[row[0] as int],
                level.face_selected@[row[1] as int],
                options.triangle_subdivision_rule,
            ),
            midpoint_row(edge),
            crate::sharpness::blend_of(level.effective_edge_creases@[e]),
        );
    }
}

proof fn lemma_midpoints<S: Scalar>(val: spec_fn(S) -> real, list: Seq<u32>, edges: Seq<EdgeKey>, v: u32)
    requires
        reads_exactly(val),
    ensures
        total(val, cc::midpoints_merged::<S>(list, edges, v)) == list.len() as int as real,
    decreases list.len(),
{
    if list.len() > 0 {
        let half = S::ratio_of(1, 2);
        let front = cc::midpoints_merged::<S>(list.drop_last(), edges, v);
        let other = crate::sharpness::other_end(edges[list.last() as int], v);
        lemma_midpoints::<S>(val, list.drop_last(), edges, v);
        lemma_one::<S>(val);
        lemma_single(val, v, half);
        lemma_single(val, other, half);
        lemma_total_merged(val, front, seq![(v, half)], one_of());
        lemma_total_merged(val, merged(front, seq![(v, half)], one_of()), seq![(other, half)], one_of());
        assert(val(half) == (1int as real) / (2int as real));
        assert((1 as real) * val(half) == val(half)) by (nonlinear_arith);
        assert(((list.len() as int) as real) == ((list.len() - 1) as real) + (1 as real));
    }
}

proof fn lemma_cc_smooth_vertex<S: Scalar>(
    val: spec_fn(S) -> real,
    v: u32,
    faces: Seq<Seq<u32>>,
    edges: Seq<EdgeKey>,
    face_list: Seq<u32>,
    edge_list: Seq<u32>,
)
    requires
        reads_exactly(val),
        0 < face_list.len() <= u32::MAX,
        0 < edge_list.len() <= u32::MAX,
        forall|k: int| 0 <= k < face_list.len() ==> 0 < faces[#[trigger] face_list[k] as int].len() <= u32::MAX,
    ensures
        total(val, cc::smooth_vertex_row::<S>(v, faces, edges, face_list, edge_list)) == 1 as real,
{
    let n = S::ratio_of(face_list.len() as u32, 1);
    let inv_n = S::over_of(one_of(), n);
    let inv_m = S::ratio_of(1, edge_list.len() as u32);
    let face_mean = faces_merged(Seq::empty(), face_list, faces, inv_n);
    let mids = cc::midpoints_merged::<S>(edge_list, edges, v);
    let two = S::ratio_of(2, 1);
    let three = S::ratio_of(3, 1);
    let mid_share = S::over_of(S::times_of(two, inv_m), n);
    let own_share = S::over_of(S::minus_of(n, three), n);
    lemma_one::<S>(val);
    lemma_identity::<S>(val, v);
    lemma_faces_merged(val, Seq::empty(), face_list, faces, inv_n);
    lemma_midpoints::<S>(val, edge_list, edges, v);
    let one_row = merged(Seq::empty(), face_mean, inv_n);
    let two_row = merged(one_row, mids, mid_share);
    lemma_total_merged(val, Seq::empty(), face_mean, inv_n);
    lemma_total_merged(val, one_row, mids, mid_share);
    lemma_total_merged(val, two_row, identity_row::<S>(v), own_share);
    let r = face_list.len() as int as real;
    let m = edge_list.len() as int as real;
    assert(val(n) == r / (1int as real));
    assert(val(n) == r);
    assert(val(inv_n) == (1 as real) / r);
    assert(val(inv_m) == (1int as real) / m);
    assert(val(two) == (2int as real) / (1int as real));
    assert(val(three) == (3int as real) / (1int as real));
    assert(val(mid_share) == (val(two) * val(inv_m)) / r);
    assert(val(own_share) == (r - val(three)) / r);
    lemma_cc_vertex_sum(r, m);
}

proof fn lemma_cc_vertex_sum(r: real, m: real)
    requires
        r > 0 as real,
        m > 0 as real,
    ensures
        ((1 as real) / r) * (r * ((1 as real) / r)) + (((2 as real) * ((1 as real) / m)) / r) * m + ((r - (3 as real))
            / r) * (1 as real) == 1 as real,
{
    assert(r * ((1 as real) / r) == 1 as real) by (nonlinear_arith)
        requires
            r > 0 as real,
    ;
    assert((((2 as real) * ((1 as real) / m)) / r) * m == (2 as real) / r) by (nonlinear_arith)
        requires
            r > 0 as real,
            m > 0 as real,
    ;
    assert(((1 as real) / r) * (1 as real) + (2 as real) / r + ((r - (3 as real)) / r) * (1 as real) == 1 as real)
        by (nonlinear_arith)
        requires
            r > 0 as real,
    ;
}

proof fn lemma_cc_vertex<S: Scalar>(val: spec_fn(S) -> real, level: LevelData<S>, options: SchemeOptions, v: int)
    requires
        reads_exactly(val),
        level.wf(),
        0 <= v < level.n(),
    ensures
        total(val, cc::cc_vertex_row(level, options, v)) == 1 as real,
{
    let t = level.topo;
    let vi = v as u32;
    let original = identity_row::<S>(vi);
    let corner = crate::rules::corner_at(
        level.mesh.vertex_corners@[v],
        options.auto_corner,
        t.vertex_edges@[v],
        t.edge_creases@,
    );
    let face_list = chosen(t.vertex_faces@[v], level.face_selected@);
    let edge_list = chosen(t.vertex_edges@[v], level.edge_has_selected_face@);
    lemma_identity::<S>(val, vi);
    lemma_sizes(level);
    assert(all_below(t.vertex_faces@[v], t.faces@.len() as int));
    assert(all_below(t.vertex_edges@[v], t.edges().len() as int) && t.vertex_edges@[v].len() < u32::MAX);
    lemma_chosen(t.vertex_faces@[v], level.face_selected@, t.faces@.len() as int);
    lemma_chosen(t.vertex_edges@[v], level.edge_has_selected_face@, t.edges().len() as int);
    let neighbors = flagged_neighbors(t.vertex_edges@[v], t.edges(), t.edge_is_boundary@, vi);
    if neighbors.len() >= 2 {
        lemma_boundary::<S>(val, vi, neighbors[0], neighbors[1]);
        lemma_cornered(
            val,
            seq![
                (vi, S::ratio_of(3, 4)),
                (neighbors[0], S::ratio_of(1, 8)),
                (neighbors[1], S::ratio_of(1, 8)),
            ],
            vi,
            corner,
        );
    }
    if face_list.len() > 0 && edge_list.len() > 0 {
        assert forall|k: int| 0 <= k < face_list.len() implies 0 < t.faces@[#[trigger] face_list[k] as int].len()
            <= u32::MAX by {
            assert(face_list[k] < t.faces@.len());
            assert(t.faces@[face_list[k] as int].len() >= 3);
        }
        lemma_cc_smooth_vertex::<S>(val, vi, t.faces@, t.edges(), face_list, edge_list);
        let smooth = cc::smooth_vertex_row::<S>(vi, t.faces@, t.edges(), face_list, edge_list);
        let sharp = sharp_neighbors(t.vertex_edges@[v], t.edges(), level.effective_edge_creases@, vi);
        lemma_sharp_row(val, vi, smooth, original, corner, sharp);
        lemma_cornered(val, smooth, vi, corner);
    }
}

proof fn lemma_cc_rows<S: Scalar>(val: spec_fn(S) -> real, level: LevelData<S>, options: SchemeOptions, i: int)
    requires
        reads_exactly(val),
        level.wf(),
        0 <= i < cc::cc_rows(level, options).len(),
    ensures
        total(val, cc::cc_rows(level, options)[i]) == 1 as real,
{
    let nf = level.topo.faces@.len() as int;
    let ne = level.topo.edges().len() as int;
    if i < nf {
        lemma_sizes(level);
        assert(level.topo.faces@[i].len() >= 3);
        lemma_face_row::<S>(val, level.topo.faces@[i]);
    } else if i < nf + ne {
        lemma_cc_edge(val, level, options, i - nf);
    } else {
        lemma_cc_vertex(val, level, options, i - nf - ne);
    }
}

// ---------------------------------------------------------------------------
// Loop
// ---------------------------------------------------------------------------
proof fn lemma_loop_smooth_edge<S: Scalar>(
    val: spec_fn(S) -> real,
    edge: EdgeKey,
    face_0: Seq<u32>,
    face_1: Seq<u32>,
)
    requires
        reads_exactly(val),
    ensures
        total(val, lp::smooth_edge_row::<S>(edge, face_0, face_1)) == 1 as real,
{
    lemma_midpoint::<S>(val, edge);
    match (crate::rules::opposite_of(face_0, edge), crate::rules::opposite_of(face_1, edge)) {
        (Some(o0), Some(o1)) => {
            let a = S::ratio_of(3, 8);
            let b = S::ratio_of(1, 8);
            let three = seq![(edge.0, a), (edge.1, a), (o0, b)];
            let four = seq![(edge.0, a), (edge.1, a), (o0, b), (o1, b)];
            lemma_three(val, (edge.0, a), (edge.1, a), (o0, b));
            assert(four.drop_last() =~= three);
            assert(val(a) == (3int as real) / (8int as real));
            assert(val(b) == (1int as real) / (8int as real));
        },
        _ => {},
    }
}

proof fn lemma_loop_edge<S: Scalar>(val: spec_fn(S) -> real, level: LevelData<S>, e: int)
    requires
        reads_exactly(val),
    ensures
        total(val, lp::loop_edge_row(level, e)) == 1 as real,
{
    let t = level.topo;
    let edge = t.edges()[e];
    let row = t.edge_faces@[e];
    lemma_midpoint::<S>(val, edge);
    lemma_loop_smooth_edge::<S>(val, edge, t.faces@[row[0] as int], t.faces@[row[1] as int]);
    lemma_blended(
        val,
        lp::smooth_edge_row::<S>(edge, t.faces@[row[0] as int], t.faces@[row[1] as int]),
        midpoint_row(edge),
        crate::sharpness::clamped(level.effective_edge_creases@[e]),
    );
}

proof fn lemma_neighbors<S: Scalar>(
    val: spec_fn(S) -> real,
    base: Seq<(u32, S)>,
    list: Seq<u32>,
    edges: Seq<EdgeKey>,
    v: u32,
    weight: S,
)
    requires
        reads_exactly(val),
    ensures
        total(val, lp::neighbors_merged(base, list, edges, v, weight)) == total(val, base) + (list.len() as int as real)
            * val(weight),
    decreases list.len(),
{
    let x = val(weight);
    if list.len() == 0 {
        assert((0int as real) * x == 0 as real) by (nonlinear_arith);
    } else {
        let front = lp::neighbors_merged(base, list.drop_last(), edges, v, weight);
        let other = crate::sharpness::other_end(edges[list.last() as int], v);
        lemma_neighbors(val, base, list.drop_last(), edges, v, weight);
        lemma_one::<S>(val);
        lemma_single(val, other, weight);
        lemma_total_merged(val, front, seq![(other, weight)], one_of());
        let n = list.len() - 1;
        assert(((n + 1) as real) == (n as real) + (1 as real));
        assert(((n as real) + (1 as real)) * x == (n as real) * x + x) by (nonlinear_arith);
        assert((1 as real) * x == x) by (nonlinear_arith);
    }
}

proof fn lemma_loop_vertex<S: Scalar>(val: spec_fn(S) -> real, level: LevelData<S>, v: int)
    requires
        reads_exactly(val),
        level.wf(),
        0 <= v < level.n(),
    ensures
        total(val, lp::loop_vertex_row(level, v)) == 1 as real,
{
    let t = level.topo;
    let vi = v as u32;
    let original = identity_row::<S>(vi);
    let corner = level.effective_vertex_corners@[v];
    let list = t.vertex_edges@[v];
    lemma_identity::<S>(val, vi);
    lemma_one::<S>(val);
    assert(all_below(t.vertex_edges@[v], t.edges().len() as int) && t.vertex_edges@[v].len() < u32::MAX);
    let b = flagged_neighbors(list, t.edges(), t.edge_is_boundary@, vi);
    if b.len() >= 2 {
        let smooth = seq![(vi, S::ratio_of(3, 4)), (b[0], S::ratio_of(1, 8)), (b[1], S::ratio_of(1, 8))];
        lemma_boundary::<S>(val, vi, b[0], b[1]);
        lemma_mixed(val, smooth, original, crate::sharpness::clamped(corner));
    }
    let n = S::ratio_of(list.len() as u32, 1);
    let beta = lp::beta_of::<S>(list.len());
    let own = S::minus_of(one_of(), S::times_of(n, beta));
    lemma_single(val, vi, own);
    lemma_neighbors(val, seq![(vi, own)], list, t.edges(), vi, beta);
    assert(val(n) == (list.len() as int as real) / (1int as real));
    assert(val(S::times_of(n, beta)) == val(n) * val(beta));
    let smooth = lp::smooth_vertex_row::<S>(vi, list, t.edges());
    assert(total(val, smooth) == 1 as real);
    lemma_sharp_row(
        val,
        vi,
        smooth,
        original,
        corner,
        sharp_neighbors(list, t.edges(), level.effective_edge_creases@, vi),
    );
}

proof fn lemma_loop_rows<S: Scalar>(val: spec_fn(S) -> real, level: LevelData<S>, i: int)
    requires
        reads_exactly(val),
        level.wf(),
        0 <= i < lp::loop_rows(level).len(),
    ensures
        total(val, lp::loop_rows(level)[i]) == 1 as real,
{
    let ne = level.topo.edges().len() as int;
    if i < ne {
        lemma_loop_edge(val, level, i);
    } else {
        lemma_loop_vertex(val, level, i - ne);
    }
}

// ---------------------------------------------------------------------------
// Root of three
// ---------------------------------------------------------------------------
proof fn lemma_sqrt3_boundary<S: Scalar>(val: spec_fn(S) -> real, v: u32, b: Seq<u32>, corner: S)
    requires
        reads_exactly(val),
    ensures
        total(val, s3::boundary_row(v, b, corner)) == 1 as real,
{
    let eighth = S::ratio_of(1, 8);
    let most = S::ratio_of(3, 4);
    let start = seq![(v, most)];
    let mid = merged(start, seq![(b[0], eighth)], one_of());
    lemma_one::<S>(val);
    lemma_single(val, v, most);
    lemma_single(val, b[0], eighth);
    lemma_single(val, b[1], eighth);
    lemma_total_merged(val, start, seq![(b[0], eighth)], one_of());
    lemma_total_merged(val, mid, seq![(b[1], eighth)], one_of());
    assert(val(eighth) == (1int as real) / (8int as real));
    assert(val(most) == (3int as real) / (4int as real));
    assert((1 as real) * val(eighth) == val(eighth)) by (nonlinear_arith);
    lemma_cornered(val, merged(mid, seq![(b[1], eighth)], one_of()), v, corner);
}

proof fn lemma_sqrt3_vertex<S: Scalar>(val: spec_fn(S) -> real, level: LevelData<S>, options: SchemeOptions, v: int)
    requires
        reads_exactly(val),
        level.wf(),
        0 <= v < level.n(),
    ensures
        total(val, s3::sqrt3_vertex_row(level, options, v)) == 1 as real,
{
    let t = level.topo;
    let vi = v as u32;
    let original = identity_row::<S>(vi);
    let edge_list = t.vertex_edges@[v];
    let corner = crate::rules::corner_at(
        level.mesh.vertex_corners@[v],
        options.auto_corner,
        edge_list,
        level.effective_edge_creases@,
    );
    let face_list = chosen(t.vertex_faces@[v], level.face_selected@);
    lemma_identity::<S>(val, vi);
    lemma_one::<S>(val);
    lemma_sizes(level);
    assert(all_below(t.vertex_faces@[v], t.faces@.len() as int));
    lemma_chosen(t.vertex_faces@[v], level.face_selected@, t.faces@.len() as int);
    lemma_sqrt3_boundary(val, vi, flagged_neighbors(edge_list, t.edges(), t.edge_is_boundary@, vi), corner);
    if face_list.len() > 0 {
        assert forall|k: int| 0 <= k < face_list.len() implies 0 < t.faces@[#[trigger] face_list[k] as int].len()
            <= u32::MAX by {
            assert(face_list[k] < t.faces@.len());
            assert(t.faces@[face_list[k] as int].len() >= 3);
        }
        let alpha = s3::alpha_of::<S>(face_list.len());
        let n = S::ratio_of(face_list.len() as u32, 1);
        let own = S::minus_of(one_of(), alpha);
        let share = S::over_of(alpha, n);
        lemma_single(val, vi, own);
        lemma_faces_merged(val, seq![(vi, own)], face_list, t.faces@, share);
        let r = face_list.len() as int as real;
        let x = val(alpha);
        assert(val(n) == r / (1int as real));
        assert(val(n) == r);
        assert(val(share) == x / r);
        assert(r * (x / r) == x) by (nonlinear_arith)
            requires
                r > 0 as real,
        ;
        let smooth = s3::smooth_vertex_row::<S>(vi, t.faces@, face_list);
        assert(total(val, smooth) == 1 as real);
        lemma_sharp_row(
            val,
            vi,
            smooth,
            original,
            corner,
            sharp_neighbors(edge_list, t.edges(), level.effective_edge_creases@, vi),
        );
    }
}

proof fn lemma_sqrt3_rows<S: Scalar>(val: spec_fn(S) -> real, level: LevelData<S>, options: SchemeOptions, i: int)
    requires
        reads_exactly(val),
        level.wf(),
        0 <= i < s3::sqrt3_rows(level, options).len(),
    ensures
        total(val, s3::sqrt3_rows(level, options)[i]) == 1 as real,
{
    let nf = level.topo.faces@.len() as int;
    if i < nf {
        lemma_sizes(level);
        assert(level.topo.faces@[i].len() >= 3);
        lemma_face_row::<S>(val, level.topo.faces@[i]);
    } else {
        lemma_sqrt3_vertex(val, level, options, i - nf);
    }
}

// ---------------------------------------------------------------------------
// Doo-Sabin
// ---------------------------------------------------------------------------
/// The cosine of the turn between two corners of a face of `n` corners.
pub open spec fn turn_between<S: Scalar>(n: nat, i: int, j: int) -> S {
    S::cos_turn_of(
        (if i < j {
            j - i
        } else {
            i - j
        }) as u64,
        n as u64,
    )
}

/// The cosines between corner `i` and the other ones among the first `k`.
pub open spec fn turns_from<S: Scalar>(val: spec_fn(S) -> real, n: nat, i: int, k: int) -> real
    decreases k,
{
    if k <= 0 {
        0 as real
    } else if k - 1 == i {
        turns_from(val, n, i, k - 1)
    } else {
        turns_from(val, n, i, k - 1) + val(turn_between::<S>(n, i, k - 1))
    }
}

/// The cosines of the turns from a corner of a regular polygon to all others sum
/// up to minus one.
pub open spec fn turns_balance<S: Scalar>(val: spec_fn(S) -> real) -> bool {
    forall|n: nat, i: int|
        3 <= n <= u32::MAX && 0 <= i < n ==> #[trigger] turns_from(val, n, i, n as int) == -(1 as real)
}

/// The weights of the first `k` corners.
proof fn lemma_ds_part<S: Scalar>(val: spec_fn(S) -> real, face: Seq<u32>, i: int, k: int)
    requires
        reads_exactly(val),
        3 <= face.len() <= u32::MAX,
        0 <= i < face.len(),
        0 <= k <= face.len(),
    ensures
        ({
            let q = (4 as real) * (face.len() as int as real);
            let own = if i < k {
                (face.len() as int as real) + (5 as real) - (3 as real)
            } else {
                0 as real
            };
            q * total(val, ds::smooth_corner_row::<S>(face, i).take(k)) == own + (3 as real) * (k as real) + (2 as real)
                * turns_from(val, face.len(), i, k)
        }),
    decreases k,
{
    let n = face.len();
    let r = n as int as real;
    let q = (4 as real) * r;
    let row = ds::smooth_corner_row::<S>(face, i);
    if k == 0 {
        assert(q * (0 as real) == 0 as real) by (nonlinear_arith);
        assert(row.take(0).len() == 0);
    } else {
        lemma_ds_part::<S>(val, face, i, k - 1);
        let front = row.take(k - 1);
        let more = row.take(k);
        assert(more.drop_last() =~= front);
        assert(more.last() == row[k - 1]);
        let w = ds::corner_weight::<S>(n, i, k - 1);
        let count = S::ratio_of(n as u32, 1);
        let quarter = S::times_of(S::ratio_of(4, 1), count);
        assert(val(count) == r / (1int as real));
        assert(val(S::ratio_of(4, 1)) == (4int as real) / (1int as real));
        assert(val(quarter) == (4 as real) * r);
        assert(q > 0 as real);
        let x = total(val, front);
        assert(((k - 1) as real) + (1 as real) == k as real);
        if i == k - 1 {
            let top = r + (5 as real);
            assert(val(S::ratio_of(5, 1)) == (5int as real) / (1int as real));
            assert(val(w) == top / q);
            assert(q * (x + top / q) == q * x + top) by (nonlinear_arith)
                requires
                    q > 0 as real,
            ;
        } else {
            let c = val(turn_between::<S>(n, i, k - 1));
            let top = (3 as real) + (2 as real) * c;
            assert(val(S::ratio_of(3, 1)) == (3int as real) / (1int as real));
            assert(val(S::ratio_of(2, 1)) == (2int as real) / (1int as real));
            let cos = turn_between::<S>(n, i, k - 1);
            assert(val(S::times_of(S::ratio_of(2, 1), cos)) == (2 as real) * c);
            assert(val(w) == top / q);
            assert(q * (x + top / q) == q * x + top) by (nonlinear_arith)
                requires
                    q > 0 as real,
            ;
        }
    }
}

proof fn lemma_ds_smooth<S: Scalar>(val: spec_fn(S) -> real, face: Seq<u32>, i: int)
    requires
        reads_exactly(val),
        turns_balance(val),
        3 <= face.len() <= u32::MAX,
        0 <= i < face.len(),
    ensures
        total(val, ds::smooth_corner_row::<S>(face, i)) == 1 as real,
{
    let n = face.len() as int;
    let row = ds::smooth_corner_row::<S>(face, i);
    lemma_ds_part::<S>(val, face, i, n);
    assert(row.take(n) =~= row);
    assert(turns_from(val, face.len(), i, n) == -(1 as real));
    let r = n as real;
    let x = total(val, row);
    assert(((4 as real) * r) * x == (4 as real) * r);
    assert(x == 1 as real) by (nonlinear_arith)
        requires
            ((4 as real) * r) * x == (4 as real) * r,
            r > 0 as real,
    ;
}

proof fn lemma_ds_row<S: Scalar>(
    val: spec_fn(S) -> real,
    level: LevelData<S>,
    options: SchemeOptions,
    f: int,
    i: int,
)
    requires
        reads_exactly(val),
        turns_balance(val),
        level.wf(),
        0 <= f < level.topo.faces@.len(),
        0 <= i < level.topo.faces@[f].len(),
    ensures
        total(val, ds::ds_row(level, options, f, i)) == 1 as real,
{
    let t = level.topo;
    let face = t.faces@[f];
    let v = face[i];
    lemma_sizes(level);
    assert(t.faces@[f].len() >= 3);
    lemma_identity::<S>(val, v);
    lemma_ds_smooth::<S>(val, face, i);
    let own = identity_row::<S>(v);
    let smooth = if level.face_selected@[f] {
        ds::smooth_corner_row::<S>(face, i)
    } else {
        own
    };
    let creases = level.effective_edge_creases@;
    let sharp = sharp_neighbors(t.vertex_edges@[v as int], t.edges(), creases, v);
    let implicit = ds::implicit_corner(options.auto_corner, t.vertex_edges@[v as int], creases);
    lemma_sharp_row(val, v, own, own, zero_of(), sharp);
    let row = cornered_row(sharp_row(v, own, own, zero_of(), sharp), v, implicit);
    lemma_cornered(val, sharp_row(v, own, own, zero_of(), sharp), v, implicit);
    lemma_mixed(val, smooth, row, ds::least_crease(sharp));
    lemma_cornered(val, smooth, v, S::larger_of(implicit, level.mesh.vertex_corners@[v as int]));
}

proof fn lemma_ds_rows<S: Scalar>(val: spec_fn(S) -> real, level: LevelData<S>, options: SchemeOptions, i: int)
    requires
        reads_exactly(val),
        turns_balance(val),
        level.wf(),
        0 <= i < ds::ds_rows(level, options).len(),
    ensures
        total(val, ds::ds_rows(level, options)[i]) == 1 as real,
{
    let rows = ds::ds_face_rows(level, options);
    let (f, c) = crate::incidence::lemma_flat_locate(rows, i);
    lemma_ds_row(val, level, options, f, c);
}

// ---------------------------------------------------------------------------
// All schemes
// ---------------------------------------------------------------------------
/// Every refined point is a weighted mean: the weights of each stencil from a
/// level to its refinement sum up to one, unless arithmetic rounds.
pub proof fn weights_sum_to_one<S: Scalar>(
    val: spec_fn(S) -> real,
    scheme: Scheme,
    options: SchemeOptions,
    level: LevelData<S>,
    i: int,
)
    requires
        reads_exactly(val),
        scheme == Scheme::DooSabin ==> turns_balance(val),
        level_ok(scheme, level),
        0 <= i < level_rows(scheme, options, level).len(),
    ensures
        total(val, level_rows(scheme, options, level)[i]) == 1 as real,
{
    reveal(level_ok);
    reveal(level_rows);
    match scheme {
        Scheme::CatmullClark => {
            lemma_cc_rows(val, level, options, i);
        },
        Scheme::Loop => {
            lemma_loop_rows(val, level, i);
        },
        Scheme::Sqrt3 => {
            lemma_sqrt3_rows(val, level, options, i);
        },
        Scheme::DooSabin => {
            lemma_ds_rows(val, level, options, i);
        },
    }
}

/// Rows with sum one stay so when they are composed.
pub proof fn composed_weights_sum_to_one<S: Scalar>(
    val: spec_fn(S) -> real,
    inner: Seq<Seq<(u32, S)>>,
    row: Seq<(u32, S)>,
)
    requires
        reads_exactly(val),
        row_below(row, inner.len()),
        forall|j: int| 0 <= j < inner.len() ==> total(val, #[trigger] inner[j]) == 1 as real,
    ensures
        total(val, composed_row(inner, row)) == total(val, row),
    decreases row.len(),
{
    if row.len() > 0 {
        let front = row.drop_last();
        assert forall|k: int| 0 <= k < front.len() implies (#[trigger] front[k]).0 < inner.len() by {
            assert(row[k].0 < inner.len());
        }
        composed_weights_sum_to_one(val, inner, front);
        let (j, w) = row.last();
        assert(row[row.len() - 1].0 < inner.len());
        assert(total(val, inner[j as int]) == 1 as real);
        lemma_total_merged(val, composed_row(inner, front), inner[j as int], w);
        assert(val(w) * (1 as real) == val(w)) by (nonlinear_arith);
    }
}

} // verus!
