//! How sharpness decays and what it does to vertices.

use crate::csr::copied;
use crate::hashing::EdgeKey;
use crate::scalar::{one, one_of, zero, zero_of, Scalar};
use crate::stencil::{lemma_mixed_below, mix, mixed, row_below};
use crate::topology::all_below;
use vstd::prelude::*;

verus! {

/// `max(s - 1, 0)`
pub open spec fn decayed<S: Scalar>(s: S) -> S {
    S::larger_of(S::minus_of(s, one_of()), zero_of())
}

/// `max(s - 1, 0)`
pub fn decay_sharpness<S: Scalar>(sharpness: S) -> (r: S)
    ensures
        r == decayed(sharpness),
{
    sharpness.minus(one()).larger(zero())
}

/// From this sharpness on an edge stays sharp for good.
pub open spec fn infinite_of<S: Scalar>() -> S {
    S::ratio_of(10, 1)
}

/// One level of decay; what is infinitely sharp stays so.
pub open spec fn decremented<S: Scalar>(s: S) -> S {
    if S::at_most_of(infinite_of(), s) {
        infinite_of()
    } else {
        decayed(s)
    }
}

/// One level of decay; what is infinitely sharp stays so.
pub fn osd_decrement<S: Scalar>(s: S) -> (r: S)
    ensures
        r == decremented(s),
{
    let infinite: S = S::ratio(10, 1);
    if infinite.at_most(s) {
        infinite
    } else {
        decay_sharpness(s)
    }
}

pub open spec fn positive<S: Scalar>(s: S) -> bool {
    S::less_of(zero_of(), s)
}

pub fn is_positive<S: Scalar>(s: S) -> (r: bool)
    ensures
        r == positive(s),
{
    zero::<S>().less(s)
}

/// Sum of a list, from the front.
pub open spec fn sum_of<S: Scalar>(items: Seq<S>) -> S
    decreases items.len(),
{
    if items.len() == 0 {
        zero_of()
    } else {
        S::plus_of(sum_of(items.drop_last()), items.last())
    }
}

/// The creases that count towards a corner.
pub open spec fn counted<S: Scalar>(creases: Seq<S>) -> Seq<S>
    decreases creases.len(),
{
    if creases.len() == 0 {
        Seq::empty()
    } else {
        let front = counted(creases.drop_last());
        let c = creases.last();
        if S::finite_of(c) && S::less_of(S::ratio_of(1, 100), c) {
            front.push(c)
        } else {
            front
        }
    }
}

/// The corner that creases make: their mean, if three or more count.
pub open spec fn auto_corner_of<S: Scalar>(creases: Seq<S>) -> S {
    let c = counted(creases);
    if c.len() >= 3 {
        S::over_of(sum_of(c), S::ratio_of(c.len() as u32, 1))
    } else {
        zero_of()
    }
}

/// The corner that creases make: their mean, if three or more count.
pub fn auto_corner_sharpness<S: Scalar>(creases: &[S]) -> (r: S)
    requires
        creases@.len() <= u32::MAX,
    ensures
        r == auto_corner_of(creases@),
{
    let limit: S = S::ratio(1, 100);
    let mut sum: S = zero();
    let mut count: u32 = 0;
    let mut i: usize = 0;
    assert(creases@.take(0) =~= Seq::<S>::empty());
    while i < creases.len()
        invariant
            i <= creases.len(),
            creases@.len() <= u32::MAX,
            limit == S::ratio_of(1, 100),
            count == counted(creases@.take(i as int)).len(),
            count <= i,
            sum == sum_of(counted(creases@.take(i as int))),
        decreases creases.len() - i,
    {
        let c: S = creases[i];
        assert(creases@.take(i + 1).drop_last() =~= creases@.take(i as int));
        let ghost front = counted(creases@.take(i as int));
        if c.is_finite() && limit.less(c) {
            assert(front.push(c).drop_last() =~= front);
            sum = sum.plus(c);
            count += 1;
        }
        i += 1;
    }
    assert(creases@.take(i as int) =~= creases@);
    if count >= 3 {
        sum.over(S::ratio(count, 1))
    } else {
        zero()
    }
}

/// The share of the sharp rule: the sharpness between 0 and 1.
pub open spec fn blend_of<S: Scalar>(s: S) -> S {
    if !positive(s) {
        zero_of()
    } else if S::less_of(one_of(), s) {
        one_of()
    } else {
        s
    }
}

/// The share of the sharp rule: the sharpness between 0 and 1.
pub fn sharpness_to_blend<S: Scalar>(sharpness: S) -> (r: S)
    ensures
        r == blend_of(sharpness),
{
    if !is_positive(sharpness) {
        zero()
    } else if one::<S>().less(sharpness) {
        one()
    } else {
        sharpness
    }
}

/// `x` between 0 and 1.
pub open spec fn clamped<S: Scalar>(x: S) -> S {
    if S::less_of(x, zero_of()) {
        zero_of()
    } else if S::less_of(one_of(), x) {
        one_of()
    } else {
        x
    }
}

pub fn clamp<S: Scalar>(x: S) -> (r: S)
    ensures
        r == clamped(x),
{
    if x.less(zero()) {
        zero()
    } else if one::<S>().less(x) {
        one()
    } else {
        x
    }
}

// ---------------------------------------------------------------------------
// Sharp vertices
// ---------------------------------------------------------------------------
/// The end of an edge that is not `v`.
pub open spec fn other_end(edge: EdgeKey, v: u32) -> u32 {
    if edge.0 == v {
        edge.1
    } else {
        edge.0
    }
}

/// The neighbours of `v` along sharp edges of a list, with their creases.
pub open spec fn sharp_neighbors<S: Scalar>(
    list: Seq<u32>,
    edges: Seq<EdgeKey>,
    creases: Seq<S>,
    v: u32,
) -> Seq<(u32, S)>
    decreases list.len(),
{
    if list.len() == 0 {
        Seq::empty()
    } else {
        let front = sharp_neighbors(list.drop_last(), edges, creases, v);
        let e = list.last() as int;
        if positive(creases[e]) {
            front.push((other_end(edges[e], v), creases[e]))
        } else {
            front
        }
    }
}

pub open spec fn edges_below(list: Seq<u32>, edges: Seq<EdgeKey>, n: nat) -> bool {
    forall|k: int|
        0 <= k < list.len() ==> edges[#[trigger] list[k] as int].0 < n && edges[list[k] as int].1 < n
}

pub proof fn lemma_sharp_neighbors_below<S: Scalar>(
    list: Seq<u32>,
    edges: Seq<EdgeKey>,
    creases: Seq<S>,
    v: u32,
    n: nat,
)
    requires
        edges_below(list, edges, n),
    ensures
        row_below(sharp_neighbors(list, edges, creases, v), n),
        sharp_neighbors(list, edges, creases, v).len() <= list.len(),
    decreases list.len(),
{
    if list.len() > 0 {
        assert forall|k: int| 0 <= k < list.drop_last().len() implies edges[#[trigger] list.drop_last()[k] as int].0
            < n && edges[list.drop_last()[k] as int].1 < n by {
            assert(list.drop_last()[k] == list[k]);
        }
        lemma_sharp_neighbors_below(list.drop_last(), edges, creases, v, n);
        assert(edges[list[list.len() - 1] as int].0 < n);
    }
}

pub fn collect_sharp_neighbors<S: Scalar>(
    list: &[u32],
    edges: &[[u32; 2]],
    creases: &[S],
    v: u32,
) -> (r: Vec<(u32, S)>)
    requires
        all_below(list@, edges@.len() as int),
        edges@.len() == creases@.len(),
    ensures
        r@ == sharp_neighbors(list@, crate::connectivity::pairs(edges@), creases@, v),
{
    let ghost pe = crate::connectivity::pairs(edges@);
    let mut out: Vec<(u32, S)> = Vec::new();
    let mut k: usize = 0;
    assert(list@.take(0) =~= Seq::<u32>::empty());
    while k < list.len()
        invariant
            k <= list.len(),
            all_below(list@, edges@.len() as int),
            edges@.len() == creases@.len(),
            pe == crate::connectivity::pairs(edges@),
            out@ == sharp_neighbors(list@.take(k as int), pe, creases@, v),
        decreases list.len() - k,
    {
        assert(list@[k as int] < edges@.len());
        let e: usize = list[k] as usize;
        assert(list@.take(k + 1).drop_last() =~= list@.take(k as int));
        assert(pe[e as int] == (edges@[e as int]@[0], edges@[e as int]@[1]));
        let crease: S = creases[e];
        if is_positive(crease) {
            let other: u32 = if edges[e][0] == v {
                edges[e][1]
            } else {
                edges[e][0]
            };
            out.push((other, crease));
        }
        k += 1;
    }
    assert(list@.take(k as int) =~= list@);
    out
}

/// Whether a crease is sharp at this level, or still at the next one.
pub open spec fn sharp_at<S: Scalar>(crease: S, next_level: bool) -> bool {
    if next_level {
        positive(decremented(crease))
    } else {
        positive(crease)
    }
}

/// The neighbours whose crease is sharp.
pub open spec fn sharp_list<S: Scalar>(neighbors: Seq<(u32, S)>, next_level: bool) -> Seq<u32>
    decreases neighbors.len(),
{
    if neighbors.len() == 0 {
        Seq::empty()
    } else {
        let front = sharp_list(neighbors.drop_last(), next_level);
        if sharp_at(neighbors.last().1, next_level) {
            front.push(neighbors.last().0)
        } else {
            front
        }
    }
}

fn collect_sharp<S: Scalar>(neighbors: &[(u32, S)], next_level: bool) -> (r: Vec<u32>)
    ensures
        r@ == sharp_list(neighbors@, next_level),
{
    let mut out: Vec<u32> = Vec::new();
    let mut k: usize = 0;
    assert(neighbors@.take(0) =~= Seq::<(u32, S)>::empty());
    while k < neighbors.len()
        invariant
            k <= neighbors.len(),
            out@ == sharp_list(neighbors@.take(k as int), next_level),
        decreases neighbors.len() - k,
    {
        let (v, crease) = neighbors[k];
        assert(neighbors@.take(k + 1).drop_last() =~= neighbors@.take(k as int));
        let sharp: bool = if next_level {
            is_positive(osd_decrement(crease))
        } else {
            is_positive(crease)
        };
        if sharp {
            out.push(v);
        }
        k += 1;
    }
    assert(neighbors@.take(k as int) =~= neighbors@);
    out
}

pub proof fn lemma_sharp_list_below<S: Scalar>(neighbors: Seq<(u32, S)>, next_level: bool, n: nat)
    requires
        row_below(neighbors, n),
    ensures
        all_below(sharp_list(neighbors, next_level), n as int),
    decreases neighbors.len(),
{
    if neighbors.len() > 0 {
        assert forall|k: int| 0 <= k < neighbors.drop_last().len() implies (#[trigger] neighbors.drop_last()[k]).0
            < n by {
            assert(neighbors[k].0 < n);
        }
        lemma_sharp_list_below(neighbors.drop_last(), next_level, n);
        assert(neighbors[neighbors.len() - 1].0 < n);
    }
}

/// The rule of a vertex: 3 for a corner, else its number of sharp edges.
pub open spec fn vertex_rule(corner: bool, sharp: nat) -> int {
    if corner || sharp >= 3 {
        3
    } else {
        sharp as int
    }
}

/// Three quarters of a vertex and an eighth of each of two neighbours.
pub open spec fn crease_row<S: Scalar>(v: u32, a: u32, b: u32) -> Seq<(u32, S)> {
    seq![(v, S::ratio_of(6, 8)), (a, S::ratio_of(1, 8)), (b, S::ratio_of(1, 8))]
}

pub fn crease_stencil<S: Scalar>(v: u32, a: u32, b: u32) -> (r: Vec<(u32, S)>)
    ensures
        r@ == crease_row::<S>(v, a, b),
{
    let mut out: Vec<(u32, S)> = Vec::new();
    out.push((v, S::ratio(6, 8)));
    out.push((a, S::ratio(1, 8)));
    out.push((b, S::ratio(1, 8)));
    assert(out@ =~= crease_row::<S>(v, a, b));
    out
}

/// The row of a rule: a corner stays, a crease follows its first and last
/// sharp edge, everything else is smooth.
pub open spec fn rule_row<S: Scalar>(
    rule: int,
    v: u32,
    smooth: Seq<(u32, S)>,
    original: Seq<(u32, S)>,
    sharp: Seq<u32>,
) -> Seq<(u32, S)> {
    if rule == 3 {
        original
    } else if rule == 2 && sharp.len() >= 2 {
        crease_row(v, sharp.first(), sharp.last())
    } else {
        smooth
    }
}

fn rule_stencil<S: Scalar>(
    rule: usize,
    v: u32,
    smooth: &[(u32, S)],
    original: &[(u32, S)],
    sharp: &[u32],
) -> (r: Vec<(u32, S)>)
    ensures
        r@ == rule_row(rule as int, v, smooth@, original@, sharp@),
{
    if rule == 3 {
        copied(original)
    } else if rule == 2 && sharp.len() >= 2 {
        crease_stencil(v, sharp[0], sharp[sharp.len() - 1])
    } else {
        copied(smooth)
    }
}

/// The sharp values that are no longer sharp at the next level.
pub open spec fn fading<S: Scalar>(neighbors: Seq<(u32, S)>) -> Seq<S>
    decreases neighbors.len(),
{
    if neighbors.len() == 0 {
        Seq::empty()
    } else {
        let front = fading(neighbors.drop_last());
        let c = neighbors.last().1;
        if positive(c) && S::at_most_of(decremented(c), zero_of()) {
            front.push(c)
        } else {
            front
        }
    }
}

pub open spec fn fading_with_corner<S: Scalar>(corner: S, neighbors: Seq<(u32, S)>) -> Seq<S> {
    if positive(corner) && S::at_most_of(decremented(corner), zero_of()) {
        seq![corner] + fading(neighbors)
    } else {
        fading(neighbors)
    }
}

/// The share of this level's rule: the mean of what fades, between 0 and 1.
pub open spec fn parent_share<S: Scalar>(corner: S, neighbors: Seq<(u32, S)>) -> S {
    let f = fading_with_corner(corner, neighbors);
    if f.len() == 0 {
        zero_of()
    } else {
        clamped(S::over_of(sum_of(f), S::ratio_of(f.len() as u32, 1)))
    }
}

/// The row of a vertex with sharp edges around it: by the rule of this level,
/// blended with the rule of the next level where they differ.
pub open spec fn sharp_row<S: Scalar>(
    v: u32,
    smooth: Seq<(u32, S)>,
    original: Seq<(u32, S)>,
    corner: S,
    neighbors: Seq<(u32, S)>,
) -> Seq<(u32, S)> {
    let now = sharp_list(neighbors, false);
    let next = sharp_list(neighbors, true);
    let parent_rule = vertex_rule(positive(corner), now.len());
    let child_rule = vertex_rule(positive(decremented(corner)), next.len());
    let parent_row = rule_row(parent_rule, v, smooth, original, now);
    if child_rule == parent_rule {
        parent_row
    } else {
        mixed(rule_row(child_rule, v, smooth, original, next), parent_row, parent_share(corner, neighbors))
    }
}

pub proof fn lemma_sharp_row_below<S: Scalar>(
    v: u32,
    smooth: Seq<(u32, S)>,
    original: Seq<(u32, S)>,
    corner: S,
    neighbors: Seq<(u32, S)>,
    n: nat,
)
    requires
        v < n,
        row_below(smooth, n),
        row_below(original, n),
        row_below(neighbors, n),
    ensures
        row_below(sharp_row(v, smooth, original, corner, neighbors), n),
{
    let now = sharp_list(neighbors, false);
    let next = sharp_list(neighbors, true);
    lemma_sharp_list_below(neighbors, false, n);
    lemma_sharp_list_below(neighbors, true, n);
    let parent_rule = vertex_rule(positive(corner), now.len());
    let child_rule = vertex_rule(positive(decremented(corner)), next.len());
    assert(now.len() >= 2 ==> now[0] < n && now[now.len() - 1] < n);
    assert(next.len() >= 2 ==> next[0] < n && next[next.len() - 1] < n);
    lemma_mixed_below(
        rule_row(child_rule, v, smooth, original, next),
        rule_row(parent_rule, v, smooth, original, now),
        parent_share(corner, neighbors),
        n,
    );
}

/// The row of a vertex with sharp edges around it.
pub fn sharp_vertex_stencil_osd<S: Scalar>(
    vi: u32,
    smooth: &[(u32, S)],
    original: &[(u32, S)],
    corner: S,
    neighbors: &[(u32, S)],
) -> (r: Vec<(u32, S)>)
    requires
        neighbors@.len() < u32::MAX,
    ensures
        r@ == sharp_row(vi, smooth@, original@, corner, neighbors@),
{
    let now: Vec<u32> = collect_sharp(neighbors, false);
    let next: Vec<u32> = collect_sharp(neighbors, true);
    let parent_rule: usize = if is_positive(corner) || now.len() >= 3 {
        3
    } else {
        now.len()
    };
    let child_corner: S = osd_decrement(corner);
    let child_rule: usize = if is_positive(child_corner) || next.len() >= 3 {
        3
    } else {
        next.len()
    };
    let parent_row: Vec<(u32, S)> = rule_stencil(parent_rule, vi, smooth, original, &now);
    if child_rule == parent_rule {
        return parent_row;
    }
    let child_row: Vec<(u32, S)> = rule_stencil(child_rule, vi, smooth, original, &next);
    let ghost all = fading_with_corner(corner, neighbors@);
    let ghost head = if positive(corner) && S::at_most_of(decremented(corner), zero_of()) {
        seq![corner]
    } else {
        Seq::<S>::empty()
    };
    let mut sum: S = zero();
    let mut count: u32 = 0;
    if is_positive(corner) && child_corner.at_most(zero()) {
        sum = sum.plus(corner);
        count = 1;
        assert(head.drop_last() =~= Seq::<S>::empty());
        assert(sum_of(Seq::<S>::empty()) == zero_of::<S>());
        assert(sum_of(head) == sum);
    }
    let mut k: usize = 0;
    assert(neighbors@.take(0) =~= Seq::<(u32, S)>::empty());
    assert(head + fading(neighbors@.take(0)) =~= head);
    while k < neighbors.len()
        invariant
            k <= neighbors.len(),
            neighbors@.len() < u32::MAX,
            head.len() <= 1,
            count == (head + fading(neighbors@.take(k as int))).len(),
            count <= k + 1,
            sum == sum_of(head + fading(neighbors@.take(k as int))),
        decreases neighbors.len() - k,
    {
        let c: S = neighbors[k].1;
        let ghost front = head + fading(neighbors@.take(k as int));
        assert(neighbors@.take(k + 1).drop_last() =~= neighbors@.take(k as int));
        if is_positive(c) && osd_decrement(c).at_most(zero()) {
            assert(head + fading(neighbors@.take(k + 1)) =~= front.push(c));
            assert(front.push(c).drop_last() =~= front);
            sum = sum.plus(c);
            count += 1;
        }
        k += 1;
    }
    assert(neighbors@.take(k as int) =~= neighbors@);
    assert(all =~= head + fading(neighbors@));
    let share: S = if count == 0 {
        zero()
    } else {
        clamp(sum.over(S::ratio(count, 1)))
    };
    mix(&child_row, &parent_row, share)
}

// ---------------------------------------------------------------------------
// Neighbourhoods
// ---------------------------------------------------------------------------
/// The entries of a list that are flagged.
pub open spec fn chosen(list: Seq<u32>, flags: Seq<bool>) -> Seq<u32>
    decreases list.len(),
{
    if list.len() == 0 {
        Seq::empty()
    } else {
        let front = chosen(list.drop_last(), flags);
        if flags[list.last() as int] {
            front.push(list.last())
        } else {
            front
        }
    }
}

pub fn choose_flagged(list: &[u32], flags: &[bool]) -> (r: Vec<u32>)
    requires
        all_below(list@, flags@.len() as int),
    ensures
        r@ == chosen(list@, flags@),
        all_below(r@, flags@.len() as int),
        r@.len() <= list@.len(),
{
    let mut out: Vec<u32> = Vec::new();
    let mut k: usize = 0;
    assert(list@.take(0) =~= Seq::<u32>::empty());
    while k < list.len()
        invariant
            k <= list.len(),
            all_below(list@, flags@.len() as int),
            out@ == chosen(list@.take(k as int), flags@),
            all_below(out@, flags@.len() as int),
            out@.len() <= k,
        decreases list.len() - k,
    {
        assert(list@[k as int] < flags@.len());
        assert(list@.take(k + 1).drop_last() =~= list@.take(k as int));
        if flags[list[k] as usize] {
            out.push(list[k]);
        }
        k += 1;
    }
    assert(list@.take(k as int) =~= list@);
    out
}

pub proof fn lemma_chosen(list: Seq<u32>, flags: Seq<bool>, n: int)
    requires
        all_below(list, n),
    ensures
        all_below(chosen(list, flags), n),
        chosen(list, flags).len() <= list.len(),
    decreases list.len(),
{
    if list.len() > 0 {
        assert(all_below(list.drop_last(), n)) by {
            assert forall|k: int| 0 <= k < list.drop_last().len() implies (#[trigger] list.drop_last()[k]) < n by {
                assert(list[k] < n);
            }
        }
        lemma_chosen(list.drop_last(), flags, n);
        assert(list[list.len() - 1] < n);
    }
}

/// The other ends of a list of edges.
pub open spec fn ends_of(list: Seq<u32>, edges: Seq<EdgeKey>, v: u32) -> Seq<u32> {
    list.map_values(|e: u32| other_end(edges[e as int], v))
}

/// The neighbours of `v` along flagged edges.
pub open spec fn flagged_neighbors(list: Seq<u32>, edges: Seq<EdgeKey>, flags: Seq<bool>, v: u32) -> Seq<u32> {
    ends_of(chosen(list, flags), edges, v)
}

pub fn collect_neighbors(list: &[u32], edges: &[[u32; 2]], flags: &[bool], v: u32) -> (r: Vec<u32>)
    requires
        all_below(list@, edges@.len() as int),
        edges@.len() == flags@.len(),
    ensures
        r@ == flagged_neighbors(list@, crate::connectivity::pairs(edges@), flags@, v),
{
    let ghost pe = crate::connectivity::pairs(edges@);
    let picked: Vec<u32> = choose_flagged(list, flags);
    let ghost all = ends_of(picked@, pe, v);
    let mut out: Vec<u32> = Vec::new();
    let mut k: usize = 0;
    while k < picked.len()
        invariant
            k <= picked.len(),
            all_below(picked@, edges@.len() as int),
            pe == crate::connectivity::pairs(edges@),
            all == ends_of(picked@, pe, v),
            out@ == all.take(k as int),
        decreases picked.len() - k,
    {
        assert(picked@[k as int] < edges@.len());
        let e: usize = picked[k] as usize;
        assert(pe[e as int] == (edges@[e as int]@[0], edges@[e as int]@[1]));
        out.push(
            if edges[e][0] == v {
                edges[e][1]
            } else {
                edges[e][0]
            },
        );
        k += 1;
        assert(out@ =~= all.take(k as int));
    }
    assert(out@ =~= all);
    out
}

pub proof fn lemma_flagged_neighbors_below(
    list: Seq<u32>,
    edges: Seq<EdgeKey>,
    flags: Seq<bool>,
    v: u32,
    n: nat,
)
    requires
        all_below(list, edges.len() as int),
        forall|e: int| 0 <= e < edges.len() ==> (#[trigger] edges[e]).0 < n && edges[e].1 < n,
    ensures
        all_below(flagged_neighbors(list, edges, flags, v), n as int),
{
    lemma_chosen(list, flags, edges.len() as int);
    let c = chosen(list, flags);
    assert forall|k: int| 0 <= k < c.len() implies (#[trigger] ends_of(c, edges, v)[k]) < n by {
        assert(c[k] < edges.len());
        assert(edges[c[k] as int].0 < n);
    }
}

} // verus!
