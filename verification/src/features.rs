//! Rules, sectors and edge derivatives of a vertex, in plain numbers.

use crate::directions::{crease_limits, lemma_signed};
use crate::limit::{
    corner_spans, edge_derivative, led_by, lemma_sharp_slots, negated_row, ring_ok, rule_of, sectors_of, sharp_slots,
    slots_ok, span_tangents, RuleModel,
};
use crate::options::{BoundaryInterpolation, SchemeOptions};
use crate::points::{computes_exactly, lemma_identity_value};
use crate::ring::{rotated_ring, RingModel};
use crate::scalar::{Scalar, Wide};
use crate::sharpness::positive;
use crate::topology::{Adjacency, Mesh};
use crate::unity::{reads_both, value};
use crate::weights::{lemma_one, reads_exactly};
use vstd::prelude::*;

verus! {

proof fn lemma_sharp_slot<S: Scalar>(
    val: spec_fn(S) -> real,
    edges: Seq<u32>,
    creases: Seq<S>,
    boundary: Seq<bool>,
    k: int,
)
    requires
        computes_exactly(val),
    ensures
        sharp_slots(edges, creases, boundary).contains(k) <==> 0 <= k < edges.len() && (val(creases[edges[k] as int])
            > 0 as real || boundary[edges[k] as int]),
    decreases edges.len(),
{
    lemma_one::<S>(val);
    let whole = sharp_slots(edges, creases, boundary);
    if edges.len() > 0 {
        let front = edges.drop_last();
        let part = sharp_slots(front, creases, boundary);
        lemma_sharp_slot(val, front, creases, boundary, k);
        lemma_sharp_slots(front, creases, boundary);
        let e = edges.last() as int;
        if positive(creases[e]) || boundary[e] {
            assert(whole == part.push(edges.len() - 1));
            assert(whole.contains(k) <==> part.contains(k) || k == edges.len() - 1) by {
                if part.contains(k) {
                    let j = part.index_of(k);
                    assert(whole[j] == k);
                }
                if k == edges.len() - 1 {
                    assert(whole[part.len() as int] == k);
                }
                if whole.contains(k) {
                    let j = whole.index_of(k);
                    if j < part.len() {
                        assert(part[j] == k);
                    }
                }
            }
        }
        if 0 <= k < front.len() {
            assert(front[k] == edges[k]);
        }
        if part.contains(k) {
            let j = part.index_of(k);
            assert(0 <= part[j] < front.len());
        }
    }
}

/// The rule of a vertex goes by its sharp edges, which are those with a crease and those on
/// the boundary: with two it is a crease, with more a corner, with fewer it is smooth. A
/// vertex that is a corner itself is one, and so is a boundary vertex with one face where
/// such corners are kept. The result is the list of the sharp edges, in order.
pub proof fn rules_go_by_the_sharp_edges<S: Scalar>(
    val: spec_fn(S) -> real,
    mesh: Mesh<S>,
    adj: Adjacency,
    options: SchemeOptions,
    v: u32,
    ring: RingModel,
) -> (slots: Seq<int>)
    requires
        computes_exactly(val),
    ensures
        slots_ok(slots, ring.edges.len() as int),
        forall|k: int| #[trigger]
            slots.contains(k) <==> 0 <= k < ring.edges.len() && (val(mesh.edge_creases@[ring.edges[k] as int]) > 0 as real
                || adj.edge_is_boundary@[ring.edges[k] as int]),
        ({
            let corner = val(mesh.vertex_corners@[v as int]) > 0 as real || (ring.boundary
                && options.boundary_interpolation == BoundaryInterpolation::EdgesAndCorners && ring.diagonals.len() <= 1);
            match rule_of(mesh, adj, options, v, ring) {
                RuleModel::Corner(list) => list == slots && (corner || slots.len() >= 3),
                RuleModel::Crease(a, b) => !corner && slots == seq![a, b],
                RuleModel::Smooth => !corner && slots.len() <= 1,
            }
        }),
{
    lemma_one::<S>(val);
    let slots = sharp_slots(ring.edges, mesh.edge_creases@, adj.edge_is_boundary@);
    lemma_sharp_slots(ring.edges, mesh.edge_creases@, adj.edge_is_boundary@);
    assert forall|k: int| #[trigger]
        slots.contains(k) <==> 0 <= k < ring.edges.len() && (val(mesh.edge_creases@[ring.edges[k] as int]) > 0 as real
            || adj.edge_is_boundary@[ring.edges[k] as int]) by {
        lemma_sharp_slot(val, ring.edges, mesh.edge_creases@, adj.edge_is_boundary@, k);
    }
    if slots.len() == 2 {
        assert(slots =~= seq![slots[0], slots[1]]);
    }
    slots
}

proof fn lemma_led(slots: Seq<int>, n: int, k: int)
    requires
        slots_ok(slots, n),
    ensures
        ({
            let m = led_by(slots, k);
            &&& 0 <= m <= slots.len()
            &&& m > 0 ==> slots[m - 1] <= k
            &&& m < slots.len() ==> k < slots[m]
        }),
    decreases slots.len(),
{
    if slots.len() > 0 {
        let front = slots.drop_last();
        assert(slots_ok(front, n)) by {
            assert forall|i: int| 0 <= i < front.len() implies 0 <= #[trigger] front[i] < n by {
                assert(front[i] == slots[i]);
            }
        }
        lemma_led(front, n, k);
        let m = led_by(front, k);
        if slots.last() <= k && m < front.len() {
            assert(slots[m] < slots[slots.len() - 1]);
        }
    }
}

/// Each face round a corner lies in the sector between the sharp edges on both its sides,
/// and the first tangent of the sector is half the way from the end of the edge behind to
/// that of the edge in front.
pub proof fn sectors_lie_between_sharp_edges<S: Scalar, W: Wide<S>>(
    val: spec_fn(S) -> real,
    wal: spec_fn(W) -> real,
    x: spec_fn(u32) -> real,
    v: u32,
    ring: RingModel,
    slots: Seq<int>,
    k: int,
)
    requires
        reads_both::<S, W>(val, wal),
        ring_ok(ring),
        slots_ok(slots, ring.edges.len() as int),
        2 <= slots.len() <= u32::MAX,
        ring.boundary ==> slots[0] == 0 && slots.last() == ring.edges.len() - 1,
        0 <= k < ring.faces.len(),
    ensures
        ({
            let m = sectors_of::<S, W>(v, ring, RuleModel::Corner(slots));
            let j = m.fan_sector[k] as int;
            let lead = slots[j];
            let next = if j + 1 < slots.len() {
                slots[j + 1]
            } else {
                slots[0]
            };
            &&& m.fan_sector.len() == ring.faces.len()
            &&& j < m.tangents.len()
            &&& j + 1 < slots.len() ==> lead <= k < next
            &&& j + 1 == slots.len() ==> lead <= k || k < next
            &&& value(val, x, m.position) == x(v)
            &&& value(val, x, m.tangents[j].0) == (x(ring.neighbors[lead]) - x(ring.neighbors[next])) / (2 as real)
        }),
{
    let n = ring.edges.len() as int;
    let m = sectors_of::<S, W>(v, ring, RuleModel::Corner(slots));
    lemma_led(slots, n, k);
    let j = m.fan_sector[k] as int;
    let spans = corner_spans(slots, n, ring.boundary);
    lemma_identity_value::<S>(val, x, v);
    assert(slots[0] <= slots[j]) by {
        if j > 0 {
            assert(slots[0] < slots[j]);
        }
    }
    assert(j < spans.len());
    let (lead, trail) = spans[j];
    assert(0 <= slots[j] < n && 0 <= slots[0] < n);
    assert(m.tangents[j] == span_tangents::<S, W>(v, ring, lead, trail));
    if j + 1 < slots.len() {
        assert(slots[j] < slots[j + 1] && slots[j + 1] < n);
    }
    if ring.boundary {
        crease_limits::<S, W>(val, wal, x, v, ring, lead, trail);
    } else {
        let turned = rotated_ring(ring, lead);
        crease_limits::<S, W>(val, wal, x, v, turned, 0, trail - lead);
        assert(lead < trail && trail - lead < n) by {
            if j + 1 == slots.len() {
                assert(slots[0] < slots[j]);
            }
        }
        lemma_turned(lead, n);
        lemma_turned(slots[0], n);
        if j + 1 < slots.len() {
            lemma_turned(slots[j + 1], n);
        }
        assert(turned.neighbors[0] == ring.neighbors[lead]);
        assert(turned.neighbors[trail - lead] == ring.neighbors[trail % n]);
        if j + 1 == slots.len() {
            assert(trail % n == slots[0]);
        }
    }
}

/// The faces on the two sides of an inner crease lie in two sectors, whose first tangents
/// lead along the crease in opposite directions.
pub proof fn inner_creases_have_two_sides<S: Scalar, W: Wide<S>>(
    val: spec_fn(S) -> real,
    wal: spec_fn(W) -> real,
    x: spec_fn(u32) -> real,
    v: u32,
    ring: RingModel,
    lead: int,
    trail: int,
    k: int,
)
    requires
        reads_both::<S, W>(val, wal),
        ring_ok(ring),
        !ring.boundary,
        0 <= lead < trail < ring.edges.len(),
        0 <= k < ring.faces.len(),
    ensures
        ({
            let m = sectors_of::<S, W>(v, ring, RuleModel::Crease(lead, trail));
            let (a, b) = (x(ring.neighbors[lead]), x(ring.neighbors[trail]));
            &&& m.tangents.len() == 2
            &&& m.fan_sector.len() == ring.faces.len()
            &&& m.fan_sector[k] == 0 <==> lead <= k < trail
            &&& m.fan_sector[k] <= 1
            &&& value(val, x, m.position) == (4 as real * x(v) + a + b) / (6 as real)
            &&& value(val, x, m.tangents[0].0) == (a - b) / (2 as real)
            &&& value(val, x, m.tangents[1].0) == (b - a) / (2 as real)
        }),
{
    let n = ring.edges.len() as int;
    let turned = rotated_ring(ring, trail);
    let len = n - (trail - lead);
    crease_limits::<S, W>(val, wal, x, v, ring, lead, trail);
    crease_limits::<S, W>(val, wal, x, v, turned, 0, len);
    vstd::arithmetic::div_mod::lemma_small_mod(trail as nat, n as nat);
    lemma_turned(lead, n);
    assert(turned.neighbors[0] == ring.neighbors[trail]);
    assert(turned.neighbors[len] == ring.neighbors[lead]);
}

proof fn lemma_turned(k: int, n: int)
    requires
        0 <= k < n,
    ensures
        (k + n) % n == k,
        k % n == k,
{
    vstd::arithmetic::div_mod::lemma_mod_add_multiples_vanish(k, n);
    vstd::arithmetic::div_mod::lemma_small_mod(k as nat, n as nat);
}

/// The derivative along an edge of a crease: along its first edge the tangent of the
/// crease, along its last edge the tangent turned back, and along the only edge between
/// them the tangent across.
pub proof fn crease_edges_have_their_derivative<S: Scalar>(
    val: spec_fn(S) -> real,
    x: spec_fn(u32) -> real,
    ring: RingModel,
    lead: int,
    len: int,
    tangent1: Seq<(u32, S)>,
    tangent2: Seq<(u32, S)>,
    slot: int,
)
    requires
        reads_exactly(val),
        0 <= lead < ring.edges.len(),
        0 <= slot < ring.edges.len(),
        0 < len < ring.edges.len(),
    ensures
        ({
            let n = ring.edges.len() as int;
            let d = edge_derivative(ring, Some((lead, len)), tangent1, tangent2, Some(slot));
            &&& slot == lead ==> d is Some && value(val, x, d->Some_0) == value(val, x, tangent1)
            &&& slot == lead + len || (!ring.boundary && slot + n == lead + len) ==> d is Some && value(val, x, d->Some_0)
                == -value(val, x, tangent1)
            &&& len == 2 && (slot == lead + 1 || (!ring.boundary && slot + n == lead + 1)) ==> d is Some && value(
                val,
                x,
                d->Some_0,
            ) == value(val, x, tangent2)
        }),
{
    lemma_negated_value(val, x, tangent1);
    let n = ring.edges.len() as int;
    if !ring.boundary {
        if slot >= lead {
            lemma_turned(slot - lead, n);
            assert(slot - lead + n == slot + n - lead);
        } else {
            lemma_turned(slot + n - lead, n);
        }
    }
}

proof fn lemma_negated_value<S: Scalar>(val: spec_fn(S) -> real, x: spec_fn(u32) -> real, row: Seq<(u32, S)>)
    requires
        reads_exactly(val),
    ensures
        value(val, x, negated_row(row)) == -value(val, x, row),
    decreases row.len(),
{
    if row.len() > 0 {
        lemma_negated_value(val, x, row.drop_last());
        assert(negated_row(row).drop_last() =~= negated_row(row.drop_last()));
        let (i, w) = row.last();
        assert(negated_row(row).last() == (i, S::negated_of(w)));
        lemma_signed(val(w), x(i));
    }
}

} // verus!
