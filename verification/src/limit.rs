//! Stencils for points and tangent planes on the Catmull-Clark limit surface.

use crate::csr::copied;
use crate::error::KernelError;
use crate::inverse::{chain_composed, chain_width, table_rows};
use crate::masks::{
    corner_masks, corner_model, crease_masks, crease_model, lemma_crease_below, lemma_smooth_below, masks_below,
    ring_below, side_fits, smooth_masks, smooth_model, LimitMasks, MaskModel,
};
use crate::options::{BoundaryInterpolation, Scheme, SchemeOptions};
use crate::output::{tables_fit, RefinementResult};
use crate::ring::{
    edges_at, faces_at, quad_at, quad_edge, quad_slice, quads_ok, ring_contents, ring_of, ring_shape, rotated_ring,
    vertex_ring, Ring, RingModel,
};
use crate::rows::{flat, views};
use crate::rules::{corner_at_vertex, corner_of, lemma_corner_at_vertex};
use crate::scalar::{Scalar, Wide};
use crate::sharpness::{is_positive, positive};
use crate::stencil::{
    composed, identity_entry, identity_row, row_below, rows_below, written_from, StencilTable,
};
use crate::topology::{all_below, Adjacency, Mesh};
use vstd::prelude::*;

verus! {

// ---------------------------------------------------------------------------
// Rules
// ---------------------------------------------------------------------------
/// The slots of a ring whose edge is sharp or on the boundary.
pub open spec fn sharp_slots<S: Scalar>(edges: Seq<u32>, creases: Seq<S>, boundary: Seq<bool>) -> Seq<int>
    decreases edges.len(),
{
    if edges.len() == 0 {
        Seq::empty()
    } else {
        let front = sharp_slots(edges.drop_last(), creases, boundary);
        let e = edges.last() as int;
        if positive(creases[e]) || boundary[e] {
            front.push(edges.len() - 1)
        } else {
            front
        }
    }
}

/// Which limit rule a vertex follows.
pub enum RuleModel {
    Smooth,
    Crease(int, int),
    Corner(Seq<int>),
}

/// Which limit rule a vertex follows.
pub enum LimitRule {
    Smooth,
    Crease(usize, usize),
    Corner(Vec<usize>),
}

pub open spec fn slots_view(slots: Seq<usize>) -> Seq<int> {
    slots.map_values(|s: usize| s as int)
}

impl LimitRule {
    pub open spec fn view(self) -> RuleModel {
        match self {
            LimitRule::Smooth => RuleModel::Smooth,
            LimitRule::Crease(lead, trail) => RuleModel::Crease(lead as int, trail as int),
            LimitRule::Corner(slots) => RuleModel::Corner(slots_view(slots@)),
        }
    }
}

/// The rule of vertex `v` with the given ring.
pub open spec fn rule_of<S: Scalar>(
    mesh: Mesh<S>,
    adj: Adjacency,
    options: SchemeOptions,
    v: u32,
    ring: RingModel,
) -> RuleModel {
    let slots = sharp_slots(ring.edges, mesh.edge_creases@, adj.edge_is_boundary@);
    if positive(mesh.vertex_corners@[v as int]) {
        RuleModel::Corner(slots)
    } else if ring.boundary && options.boundary_interpolation == BoundaryInterpolation::EdgesAndCorners
        && ring.diagonals.len() <= 1 {
        RuleModel::Corner(slots)
    } else if slots.len() <= 1 {
        RuleModel::Smooth
    } else if slots.len() == 2 {
        RuleModel::Crease(slots[0], slots[1])
    } else {
        RuleModel::Corner(slots)
    }
}

/// Sharp slots are slots, in ascending order.
pub open spec fn slots_ok(slots: Seq<int>, n: int) -> bool {
    &&& forall|i: int| 0 <= i < slots.len() ==> 0 <= #[trigger] slots[i] < n
    &&& forall|i: int, j: int| 0 <= i < j < slots.len() ==> slots[i] < slots[j]
}

pub(crate) proof fn lemma_sharp_slots<S: Scalar>(edges: Seq<u32>, creases: Seq<S>, boundary: Seq<bool>)
    ensures
        slots_ok(sharp_slots(edges, creases, boundary), edges.len() as int),
        edges.len() > 0 && boundary[edges.last() as int] ==> sharp_slots(edges, creases, boundary).len() > 0
            && sharp_slots(edges, creases, boundary).last() == edges.len() - 1,
        sharp_slots(edges, creases, boundary).len() <= edges.len(),
    decreases edges.len(),
{
    if edges.len() > 0 {
        lemma_sharp_slots(edges.drop_last(), creases, boundary);
    }
}

fn collect_sharp_slots<S: Scalar>(edges: &[u32], creases: &[S], boundary: &[bool]) -> (r: Vec<usize>)
    requires
        all_below(edges@, creases@.len() as int),
        all_below(edges@, boundary@.len() as int),
    ensures
        slots_view(r@) == sharp_slots(edges@, creases@, boundary@),
{
    let mut out: Vec<usize> = Vec::new();
    let mut k: usize = 0;
    assert(edges@.take(0) =~= Seq::<u32>::empty());
    assert(slots_view(out@) =~= Seq::<int>::empty());
    while k < edges.len()
        invariant
            k <= edges.len(),
            all_below(edges@, creases@.len() as int),
            all_below(edges@, boundary@.len() as int),
            slots_view(out@) == sharp_slots(edges@.take(k as int), creases@, boundary@),
        decreases edges.len() - k,
    {
        assert(edges@[k as int] < creases@.len());
        assert(edges@[k as int] < boundary@.len());
        assert(edges@.take(k + 1).drop_last() =~= edges@.take(k as int));
        let e: usize = edges[k] as usize;
        let ghost before = slots_view(out@);
        if is_positive(creases[e]) || boundary[e] {
            out.push(k);
            assert(slots_view(out@) =~= before.push(k as int));
        }
        k += 1;
    }
    assert(edges@.take(k as int) =~= edges@);
    out
}

/// The rule of a vertex with a given ring.
pub fn classify<S: Scalar>(vi: u32, ring: &Ring, mesh: &Mesh<S>, adj: &Adjacency, options: &SchemeOptions) -> (r:
    LimitRule)
    requires
        quads_ok(*mesh, *adj),
        vi < mesh.vertex_count,
        all_below(ring.edges@, mesh.edge_vertices@.len() as int),
    ensures
        r@ == rule_of(*mesh, *adj, *options, vi, ring@),
{
    reveal(quads_ok);
    assert(all_below(ring.edges@, mesh.edge_creases@.len() as int)) by {
        assert forall|k: int| 0 <= k < ring.edges@.len() implies (#[trigger] ring.edges@[k]) < mesh.edge_creases@.len() by {
            assert(ring.edges@[k] < mesh.edge_vertices@.len());
        }
    }
    let slots: Vec<usize> = collect_sharp_slots(&ring.edges, &mesh.edge_creases, &adj.edge_is_boundary);
    assert(slots_view(slots@).len() == slots@.len());
    if is_positive(mesh.vertex_corners[vi as usize]) {
        return LimitRule::Corner(slots);
    }
    if ring.boundary && is_edges_and_corners(options) && ring.diagonals.len() <= 1 {
        return LimitRule::Corner(slots);
    }
    if slots.len() <= 1 {
        LimitRule::Smooth
    } else if slots.len() == 2 {
        assert(slots_view(slots@)[0] == slots@[0] && slots_view(slots@)[1] == slots@[1]);
        LimitRule::Crease(slots[0], slots[1])
    } else {
        LimitRule::Corner(slots)
    }
}

fn is_edges_and_corners(options: &SchemeOptions) -> (r: bool)
    ensures
        r == (options.boundary_interpolation == BoundaryInterpolation::EdgesAndCorners),
{
    match options.boundary_interpolation {
        BoundaryInterpolation::EdgesAndCorners => true,
        _ => false,
    }
}

fn is_natural(options: &SchemeOptions) -> (r: bool)
    ensures
        r == (options.boundary_interpolation == BoundaryInterpolation::Natural),
{
    match options.boundary_interpolation {
        BoundaryInterpolation::Natural => true,
        _ => false,
    }
}

// ---------------------------------------------------------------------------
// Sectors
// ---------------------------------------------------------------------------
/// The limit of a vertex: one position, and tangents for each sector between
/// sharp edges. `fan_sector` gives the sector of each face of the ring.
#[verifier::ext_equal]
pub struct SectorModel<S> {
    pub position: Seq<(u32, S)>,
    pub tangents: Seq<(Seq<(u32, S)>, Seq<(u32, S)>)>,
    pub fan_sector: Seq<u32>,
}

pub open spec fn single_sector<S>(m: MaskModel<S>, fan_count: nat) -> SectorModel<S> {
    SectorModel {
        position: m.position,
        tangents: seq![(m.tangent1, m.tangent2)],
        fan_sector: Seq::new(fan_count, |k: int| 0u32),
    }
}

/// The sharp edges that bound the sectors of a corner.
pub open spec fn corner_spans(slots: Seq<int>, edge_count: int, boundary: bool) -> Seq<(int, int)> {
    Seq::new(
        if boundary {
            (slots.len() - 1) as nat
        } else {
            slots.len()
        },
        |k: int|
            (
                slots[k],
                if k + 1 < slots.len() {
                    slots[k + 1]
                } else {
                    slots[0] + edge_count
                },
            ),
    )
}

/// How many sharp slots come no later than `slot`.
pub open spec fn led_by(slots: Seq<int>, slot: int) -> int
    decreases slots.len(),
{
    if slots.len() == 0 {
        0
    } else {
        led_by(slots.drop_last(), slot) + if slots.last() <= slot {
            1int
        } else {
            0
        }
    }
}

/// The tangents of a sector.
pub open spec fn span_tangents<S: Scalar, W: Wide<S>>(
    v: u32,
    ring: RingModel,
    lead: int,
    trail: int,
) -> (Seq<(u32, S)>, Seq<(u32, S)>) {
    let m = if ring.boundary {
        crease_model::<S, W>(v, ring, lead, trail)
    } else {
        crease_model::<S, W>(v, rotated_ring(ring, lead), 0, trail - lead)
    };
    (m.tangent1, m.tangent2)
}

/// The sectors of a vertex.
pub open spec fn sectors_of<S: Scalar, W: Wide<S>>(v: u32, ring: RingModel, rule: RuleModel) -> SectorModel<S> {
    let fan = ring.faces.len();
    match rule {
        RuleModel::Smooth => single_sector(smooth_model::<S, W>(v, ring), fan),
        RuleModel::Crease(lead, trail) => if ring.boundary {
            single_sector(crease_model::<S, W>(v, ring, lead, trail), fan)
        } else {
            let near = crease_model::<S, W>(v, ring, lead, trail);
            let far = crease_model::<S, W>(v, rotated_ring(ring, trail), 0, fan - (trail - lead));
            SectorModel {
                position: near.position,
                tangents: seq![(near.tangent1, near.tangent2), (far.tangent1, far.tangent2)],
                fan_sector: Seq::new(
                    fan,
                    |k: int|
                        if lead <= k < trail {
                            0u32
                        } else {
                            1u32
                        },
                ),
            }
        },
        RuleModel::Corner(slots) => if slots.len() < 2 {
            single_sector(corner_model::<S, W>(v, ring), fan)
        } else {
            let spans = corner_spans(slots, ring.edges.len() as int, ring.boundary);
            SectorModel {
                position: identity_row::<S>(v),
                tangents: spans.map_values(|s: (int, int)| span_tangents::<S, W>(v, ring, s.0, s.1)),
                fan_sector: Seq::new(
                    fan,
                    |k: int|
                        (if led_by(slots, k) == 0 {
                            spans.len() - 1
                        } else {
                            led_by(slots, k) - 1
                        }) as u32,
                ),
            }
        },
    }
}

/// The sectors of a vertex.
pub struct VertexSectors<S> {
    pub position: Vec<(u32, S)>,
    pub tangent1: Vec<Vec<(u32, S)>>,
    pub tangent2: Vec<Vec<(u32, S)>>,
    pub fan_sector: Vec<u32>,
}

impl<S> VertexSectors<S> {
    /// The sectors are those of the model.
    pub open spec fn is(self, m: SectorModel<S>) -> bool {
        &&& self.position@ == m.position
        &&& self.tangent1@.len() == m.tangents.len()
        &&& self.tangent2@.len() == m.tangents.len()
        &&& forall|k: int|
            0 <= k < m.tangents.len() ==> (#[trigger] self.tangent1@[k])@ == m.tangents[k].0
        &&& forall|k: int|
            0 <= k < m.tangents.len() ==> (#[trigger] self.tangent2@[k])@ == m.tangents[k].1
        &&& self.fan_sector@ == m.fan_sector
    }
}

/// A ring as a walk round a vertex gives it.
pub open spec fn ring_ok(ring: RingModel) -> bool {
    &&& ring.faces.len() > 0
    &&& ring.diagonals.len() == ring.faces.len()
    &&& ring.neighbors.len() == ring.edges.len()
    &&& ring.edges.len() == if ring.boundary {
        ring.faces.len() + 1
    } else {
        ring.faces.len()
    }
    &&& 2 <= ring.edges.len() <= u32::MAX
}

/// A rule whose slots are slots of the ring.
pub open spec fn rule_ok(ring: RingModel, rule: RuleModel) -> bool {
    match rule {
        RuleModel::Smooth => true,
        RuleModel::Crease(lead, trail) => 0 <= lead < trail < ring.edges.len(),
        RuleModel::Corner(slots) => slots_ok(slots, ring.edges.len() as int),
    }
}

fn zeros_u32(count: usize) -> (r: Vec<u32>)
    ensures
        r@ == Seq::new(count as nat, |k: int| 0u32),
{
    let mut out: Vec<u32> = Vec::new();
    let mut i: usize = 0;
    while i < count
        invariant
            i <= count,
            out@.len() == i,
            forall|j: int| 0 <= j < i ==> out@[j] == 0,
        decreases count - i,
    {
        out.push(0);
        i += 1;
    }
    assert(out@ =~= Seq::new(count as nat, |k: int| 0u32));
    out
}

fn single<S: Scalar>(masks: LimitMasks<S>, fan_count: usize) -> (r: VertexSectors<S>)
    ensures
        r.is(single_sector(masks@, fan_count as nat)),
{
    let LimitMasks { position, tangent1, tangent2 } = masks;
    let mut first: Vec<Vec<(u32, S)>> = Vec::new();
    let mut second: Vec<Vec<(u32, S)>> = Vec::new();
    first.push(tangent1);
    second.push(tangent2);
    VertexSectors { position, tangent1: first, tangent2: second, fan_sector: zeros_u32(fan_count) }
}

fn count_led<'a>(slots: &'a [usize], slot: usize) -> (r: usize)
    ensures
        r == led_by(slots_view(slots@), slot as int),
        r <= slots@.len(),
{
    let ghost all = slots_view(slots@);
    let mut count: usize = 0;
    let mut i: usize = 0;
    assert(all.take(0) =~= Seq::<int>::empty());
    while i < slots.len()
        invariant
            i <= slots.len(),
            all == slots_view(slots@),
            count == led_by(all.take(i as int), slot as int),
            count <= i,
        decreases slots.len() - i,
    {
        assert(all.take(i + 1).drop_last() =~= all.take(i as int));
        if slots[i] <= slot {
            count += 1;
        }
        i += 1;
    }
    assert(all.take(i as int) =~= all);
    count
}

fn crease_sectors<S: Scalar, W: Wide<S>>(vi: u32, ring: &Ring, lead: usize, trail: usize) -> (r: VertexSectors<S>)
    requires
        ring_ok(ring@),
        !ring.boundary,
        lead < trail < ring.edges@.len(),
    ensures
        r.is(sectors_of::<S, W>(vi, ring@, RuleModel::Crease(lead as int, trail as int))),
{
    let fan: usize = ring.faces.len();
    let near: LimitMasks<S> = crease_masks::<S, W>(vi, ring, lead, trail);
    let turned: Ring = ring.rotated(trail);
    let far: LimitMasks<S> = crease_masks::<S, W>(vi, &turned, 0, fan - (trail - lead));
    let mut first: Vec<Vec<(u32, S)>> = Vec::new();
    let mut second: Vec<Vec<(u32, S)>> = Vec::new();
    first.push(near.tangent1);
    first.push(far.tangent1);
    second.push(near.tangent2);
    second.push(far.tangent2);
    let ghost model = sectors_of::<S, W>(vi, ring@, RuleModel::Crease(lead as int, trail as int));
    let mut fan_sector: Vec<u32> = Vec::new();
    let mut k: usize = 0;
    while k < fan
        invariant
            k <= fan,
            !ring.boundary,
            fan == ring.faces@.len(),
            model == sectors_of::<S, W>(vi, ring@, RuleModel::Crease(lead as int, trail as int)),
            fan_sector@ == model.fan_sector.take(k as int),
        decreases fan - k,
    {
        fan_sector.push(
            if lead <= k && k < trail {
                0
            } else {
                1
            },
        );
        k += 1;
        assert(fan_sector@ =~= model.fan_sector.take(k as int));
    }
    assert(fan_sector@ =~= model.fan_sector);
    VertexSectors { position: near.position, tangent1: first, tangent2: second, fan_sector }
}

/// A span of a corner is a side of its ring.
proof fn lemma_span_fits(ring: RingModel, slots: Seq<int>, k: int)
    requires
        ring_ok(ring),
        slots_ok(slots, ring.edges.len() as int),
        slots.len() >= 2,
        0 <= k < corner_spans(slots, ring.edges.len() as int, ring.boundary).len(),
    ensures
        ({
            let s = corner_spans(slots, ring.edges.len() as int, ring.boundary)[k];
            &&& 0 <= s.0 < ring.edges.len()
            &&& s.0 < s.1 < s.0 + ring.edges.len()
            &&& ring.boundary ==> side_fits(ring, s.0, s.1)
            &&& !ring.boundary ==> side_fits(rotated_ring(ring, s.0), 0, s.1 - s.0)
        }),
{
    assert(0 <= slots[k] < ring.edges.len());
    if k + 1 < slots.len() {
        assert(slots[k] < slots[k + 1]);
        assert(0 <= slots[k + 1] < ring.edges.len());
    } else {
        assert(slots[0] < slots[k]);
        assert(0 <= slots[0]);
    }
}

fn corner_sectors<S: Scalar, W: Wide<S>>(vi: u32, ring: &Ring, slots: &[usize]) -> (r: VertexSectors<S>)
    requires
        ring_ok(ring@),
        slots_ok(slots_view(slots@), ring.edges@.len() as int),
        slots@.len() >= 2,
    ensures
        r.is(sectors_of::<S, W>(vi, ring@, RuleModel::Corner(slots_view(slots@)))),
{
    let ghost sv = slots_view(slots@);
    let ghost model = sectors_of::<S, W>(vi, ring@, RuleModel::Corner(sv));
    let ghost spans = corner_spans(sv, ring.edges@.len() as int, ring.boundary);
    assert(sv.len() == slots@.len());
    let fan: usize = ring.faces.len();
    let edge_count: usize = ring.edges.len();
    let count: usize = if ring.boundary {
        slots.len() - 1
    } else {
        slots.len()
    };
    assert(slots@.len() <= edge_count) by {
        lemma_slots_fit(sv, edge_count as int);
    }
    let mut first: Vec<Vec<(u32, S)>> = Vec::new();
    let mut second: Vec<Vec<(u32, S)>> = Vec::new();
    let mut k: usize = 0;
    while k < count
        invariant
            k <= count,
            count == spans.len(),
            count <= slots@.len(),
            slots@.len() >= 2,
            ring_ok(ring@),
            edge_count == ring.edges@.len(),
            sv == slots_view(slots@),
            slots_ok(sv, edge_count as int),
            spans == corner_spans(sv, edge_count as int, ring.boundary),
            model == sectors_of::<S, W>(vi, ring@, RuleModel::Corner(sv)),
            first@.len() == k,
            second@.len() == k,
            forall|j: int| 0 <= j < k ==> (#[trigger] first@[j])@ == model.tangents[j].0,
            forall|j: int| 0 <= j < k ==> (#[trigger] second@[j])@ == model.tangents[j].1,
        decreases count - k,
    {
        proof {
            lemma_span_fits(ring@, sv, k as int);
            assert(sv[k as int] == slots@[k as int]);
            assert(sv[0] == slots@[0]);
            assert(k + 1 < sv.len() ==> sv[k + 1] == slots@[k + 1]);
        }
        let lead: usize = slots[k];
        let length: usize = if k + 1 < slots.len() {
            slots[k + 1] - lead
        } else {
            edge_count - (lead - slots[0])
        };
        assert(spans[k as int] == (lead as int, lead + length));
        let masks: LimitMasks<S> = if ring.boundary {
            crease_masks::<S, W>(vi, ring, lead, lead + length)
        } else {
            crease_masks::<S, W>(vi, &ring.rotated(lead), 0, length)
        };
        assert(model.tangents[k as int] == (masks.tangent1@, masks.tangent2@));
        first.push(masks.tangent1);
        second.push(masks.tangent2);
        k += 1;
    }
    let mut fan_sector: Vec<u32> = Vec::new();
    let mut slot: usize = 0;
    while slot < fan
        invariant
            slot <= fan,
            fan == ring.faces@.len(),
            count == spans.len(),
            count >= 1,
            count <= u32::MAX,
            slots@.len() <= u32::MAX,
            slots@.len() >= 2,
            sv == slots_view(slots@),
            sv.len() == slots@.len(),
            spans == corner_spans(sv, ring.edges@.len() as int, ring.boundary),
            model == sectors_of::<S, W>(vi, ring@, RuleModel::Corner(sv)),
            fan_sector@ == model.fan_sector.take(slot as int),
        decreases fan - slot,
    {
        let led: usize = count_led(slots, slot);
        fan_sector.push(
            (if led == 0 {
                count - 1
            } else {
                led - 1
            }) as u32,
        );
        slot += 1;
        assert(fan_sector@ =~= model.fan_sector.take(slot as int));
    }
    assert(fan_sector@ =~= model.fan_sector);
    VertexSectors { position: identity_entry(vi), tangent1: first, tangent2: second, fan_sector }
}

/// There are no more ascending slots than places.
proof fn lemma_slots_fit(slots: Seq<int>, n: int)
    requires
        slots_ok(slots, n),
    ensures
        slots.len() <= n || slots.len() == 0,
{
    if slots.len() > 0 {
        lemma_slots_grow(slots, n, slots.len() - 1);
        assert(slots[slots.len() - 1] < n);
    }
}

proof fn lemma_slots_grow(slots: Seq<int>, n: int, i: int)
    requires
        slots_ok(slots, n),
        0 <= i < slots.len(),
    ensures
        i <= slots[i],
    decreases i,
{
    if i > 0 {
        lemma_slots_grow(slots, n, i - 1);
        assert(slots[i - 1] < slots[i]);
    } else {
        assert(0 <= slots[0]);
    }
}

/// The sectors of a vertex.
pub fn vertex_sectors<S: Scalar, W: Wide<S>>(vi: u32, ring: &Ring, rule: LimitRule) -> (r: VertexSectors<S>)
    requires
        ring_ok(ring@),
        rule_ok(ring@, rule@),
    ensures
        r.is(sectors_of::<S, W>(vi, ring@, rule@)),
{
    let fan: usize = ring.faces.len();
    match rule {
        LimitRule::Smooth => single(smooth_masks::<S, W>(vi, ring), fan),
        LimitRule::Crease(lead, trail) => if ring.boundary {
            single(crease_masks::<S, W>(vi, ring, lead, trail), fan)
        } else {
            crease_sectors::<S, W>(vi, ring, lead, trail)
        },
        LimitRule::Corner(slots) => {
            assert(slots_view(slots@).len() == slots@.len());
            if slots.len() < 2 {
                single(corner_masks::<S, W>(vi, ring), fan)
            } else {
                corner_sectors::<S, W>(vi, ring, &slots)
            }
        },
    }
}

// ---------------------------------------------------------------------------
// Which refinements have a limit here
// ---------------------------------------------------------------------------
/// Why a refinement is outside of the limit rules.
pub open spec fn quads_refused<S: Scalar>(result: RefinementResult<S>) -> Option<&'static str> {
    if result.scheme != Scheme::CatmullClark {
        Some("limit-surface machinery is only implemented for Catmull-Clark")
    } else if result.selected_faces is Some && exists|f: int|
        0 <= f < result.selected_faces->Some_0@.len() && !(#[trigger] result.selected_faces->Some_0@[f]) {
        Some("limit-surface machinery is not defined for partially selected refinements")
    } else if exists|f: int|
        0 <= f < result.topology.face_vertex_counts@.len() && (#[trigger] result.topology.face_vertex_counts@[f])
            != 4 {
        Some("limit-surface machinery needs an all-quad refined level (refine the cage at least once)")
    } else {
        None
    }
}

/// Why a refinement has no limit stencils.
pub open spec fn limit_refused<S: Scalar>(result: RefinementResult<S>) -> Option<&'static str> {
    match quads_refused(result) {
        Some(text) => Some(text),
        None => if result.options.boundary_interpolation == BoundaryInterpolation::Natural && exists|e: int|
            0 <= e < result.adjacency.edge_is_boundary@.len() && #[trigger] result.adjacency.edge_is_boundary@[e] {
            Some("limit stencils for BoundaryInterpolation::Natural on open meshes")
        } else {
            None
        },
    }
}

/// Rejects refinements that the limit rules do not cover.
pub fn validate_refined_quads<S: Scalar>(result: &RefinementResult<S>) -> (r: Result<(), KernelError>)
    ensures
        r == (match quads_refused(*result) {
            Some(text) => Err(KernelError::NotImplemented(text)),
            None => Ok(()),
        }),
{
    match result.scheme {
        Scheme::CatmullClark => {},
        _ => {
            return Err(
                KernelError::NotImplemented("limit-surface machinery is only implemented for Catmull-Clark"),
            );
        },
    }
    if let Some(mask) = &result.selected_faces {
        let mut f: usize = 0;
        while f < mask.len()
            invariant
                f <= mask.len(),
                result.scheme == Scheme::CatmullClark,
                result.selected_faces == Some(*mask),
                forall|g: int| 0 <= g < f ==> #[trigger] mask@[g],
            decreases mask.len() - f,
        {
            if !mask[f] {
                assert(!mask@[f as int]);
                assert(!result.selected_faces->Some_0@[f as int]);
                return Err(
                    KernelError::NotImplemented(
                        "limit-surface machinery is not defined for partially selected refinements",
                    ),
                );
            }
            f += 1;
        }
    }
    assert(!(result.selected_faces is Some && exists|f: int|
        0 <= f < result.selected_faces->Some_0@.len() && !(#[trigger] result.selected_faces->Some_0@[f])));
    let counts: &Vec<u32> = &result.topology.face_vertex_counts;
    let mut f: usize = 0;
    while f < counts.len()
        invariant
            f <= counts.len(),
            counts@ == result.topology.face_vertex_counts@,
            result.scheme == Scheme::CatmullClark,
            !(result.selected_faces is Some && exists|f: int|
                0 <= f < result.selected_faces->Some_0@.len() && !(#[trigger] result.selected_faces->Some_0@[f])),
            forall|g: int| 0 <= g < f ==> (#[trigger] counts@[g]) == 4,
        decreases counts.len() - f,
    {
        if counts[f] != 4 {
            assert(result.topology.face_vertex_counts@[f as int] != 4);
            return Err(
                KernelError::NotImplemented(
                    "limit-surface machinery needs an all-quad refined level (refine the cage at least once)",
                ),
            );
        }
        f += 1;
    }
    Ok(())
}

fn validate_limit_topology<S: Scalar>(result: &RefinementResult<S>) -> (r: Result<(), KernelError>)
    ensures
        r == (match limit_refused(*result) {
            Some(text) => Err(KernelError::NotImplemented(text)),
            None => Ok(()),
        }),
{
    match validate_refined_quads(result) {
        Ok(_) => {},
        Err(error) => {
            return Err(error);
        },
    }
    if is_natural(&result.options) {
        let flags: &Vec<bool> = &result.adjacency.edge_is_boundary;
        let mut e: usize = 0;
        while e < flags.len()
            invariant
                e <= flags.len(),
                flags@ == result.adjacency.edge_is_boundary@,
                quads_refused(*result) is None,
                result.options.boundary_interpolation == BoundaryInterpolation::Natural,
                forall|g: int| 0 <= g < e ==> !(#[trigger] flags@[g]),
            decreases flags.len() - e,
        {
            if flags[e] {
                assert(result.adjacency.edge_is_boundary@[e as int]);
                return Err(
                    KernelError::NotImplemented(
                        "limit stencils for BoundaryInterpolation::Natural on open meshes",
                    ),
                );
            }
            e += 1;
        }
    }
    Ok(())
}

// ---------------------------------------------------------------------------
// Limit stencils
// ---------------------------------------------------------------------------
/// Stencils from refined vertices to their limits.
#[derive(Debug, Clone, PartialEq)]
pub struct LimitStencils<S> {
    pub position: StencilTable<S>,
    pub tangent1: StencilTable<S>,
    pub tangent2: StencilTable<S>,
}

/// Stencils from refined vertices to their limits, with tangents for each
/// sector between sharp edges.
#[derive(Debug, Clone, PartialEq)]
pub struct SectoredLimitStencils<S> {
    pub position: StencilTable<S>,
    pub tangent1: StencilTable<S>,
    pub tangent2: StencilTable<S>,
    /// Tangent row of each corner, face by face.
    pub corner_sector: Vec<u32>,
}

/// No inner vertex has a single face.
#[verifier::opaque]
pub open spec fn unfolded(adj: Adjacency, n: int) -> bool {
    forall|v: int|
        0 <= v < n && !(#[trigger] adj.vertex_is_boundary@[v]) ==> faces_at(adj, v).len() != 1
}

/// A refined quad mesh that the limit rules can be read off.
pub open spec fn limit_ready<S>(mesh: Mesh<S>, adj: Adjacency) -> bool {
    quads_ok(mesh, adj) && unfolded(adj, mesh.vertex_count as int)
}

/// The first fault among the rings of the first `k` vertices.
pub open spec fn first_ring_fault<S>(mesh: Mesh<S>, adj: Adjacency, k: int) -> Option<&'static str>
    decreases k,
{
    if k <= 0 {
        None
    } else {
        match first_ring_fault(mesh, adj, k - 1) {
            Some(text) => Some(text),
            None => match ring_of(mesh, adj, (k - 1) as u32) {
                Ok(ring) => None,
                Err(text) => Some(text),
            },
        }
    }
}

proof fn lemma_ring_fault<S>(mesh: Mesh<S>, adj: Adjacency, j: int, k: int)
    requires
        0 <= j <= k,
        first_ring_fault(mesh, adj, j) is Some,
    ensures
        first_ring_fault(mesh, adj, k) == first_ring_fault(mesh, adj, j),
    decreases k,
{
    if j < k {
        lemma_ring_fault(mesh, adj, j, k - 1);
    }
}

/// The limit of vertex `v`.
pub open spec fn limit_model<S: Scalar, W: Wide<S>>(
    mesh: Mesh<S>,
    adj: Adjacency,
    options: SchemeOptions,
    v: u32,
) -> MaskModel<S> {
    let ring = ring_of(mesh, adj, v)->Ok_0;
    match rule_of(mesh, adj, options, v, ring) {
        RuleModel::Smooth => smooth_model::<S, W>(v, ring),
        RuleModel::Crease(lead, trail) => crease_model::<S, W>(v, ring, lead, trail),
        RuleModel::Corner(_) => corner_model::<S, W>(v, ring),
    }
}

pub open spec fn limit_models<S: Scalar, W: Wide<S>>(
    mesh: Mesh<S>,
    adj: Adjacency,
    options: SchemeOptions,
) -> Seq<MaskModel<S>> {
    Seq::new(mesh.vertex_count as nat, |v: int| limit_model::<S, W>(mesh, adj, options, v as u32))
}

pub open spec fn positions_of<S>(models: Seq<MaskModel<S>>) -> Seq<Seq<(u32, S)>> {
    models.map_values(|m: MaskModel<S>| m.position)
}

pub open spec fn tangents_1<S>(models: Seq<MaskModel<S>>) -> Seq<Seq<(u32, S)>> {
    models.map_values(|m: MaskModel<S>| m.tangent1)
}

pub open spec fn tangents_2<S>(models: Seq<MaskModel<S>>) -> Seq<Seq<(u32, S)>> {
    models.map_values(|m: MaskModel<S>| m.tangent2)
}

/// What a ring of the mesh is good for.
#[verifier::rlimit(40)]
pub(crate) proof fn lemma_ring_ok<S: Scalar>(mesh: Mesh<S>, adj: Adjacency, options: SchemeOptions, v: u32)
    requires
        limit_ready(mesh, adj),
        v < mesh.vertex_count,
        ring_of(mesh, adj, v) is Ok,
    ensures
        ({
            let ring = ring_of(mesh, adj, v)->Ok_0;
            &&& ring_ok(ring)
            &&& rule_ok(ring, rule_of(mesh, adj, options, v, ring))
            &&& all_below(ring.edges, mesh.edge_vertices@.len() as int)
            &&& all_below(ring.faces, mesh.face_vertex_counts@.len() as int)
            &&& ring_below(ring, mesh.vertex_count as nat)
            &&& ring.edges.len() == edges_at(adj, v as int).len()
            &&& ring.boundary ==> adj.edge_is_boundary@[ring.edges.last() as int]
        }),
{
    let ring = ring_of(mesh, adj, v)->Ok_0;
    ring_shape(mesh, adj, v);
    ring_contents(mesh, adj, v);
    lemma_sharp_slots(ring.edges, mesh.edge_creases@, adj.edge_is_boundary@);
    let slots = sharp_slots(ring.edges, mesh.edge_creases@, adj.edge_is_boundary@);
    assert(slots.len() >= 2 ==> 0 <= slots[0] && slots[0] < slots[1] && slots[1] < ring.edges.len());
    assert(edges_at(adj, v as int).len() <= u32::MAX) by {
        reveal(quads_ok);
        let o = adj.vertex_edge_offsets@;
        assert(o[v as int] <= o[v + 1]);
        assert(o[v + 1] <= o[o.len() - 1]);
    }
    assert(ring.edges.len() >= 2) by {
        reveal(unfolded);
        reveal(quads_ok);
        assert(!adj.vertex_is_boundary@[v as int] ==> faces_at(adj, v as int).len() != 1);
    }
}

/// The limit of a vertex.
fn limit_masks<S: Scalar, W: Wide<S>>(
    vi: u32,
    mesh: &Mesh<S>,
    adj: &Adjacency,
    options: &SchemeOptions,
) -> (r: Result<LimitMasks<S>, KernelError>)
    requires
        limit_ready(*mesh, *adj),
        vi < mesh.vertex_count,
    ensures
        match ring_of(*mesh, *adj, vi) {
            Ok(ring) => r is Ok && r->Ok_0@ == limit_model::<S, W>(*mesh, *adj, *options, vi),
            Err(text) => r == Err::<LimitMasks<S>, _>(KernelError::InvalidTopology(text)),
        },
{
    let ring: Ring = match vertex_ring(vi, mesh, adj) {
        Ok(ring) => ring,
        Err(error) => {
            return Err(error);
        },
    };
    proof {
        lemma_ring_ok(*mesh, *adj, *options, vi);
    }
    match classify(vi, &ring, mesh, adj, options) {
        LimitRule::Smooth => Ok(smooth_masks::<S, W>(vi, &ring)),
        LimitRule::Crease(lead, trail) => Ok(crease_masks::<S, W>(vi, &ring, lead, trail)),
        LimitRule::Corner(_) => Ok(corner_masks::<S, W>(vi, &ring)),
    }
}

fn build_limit_stencils<S: Scalar, W: Wide<S>>(result: &RefinementResult<S>) -> (r: Result<
    LimitStencils<S>,
    KernelError,
>)
    requires
        limit_refused(*result) is None ==> limit_ready(result.topology, result.adjacency),
    ensures
        limit_outcome::<S, W>(*result, r),
{
    match validate_limit_topology(result) {
        Ok(_) => {},
        Err(error) => {
            return Err(error);
        },
    }
    let mesh: &Mesh<S> = &result.topology;
    let adj: &Adjacency = &result.adjacency;
    let ghost models = limit_models::<S, W>(*mesh, *adj, result.options);
    let n: u32 = mesh.vertex_count;
    let mut positions: Vec<Vec<(u32, S)>> = Vec::new();
    let mut first: Vec<Vec<(u32, S)>> = Vec::new();
    let mut second: Vec<Vec<(u32, S)>> = Vec::new();
    let mut vi: u32 = 0;
    assert(views(positions@) =~= positions_of(models.take(0)));
    assert(views(first@) =~= tangents_1(models.take(0)));
    assert(views(second@) =~= tangents_2(models.take(0)));
    while vi < n
        invariant
            vi <= n,
            n == mesh.vertex_count,
            *mesh == result.topology,
            *adj == result.adjacency,
            limit_ready(*mesh, *adj),
            limit_refused(*result) is None,
            models == limit_models::<S, W>(*mesh, *adj, result.options),
            first_ring_fault(*mesh, *adj, vi as int) is None,
            views(positions@) == positions_of(models.take(vi as int)),
            views(first@) == tangents_1(models.take(vi as int)),
            views(second@) == tangents_2(models.take(vi as int)),
        decreases n - vi,
    {
        let masks: LimitMasks<S> = match limit_masks::<S, W>(vi, mesh, adj, &result.options) {
            Ok(masks) => masks,
            Err(error) => {
                proof {
                    assert(first_ring_fault(*mesh, *adj, vi + 1) is Some);
                    lemma_ring_fault(*mesh, *adj, vi + 1, n as int);
                }
                return Err(error);
            },
        };
        let ghost m = masks@;
        let ghost b0 = views(positions@);
        let ghost b1 = views(first@);
        let ghost b2 = views(second@);
        let LimitMasks { position, tangent1, tangent2 } = masks;
        positions.push(position);
        first.push(tangent1);
        second.push(tangent2);
        assert(models.take(vi + 1) =~= models.take(vi as int).push(m));
        assert(views(positions@) =~= b0.push(m.position));
        assert(views(first@) =~= b1.push(m.tangent1));
        assert(views(second@) =~= b2.push(m.tangent2));
        assert(views(positions@) =~= positions_of(models.take(vi + 1)));
        assert(views(first@) =~= tangents_1(models.take(vi + 1)));
        assert(views(second@) =~= tangents_2(models.take(vi + 1)));
        vi += 1;
    }
    assert(models.take(vi as int) =~= models);
    Ok(
        LimitStencils {
            position: StencilTable::from_rows(&positions),
            tangent1: StencilTable::from_rows(&first),
            tangent2: StencilTable::from_rows(&second),
        },
    )
}

/// The limit stencils of a refinement, or why there are none.
pub open spec fn limit_outcome<S: Scalar, W: Wide<S>>(
    result: RefinementResult<S>,
    r: Result<LimitStencils<S>, KernelError>,
) -> bool {
    let mesh = result.topology;
    let adj = result.adjacency;
    let models = limit_models::<S, W>(mesh, adj, result.options);
    match limit_refused(result) {
        Some(text) => r == Err::<LimitStencils<S>, _>(KernelError::NotImplemented(text)),
        None => match first_ring_fault(mesh, adj, mesh.vertex_count as int) {
            Some(text) => r == Err::<LimitStencils<S>, _>(KernelError::InvalidTopology(text)),
            None => {
                &&& r is Ok
                &&& written_from(r->Ok_0.position, positions_of(models))
                &&& written_from(r->Ok_0.tangent1, tangents_1(models))
                &&& written_from(r->Ok_0.tangent2, tangents_2(models))
            },
        },
    }
}

/// The limit stencils of a vertex read refined vertices only.
pub proof fn limit_rows_fit<S: Scalar, W: Wide<S>>(mesh: Mesh<S>, adj: Adjacency, options: SchemeOptions)
    requires
        limit_ready(mesh, adj),
        first_ring_fault(mesh, adj, mesh.vertex_count as int) is None,
    ensures
        rows_below(positions_of(limit_models::<S, W>(mesh, adj, options)), mesh.vertex_count as nat),
        rows_below(tangents_1(limit_models::<S, W>(mesh, adj, options)), mesh.vertex_count as nat),
        rows_below(tangents_2(limit_models::<S, W>(mesh, adj, options)), mesh.vertex_count as nat),
{
    let n = mesh.vertex_count as nat;
    let models = limit_models::<S, W>(mesh, adj, options);
    assert forall|v: int| 0 <= v < models.len() implies masks_below(#[trigger] models[v], n) by {
        lemma_no_ring_fault(mesh, adj, v, n as int);
        let vi = v as u32;
        let ring = ring_of(mesh, adj, vi)->Ok_0;
        lemma_ring_ok(mesh, adj, options, vi);
        lemma_smooth_below::<S, W>(vi, ring, n);
        match rule_of(mesh, adj, options, vi, ring) {
            RuleModel::Crease(lead, trail) => {
                lemma_crease_below::<S, W>(vi, ring, lead, trail, n);
            },
            _ => {},
        }
    }
    assert forall|v: int| 0 <= v < models.len() implies row_below(#[trigger] positions_of(models)[v], n) by {
        assert(masks_below(models[v], n));
    }
    assert forall|v: int| 0 <= v < models.len() implies row_below(#[trigger] tangents_1(models)[v], n) by {
        assert(masks_below(models[v], n));
    }
    assert forall|v: int| 0 <= v < models.len() implies row_below(#[trigger] tangents_2(models)[v], n) by {
        assert(masks_below(models[v], n));
    }
}

pub(crate) proof fn lemma_no_ring_fault<S>(mesh: Mesh<S>, adj: Adjacency, v: int, k: int)
    requires
        0 <= v < k,
        first_ring_fault(mesh, adj, k) is None,
    ensures
        ring_of(mesh, adj, v as u32) is Ok,
    decreases k,
{
    if v < k - 1 {
        lemma_no_ring_fault(mesh, adj, v, k - 1);
    }
}

// ---------------------------------------------------------------------------
// Sectored limit stencils
// ---------------------------------------------------------------------------
/// The sectors of vertex `v`.
pub open spec fn sector_model<S: Scalar, W: Wide<S>>(
    mesh: Mesh<S>,
    adj: Adjacency,
    options: SchemeOptions,
    v: u32,
) -> SectorModel<S> {
    let ring = ring_of(mesh, adj, v)->Ok_0;
    sectors_of::<S, W>(v, ring, rule_of(mesh, adj, options, v, ring))
}

/// The tables of the sectors while they are filled.
#[verifier::ext_equal]
pub struct SectorTables<S> {
    pub position: Seq<Seq<(u32, S)>>,
    pub tangent1: Seq<Seq<(u32, S)>>,
    pub tangent2: Seq<Seq<(u32, S)>>,
    pub corner_sector: Seq<u32>,
}

/// The corners of the first `k` faces of a ring, put into their sectors.
pub open spec fn corners_placed<S>(
    mesh: Mesh<S>,
    v: u32,
    corner_sector: Seq<u32>,
    faces: Seq<u32>,
    fan_sector: Seq<u32>,
    first_row: int,
    k: int,
) -> Seq<u32>
    decreases k,
{
    if k <= 0 {
        corner_sector
    } else {
        let before = corners_placed(mesh, v, corner_sector, faces, fan_sector, first_row, k - 1);
        let f = faces[k - 1] as int;
        match corner_at_vertex(quad_at(mesh, f), v) {
            Some(c) => before.update(4 * f + c, (first_row + fan_sector[k - 1]) as u32),
            None => before,
        }
    }
}

/// The tables after the first `k` vertices.
pub open spec fn sector_tables<S: Scalar, W: Wide<S>>(
    mesh: Mesh<S>,
    adj: Adjacency,
    options: SchemeOptions,
    k: int,
) -> SectorTables<S>
    decreases k,
{
    if k <= 0 {
        SectorTables {
            position: Seq::empty(),
            tangent1: Seq::empty(),
            tangent2: Seq::empty(),
            corner_sector: Seq::new(mesh.face_vertex_indices@.len(), |i: int| u32::MAX),
        }
    } else {
        let before = sector_tables::<S, W>(mesh, adj, options, k - 1);
        let v = (k - 1) as u32;
        let ring = ring_of(mesh, adj, v)->Ok_0;
        let m = sector_model::<S, W>(mesh, adj, options, v);
        SectorTables {
            position: before.position.push(m.position),
            tangent1: before.tangent1 + m.tangents.map_values(|t: (Seq<(u32, S)>, Seq<(u32, S)>)| t.0),
            tangent2: before.tangent2 + m.tangents.map_values(|t: (Seq<(u32, S)>, Seq<(u32, S)>)| t.1),
            corner_sector: corners_placed(
                mesh,
                v,
                before.corner_sector,
                ring.faces,
                m.fan_sector,
                before.tangent1.len() as int,
                ring.faces.len() as int,
            ),
        }
    }
}

/// The sectored limit stencils of a refinement, or why there are none.
pub open spec fn sectored_outcome<S: Scalar, W: Wide<S>>(
    result: RefinementResult<S>,
    r: Result<SectoredLimitStencils<S>, KernelError>,
) -> bool {
    let mesh = result.topology;
    let adj = result.adjacency;
    let tables = sector_tables::<S, W>(mesh, adj, result.options, mesh.vertex_count as int);
    match limit_refused(result) {
        Some(text) => r == Err::<SectoredLimitStencils<S>, _>(KernelError::NotImplemented(text)),
        None => match first_ring_fault(mesh, adj, mesh.vertex_count as int) {
            Some(text) => r == Err::<SectoredLimitStencils<S>, _>(KernelError::InvalidTopology(text)),
            None => {
                &&& r is Ok
                &&& written_from(r->Ok_0.position, tables.position)
                &&& written_from(r->Ok_0.tangent1, tables.tangent1)
                &&& written_from(r->Ok_0.tangent2, tables.tangent2)
                &&& r->Ok_0.corner_sector@ == tables.corner_sector
            },
        },
    }
}

/// A vertex has at most one sector per edge, and each face lies in one.
pub(crate) proof fn lemma_sector_count<S: Scalar, W: Wide<S>>(mesh: Mesh<S>, adj: Adjacency, options: SchemeOptions, v: u32)
    requires
        limit_ready(mesh, adj),
        v < mesh.vertex_count,
        ring_of(mesh, adj, v) is Ok,
    ensures
        ({
            let ring = ring_of(mesh, adj, v)->Ok_0;
            let m = sector_model::<S, W>(mesh, adj, options, v);
            &&& 0 < m.tangents.len() <= edges_at(adj, v as int).len()
            &&& m.fan_sector.len() == ring.faces.len()
            &&& forall|k: int| 0 <= k < m.fan_sector.len() ==> (#[trigger] m.fan_sector[k]) < m.tangents.len()
        }),
{
    let ring = ring_of(mesh, adj, v)->Ok_0;
    let rule = rule_of(mesh, adj, options, v, ring);
    let m = sector_model::<S, W>(mesh, adj, options, v);
    lemma_ring_ok(mesh, adj, options, v);
    lemma_sharp_slots(ring.edges, mesh.edge_creases@, adj.edge_is_boundary@);
    match rule {
        RuleModel::Corner(slots) => {
            if slots.len() >= 2 {
                assert forall|k: int| 0 <= k < m.fan_sector.len() implies (#[trigger] m.fan_sector[k])
                    < m.tangents.len() by {
                    lemma_led_by(slots, k);
                    if ring.boundary {
                        assert(slots.last() == ring.edges.len() - 1);
                        lemma_led_by(slots.drop_last(), k);
                    }
                }
            }
        },
        _ => {},
    }
}

proof fn lemma_led_by(slots: Seq<int>, slot: int)
    ensures
        0 <= led_by(slots, slot) <= slots.len(),
    decreases slots.len(),
{
    if slots.len() > 0 {
        lemma_led_by(slots.drop_last(), slot);
    }
}

/// The tangents of the first `k` vertices are no more than their edges.
pub(crate) proof fn lemma_sector_rows<S: Scalar, W: Wide<S>>(mesh: Mesh<S>, adj: Adjacency, options: SchemeOptions, k: int)
    requires
        limit_ready(mesh, adj),
        0 <= k <= mesh.vertex_count,
        first_ring_fault(mesh, adj, k) is None,
    ensures
        sector_tables::<S, W>(mesh, adj, options, k).tangent1.len() <= adj.vertex_edge_offsets@[k],
        sector_tables::<S, W>(mesh, adj, options, k).tangent1.len() == sector_tables::<S, W>(
            mesh,
            adj,
            options,
            k,
        ).tangent2.len(),
    decreases k,
{
    if k > 0 {
        lemma_sector_rows::<S, W>(mesh, adj, options, k - 1);
        lemma_sector_count::<S, W>(mesh, adj, options, (k - 1) as u32);
        reveal(quads_ok);
        let o = adj.vertex_edge_offsets@;
        assert(o[k - 1] <= o[k]);
        assert(o[k] <= o[o.len() - 1]);
    }
}

/// Puts the corners of a ring into their sectors.
fn place_corners<S: Scalar>(
    mesh: &Mesh<S>,
    Ghost(adj): Ghost<Adjacency>,
    vi: u32,
    corner_sector: &mut Vec<u32>,
    faces: &[u32],
    fan_sector: &[u32],
    first_row: u32,
)
    requires
        quads_ok(*mesh, adj),
        all_below(faces@, mesh.face_vertex_counts@.len() as int),
        fan_sector@.len() == faces@.len(),
        forall|k: int| 0 <= k < fan_sector@.len() ==> first_row + (#[trigger] fan_sector@[k]) <= u32::MAX,
        old(corner_sector)@.len() == mesh.face_vertex_indices@.len(),
    ensures
        final(corner_sector)@.len() == old(corner_sector)@.len(),
        final(corner_sector)@ == corners_placed(
            *mesh,
            vi,
            old(corner_sector)@,
            faces@,
            fan_sector@,
            first_row as int,
            faces@.len() as int,
        ),
{
    let mut k: usize = 0;
    while k < faces.len()
        invariant
            k <= faces.len(),
            quads_ok(*mesh, adj),
            all_below(faces@, mesh.face_vertex_counts@.len() as int),
            fan_sector@.len() == faces@.len(),
            forall|k: int| 0 <= k < fan_sector@.len() ==> first_row + (#[trigger] fan_sector@[k]) <= u32::MAX,
            corner_sector@.len() == mesh.face_vertex_indices@.len(),
            corner_sector@ == corners_placed(
                *mesh,
                vi,
                old(corner_sector)@,
                faces@,
                fan_sector@,
                first_row as int,
                k as int,
            ),
        decreases faces.len() - k,
    {
        assert(faces@[k as int] < mesh.face_vertex_counts@.len());
        let f: usize = faces[k] as usize;
        match corner_of(quad_slice(mesh, Ghost(adj), f), vi) {
            Some(c) => {
                proof {
                    reveal(quads_ok);
                    lemma_corner_at_vertex(quad_at(*mesh, f as int), vi);
                    assert(first_row + fan_sector@[k as int] <= u32::MAX);
                }
                let total: usize = corner_sector.len();
                assert(4 * f + c < total);
                corner_sector[4 * f + c] = first_row + fan_sector[k];
            },
            None => {},
        }
        k += 1;
    }
}

fn append_rows<S: Scalar>(out: &mut Vec<Vec<(u32, S)>>, rows: &mut Vec<Vec<(u32, S)>>, Ghost(model): Ghost<
    Seq<Seq<(u32, S)>>,
>)
    requires
        old(rows)@.len() == model.len(),
        forall|k: int| 0 <= k < model.len() ==> (#[trigger] old(rows)@[k])@ == model[k],
    ensures
        views(final(out)@) == views(old(out)@) + model,
{
    let ghost before = views(out@);
    assert(views(rows@) =~= model);
    out.append(rows);
    assert(views(out@) =~= before + model);
}

#[verifier::rlimit(60)]
fn build_sectored_limit_stencils<S: Scalar, W: Wide<S>>(result: &RefinementResult<S>) -> (r: Result<
    SectoredLimitStencils<S>,
    KernelError,
>)
    requires
        limit_refused(*result) is None ==> limit_ready(result.topology, result.adjacency),
    ensures
        sectored_outcome::<S, W>(*result, r),
{
    match validate_limit_topology(result) {
        Ok(_) => {},
        Err(error) => {
            return Err(error);
        },
    }
    let mesh: &Mesh<S> = &result.topology;
    let adj: &Adjacency = &result.adjacency;
    let ghost options = result.options;
    let n: u32 = mesh.vertex_count;
    let mut positions: Vec<Vec<(u32, S)>> = Vec::new();
    let mut first: Vec<Vec<(u32, S)>> = Vec::new();
    let mut second: Vec<Vec<(u32, S)>> = Vec::new();
    let mut corner_sector: Vec<u32> = Vec::new();
    let mut i: usize = 0;
    while i < mesh.face_vertex_indices.len()
        invariant
            i <= mesh.face_vertex_indices.len(),
            corner_sector@.len() == i,
            forall|j: int| 0 <= j < i ==> corner_sector@[j] == u32::MAX,
        decreases mesh.face_vertex_indices.len() - i,
    {
        corner_sector.push(u32::MAX);
        i += 1;
    }
    let ghost start = sector_tables::<S, W>(*mesh, *adj, options, 0);
    assert(corner_sector@ =~= start.corner_sector);
    assert(views(positions@) =~= start.position);
    assert(views(first@) =~= start.tangent1);
    assert(views(second@) =~= start.tangent2);
    let mut vi: u32 = 0;
    while vi < n
        invariant
            vi <= n,
            n == mesh.vertex_count,
            *mesh == result.topology,
            *adj == result.adjacency,
            options == result.options,
            limit_ready(*mesh, *adj),
            limit_refused(*result) is None,
            first_ring_fault(*mesh, *adj, vi as int) is None,
            corner_sector@.len() == mesh.face_vertex_indices@.len(),
            views(positions@) == sector_tables::<S, W>(*mesh, *adj, options, vi as int).position,
            views(first@) == sector_tables::<S, W>(*mesh, *adj, options, vi as int).tangent1,
            views(second@) == sector_tables::<S, W>(*mesh, *adj, options, vi as int).tangent2,
            corner_sector@ == sector_tables::<S, W>(*mesh, *adj, options, vi as int).corner_sector,
        decreases n - vi,
    {
        let ring: Ring = match vertex_ring(vi, mesh, adj) {
            Ok(ring) => ring,
            Err(error) => {
                proof {
                    assert(first_ring_fault(*mesh, *adj, vi + 1) is Some);
                    lemma_ring_fault(*mesh, *adj, vi + 1, n as int);
                }
                return Err(error);
            },
        };
        let ghost m = sector_model::<S, W>(*mesh, *adj, options, vi);
        proof {
            lemma_ring_ok(*mesh, *adj, options, vi);
            lemma_sector_count::<S, W>(*mesh, *adj, options, vi);
            lemma_sector_rows::<S, W>(*mesh, *adj, options, vi as int);
            lemma_sector_rows::<S, W>(*mesh, *adj, options, vi + 1);
            assert(views(first@).len() == first@.len());
        }
        let rule: LimitRule = classify(vi, &ring, mesh, adj, &result.options);
        let sectors: VertexSectors<S> = vertex_sectors::<S, W>(vi, &ring, rule);
        let first_row: u32 = first.len() as u32;
        let VertexSectors { position, tangent1, tangent2, fan_sector } = sectors;
        let mut tangent1 = tangent1;
        let mut tangent2 = tangent2;
        place_corners(mesh, Ghost(*adj), vi, &mut corner_sector, &ring.faces, &fan_sector, first_row);
        let ghost b0 = views(positions@);
        positions.push(position);
        assert(views(positions@) =~= b0.push(m.position));
        append_rows(
            &mut first,
            &mut tangent1,
            Ghost(m.tangents.map_values(|t: (Seq<(u32, S)>, Seq<(u32, S)>)| t.0)),
        );
        append_rows(
            &mut second,
            &mut tangent2,
            Ghost(m.tangents.map_values(|t: (Seq<(u32, S)>, Seq<(u32, S)>)| t.1)),
        );
        vi += 1;
    }
    Ok(
        SectoredLimitStencils {
            position: StencilTable::from_rows(&positions),
            tangent1: StencilTable::from_rows(&first),
            tangent2: StencilTable::from_rows(&second),
            corner_sector,
        },
    )
}

/// The sectors of a vertex read refined vertices only.
proof fn lemma_sectors_below<S: Scalar, W: Wide<S>>(mesh: Mesh<S>, adj: Adjacency, options: SchemeOptions, v: u32)
    requires
        limit_ready(mesh, adj),
        v < mesh.vertex_count,
        ring_of(mesh, adj, v) is Ok,
    ensures
        ({
            let n = mesh.vertex_count as nat;
            let m = sector_model::<S, W>(mesh, adj, options, v);
            &&& row_below(m.position, n)
            &&& forall|k: int|
                0 <= k < m.tangents.len() ==> row_below((#[trigger] m.tangents[k]).0, n) && row_below(
                    m.tangents[k].1,
                    n,
                )
        }),
{
    let n = mesh.vertex_count as nat;
    let ring = ring_of(mesh, adj, v)->Ok_0;
    let rule = rule_of(mesh, adj, options, v, ring);
    let m = sector_model::<S, W>(mesh, adj, options, v);
    lemma_ring_ok(mesh, adj, options, v);
    lemma_smooth_below::<S, W>(v, ring, n);
    match rule {
        RuleModel::Smooth => {},
        RuleModel::Crease(lead, trail) => {
            lemma_crease_below::<S, W>(v, ring, lead, trail, n);
            if !ring.boundary {
                lemma_rotated_below(ring, trail, n);
                lemma_crease_below::<S, W>(
                    v,
                    rotated_ring(ring, trail),
                    0,
                    ring.faces.len() - (trail - lead),
                    n,
                );
            }
        },
        RuleModel::Corner(slots) => {
            if slots.len() >= 2 {
                let spans = corner_spans(slots, ring.edges.len() as int, ring.boundary);
                assert forall|k: int| 0 <= k < m.tangents.len() implies row_below((#[trigger] m.tangents[k]).0, n)
                    && row_below(m.tangents[k].1, n) by {
                    lemma_span_fits(ring, slots, k);
                    let s = spans[k];
                    if ring.boundary {
                        lemma_crease_below::<S, W>(v, ring, s.0, s.1, n);
                    } else {
                        lemma_rotated_below(ring, s.0, n);
                        lemma_crease_below::<S, W>(v, rotated_ring(ring, s.0), 0, s.1 - s.0, n);
                    }
                }
            }
        },
    }
}

proof fn lemma_rotated_below(ring: RingModel, by: int, n: nat)
    requires
        ring_below(ring, n),
        0 <= by,
    ensures
        ring_below(rotated_ring(ring, by), n),
{
    let r = rotated_ring(ring, by);
    assert forall|k: int| 0 <= k < r.neighbors.len() implies (#[trigger] r.neighbors[k]) < n by {
        let m = ring.neighbors.len() as int;
        assert(0 <= (k + by) % m < m) by (nonlinear_arith)
            requires
                m > 0,
        ;
        assert(ring.neighbors[(k + by) % m] < n);
    }
    assert forall|k: int| 0 <= k < r.diagonals.len() implies (#[trigger] r.diagonals[k]) < n by {
        let m = ring.diagonals.len() as int;
        assert(0 <= (k + by) % m < m) by (nonlinear_arith)
            requires
                m > 0,
        ;
        assert(ring.diagonals[(k + by) % m] < n);
    }
}

/// The sectored limit stencils read refined vertices only.
pub proof fn sector_rows_fit<S: Scalar, W: Wide<S>>(mesh: Mesh<S>, adj: Adjacency, options: SchemeOptions, k: int)
    requires
        limit_ready(mesh, adj),
        0 <= k <= mesh.vertex_count,
        first_ring_fault(mesh, adj, k) is None,
    ensures
        ({
            let n = mesh.vertex_count as nat;
            let t = sector_tables::<S, W>(mesh, adj, options, k);
            rows_below(t.position, n) && rows_below(t.tangent1, n) && rows_below(t.tangent2, n)
        }),
    decreases k,
{
    if k > 0 {
        let n = mesh.vertex_count as nat;
        sector_rows_fit::<S, W>(mesh, adj, options, k - 1);
        lemma_sectors_below::<S, W>(mesh, adj, options, (k - 1) as u32);
        let before = sector_tables::<S, W>(mesh, adj, options, k - 1);
        let t = sector_tables::<S, W>(mesh, adj, options, k);
        let m = sector_model::<S, W>(mesh, adj, options, (k - 1) as u32);
        assert forall|i: int| 0 <= i < t.tangent1.len() implies row_below(#[trigger] t.tangent1[i], n) by {
            if i < before.tangent1.len() {
                assert(row_below(before.tangent1[i], n));
            } else {
                assert(row_below(m.tangents[i - before.tangent1.len()].0, n));
            }
        }
        assert forall|i: int| 0 <= i < t.tangent2.len() implies row_below(#[trigger] t.tangent2[i], n) by {
            if i < before.tangent2.len() {
                assert(row_below(before.tangent2[i], n));
            } else {
                assert(row_below(m.tangents[i - before.tangent2.len()].1, n));
            }
        }
        assert forall|i: int| 0 <= i < t.position.len() implies row_below(#[trigger] t.position[i], n) by {
            if i < before.position.len() {
                assert(row_below(before.position[i], n));
            }
        }
    }
}

/// The tables of a refinement can be composed on `n` inputs: they fit one after
/// the other, end at the refined vertices, and stay within 32-bit offsets.
pub open spec fn composable<S: Scalar>(result: RefinementResult<S>, n: nat) -> bool {
    &&& n <= u32::MAX
    &&& tables_fit(result.level_stencils@, n)
    &&& chain_width(table_rows(result.level_stencils@), n) == result.topology.vertex_count
    &&& forall|k: int|
        0 <= k <= result.level_stencils@.len() ==> flat(
            #[trigger] chain_composed(table_rows(result.level_stencils@.take(k)), n),
        ).len() <= u32::MAX
}

/// The limit rules take the refinement, and the faces round each of its vertices
/// form a ring.
pub open spec fn has_limits<S: Scalar>(result: RefinementResult<S>) -> bool {
    limit_refused(result) is None && first_ring_fault(
        result.topology,
        result.adjacency,
        result.topology.vertex_count as int,
    ) is None
}

/// The rows of all steps composed on `n` inputs.
pub open spec fn cage_rows<S: Scalar>(result: RefinementResult<S>, n: nat) -> Seq<Seq<(u32, S)>> {
    chain_composed(table_rows(result.level_stencils@), n)
}

proof fn lemma_cage_len<S: Scalar>(result: RefinementResult<S>, n: nat)
    requires
        composable(result, n),
    ensures
        cage_rows(result, n).len() == result.topology.vertex_count,
{
    let levels = table_rows(result.level_stencils@);
    if levels.len() > 0 {
        assert(levels.last().len() == result.topology.vertex_count);
    }
}

impl<S: Scalar> RefinementResult<S> {
    /// Stencils from the refined vertices to their limits.
    pub fn limit_stencils<W: Wide<S>>(&self) -> (r: Result<LimitStencils<S>, KernelError>)
        requires
            limit_refused(*self) is None ==> limit_ready(self.topology, self.adjacency),
        ensures
            limit_outcome::<S, W>(*self, r),
    {
        build_limit_stencils::<S, W>(self)
    }

    /// Stencils from the original vertices to the limits of the refined ones.
    pub fn compose_limit_stencils<W: Wide<S>>(&self, input_vertex_count: usize) -> (r: Result<
        LimitStencils<S>,
        KernelError,
    >)
        requires
            limit_refused(*self) is None ==> limit_ready(self.topology, self.adjacency),
            has_limits(*self) ==> composable(*self, input_vertex_count as nat),
            has_limits(*self) ==> ({
                let models = limit_models::<S, W>(self.topology, self.adjacency, self.options);
                &&& flat(positions_of(models)).len() <= u32::MAX
                &&& flat(tangents_1(models)).len() <= u32::MAX
                &&& flat(tangents_2(models)).len() <= u32::MAX
            }),
        ensures
            match r {
                Ok(stencils) => {
                    let models = limit_models::<S, W>(self.topology, self.adjacency, self.options);
                    let cage = cage_rows(*self, input_vertex_count as nat);
                    &&& limit_refused(*self) is None
                    &&& first_ring_fault(self.topology, self.adjacency, self.topology.vertex_count as int) is None
                    &&& written_from(stencils.position, composed(cage, positions_of(models)))
                    &&& written_from(stencils.tangent1, composed(cage, tangents_1(models)))
                    &&& written_from(stencils.tangent2, composed(cage, tangents_2(models)))
                },
                Err(error) => limit_outcome::<S, W>(*self, Err(error)),
            },
    {
        let limit: LimitStencils<S> = match self.limit_stencils::<W>() {
            Ok(limit) => limit,
            Err(error) => {
                return Err(error);
            },
        };
        let cage: StencilTable<S> = self.compose_stencils(input_vertex_count);
        proof {
            lemma_cage_len(*self, input_vertex_count as nat);
            limit_rows_fit::<S, W>(self.topology, self.adjacency, self.options);
        }
        Ok(
            LimitStencils {
                position: cage.compose(&limit.position),
                tangent1: cage.compose(&limit.tangent1),
                tangent2: cage.compose(&limit.tangent2),
            },
        )
    }

    /// Stencils from the refined vertices to their limits, by sectors.
    pub fn sectored_limit_stencils<W: Wide<S>>(&self) -> (r: Result<SectoredLimitStencils<S>, KernelError>)
        requires
            limit_refused(*self) is None ==> limit_ready(self.topology, self.adjacency),
        ensures
            sectored_outcome::<S, W>(*self, r),
    {
        build_sectored_limit_stencils::<S, W>(self)
    }

    /// Stencils from the original vertices to the limits of the refined ones,
    /// by sectors.
    pub fn compose_sectored_limit_stencils<W: Wide<S>>(&self, input_vertex_count: usize) -> (r: Result<
        SectoredLimitStencils<S>,
        KernelError,
    >)
        requires
            limit_refused(*self) is None ==> limit_ready(self.topology, self.adjacency),
            has_limits(*self) ==> composable(*self, input_vertex_count as nat),
            has_limits(*self) ==> ({
                let tables = sector_tables::<S, W>(
                    self.topology,
                    self.adjacency,
                    self.options,
                    self.topology.vertex_count as int,
                );
                &&& flat(tables.position).len() <= u32::MAX
                &&& flat(tables.tangent1).len() <= u32::MAX
                &&& flat(tables.tangent2).len() <= u32::MAX
            }),
        ensures
            match r {
                Ok(stencils) => {
                    let tables = sector_tables::<S, W>(
                        self.topology,
                        self.adjacency,
                        self.options,
                        self.topology.vertex_count as int,
                    );
                    let cage = cage_rows(*self, input_vertex_count as nat);
                    &&& limit_refused(*self) is None
                    &&& first_ring_fault(self.topology, self.adjacency, self.topology.vertex_count as int) is None
                    &&& written_from(stencils.position, composed(cage, tables.position))
                    &&& written_from(stencils.tangent1, composed(cage, tables.tangent1))
                    &&& written_from(stencils.tangent2, composed(cage, tables.tangent2))
                    &&& stencils.corner_sector@ == tables.corner_sector
                },
                Err(error) => sectored_outcome::<S, W>(*self, Err(error)),
            },
    {
        let sectored: SectoredLimitStencils<S> = match self.sectored_limit_stencils::<W>() {
            Ok(sectored) => sectored,
            Err(error) => {
                return Err(error);
            },
        };
        let cage: StencilTable<S> = self.compose_stencils(input_vertex_count);
        proof {
            lemma_cage_len(*self, input_vertex_count as nat);
            sector_rows_fit::<S, W>(
                self.topology,
                self.adjacency,
                self.options,
                self.topology.vertex_count as int,
            );
        }
        Ok(
            SectoredLimitStencils {
                position: cage.compose(&sectored.position),
                tangent1: cage.compose(&sectored.tangent1),
                tangent2: cage.compose(&sectored.tangent2),
                corner_sector: sectored.corner_sector,
            },
        )
    }
}

// ---------------------------------------------------------------------------
// The limit at a corner of a quad
// ---------------------------------------------------------------------------
/// The derivatives at a corner: along its two edges where the ring gives them,
/// else any two directions of the tangent plane.
#[verifier::ext_equal]
pub enum DerivativeModel<S> {
    Parametric(Seq<(u32, S)>, Seq<(u32, S)>),
    Plane(Seq<(u32, S)>, Seq<(u32, S)>),
}

/// The derivatives at a corner: along its out-edge and its in-edge where the
/// ring gives them, else any two directions of the tangent plane.
pub enum SectorDerivatives<S> {
    Parametric { d_out: Vec<(u32, S)>, d_in: Vec<(u32, S)> },
    Plane { tangent1: Vec<(u32, S)>, tangent2: Vec<(u32, S)> },
}

impl<S> SectorDerivatives<S> {
    pub open spec fn view(self) -> DerivativeModel<S> {
        match self {
            SectorDerivatives::Parametric { d_out, d_in } => DerivativeModel::Parametric(d_out@, d_in@),
            SectorDerivatives::Plane { tangent1, tangent2 } => DerivativeModel::Plane(tangent1@, tangent2@),
        }
    }
}

pub open spec fn is_place(list: Seq<u32>, x: u32, p: int) -> bool {
    &&& 0 <= p < list.len()
    &&& list[p] == x
    &&& forall|q: int| 0 <= q < p ==> (#[trigger] list[q]) != x
}

/// Where `x` stands first in a list.
pub open spec fn place_of(list: Seq<u32>, x: u32) -> Option<int> {
    if exists|p: int| is_place(list, x, p) {
        Some(choose|p: int| is_place(list, x, p))
    } else {
        None
    }
}

/// Where `x` stands first in a list.
pub fn find_place(list: &[u32], x: u32) -> (r: Option<usize>)
    ensures
        match r {
            Some(p) => place_of(list@, x) == Some(p as int) && p < list@.len(),
            None => place_of(list@, x) is None,
        },
{
    let mut p: usize = 0;
    while p < list.len()
        invariant
            p <= list.len(),
            forall|q: int| 0 <= q < p ==> (#[trigger] list@[q]) != x,
        decreases list.len() - p,
    {
        if list[p] == x {
            proof {
                assert(is_place(list@, x, p as int));
                let c = choose|c: int| is_place(list@, x, c);
                if c < p {
                    assert(list@[c] != x);
                }
                if p < c {
                    assert(list@[p as int] != x);
                }
            }
            return Some(p);
        }
        p += 1;
    }
    proof {
        if exists|c: int| is_place(list@, x, c) {
            let c = choose|c: int| is_place(list@, x, c);
            assert(list@[c] != x);
        }
    }
    None
}

/// The side of a crease that a sector is: its first edge and its length.
pub open spec fn crease_span(ring: RingModel, rule: RuleModel, row: int) -> Option<(int, int)> {
    match rule {
        RuleModel::Crease(lead, trail) => if ring.boundary || row == 0 {
            Some((lead, trail - lead))
        } else {
            Some((trail, ring.edges.len() - (trail - lead)))
        },
        _ => None,
    }
}

/// How far a slot is from the first edge of a side.
pub open spec fn slot_offset(ring: RingModel, lead: int, slot: int) -> Option<int> {
    if ring.boundary {
        if slot >= lead {
            Some(slot - lead)
        } else {
            None
        }
    } else {
        Some((slot + ring.edges.len() - lead) % (ring.edges.len() as int))
    }
}

pub open spec fn negated_row<S: Scalar>(row: Seq<(u32, S)>) -> Seq<(u32, S)> {
    row.map_values(|e: (u32, S)| (e.0, S::negated_of(e.1)))
}

/// The derivative along the edge in a slot, where the tangents give it.
pub open spec fn edge_derivative<S: Scalar>(
    ring: RingModel,
    span: Option<(int, int)>,
    tangent1: Seq<(u32, S)>,
    tangent2: Seq<(u32, S)>,
    slot: Option<int>,
) -> Option<Seq<(u32, S)>> {
    match (span, slot) {
        (Some((lead, len)), Some(slot)) => match slot_offset(ring, lead, slot) {
            Some(rel) => if rel == 0 {
                Some(tangent1)
            } else if rel == len {
                Some(negated_row(tangent1))
            } else if len == 2 && rel == 1 {
                Some(tangent2)
            } else {
                None
            },
            None => None,
        },
        _ => None,
    }
}

/// The limit at corner `corner` of quad `face`, or why there is none.
pub open spec fn corner_sector_of<S: Scalar, W: Wide<S>>(
    mesh: Mesh<S>,
    adj: Adjacency,
    options: SchemeOptions,
    face: u32,
    corner: int,
) -> Result<(Seq<(u32, S)>, DerivativeModel<S>), KernelError> {
    let v = quad_at(mesh, face as int)[corner];
    match ring_of(mesh, adj, v) {
        Err(text) => Err(KernelError::InvalidTopology(text)),
        Ok(ring) => if ring.boundary && options.boundary_interpolation == BoundaryInterpolation::Natural {
            Err(
                KernelError::NotImplemented(
                    "limit evaluation at boundary feature vertices under BoundaryInterpolation::Natural",
                ),
            )
        } else {
            match place_of(ring.faces, face) {
                None => Err(
                    KernelError::InvalidTopology("corner vertex ring does not contain the corner's face"),
                ),
                Some(fan_slot) => {
                    let rule = rule_of(mesh, adj, options, v, ring);
                    let m = sectors_of::<S, W>(v, ring, rule);
                    let row = m.fan_sector[fan_slot] as int;
                    let (tangent1, tangent2) = m.tangents[row];
                    let span = crease_span(ring, rule, row);
                    let out_slot = place_of(ring.edges, adj.face_edges@[4 * face + corner]);
                    let in_slot = place_of(ring.edges, adj.face_edges@[4 * face + (corner + 3) % 4]);
                    Ok(
                        (
                            m.position,
                            match (
                                edge_derivative(ring, span, tangent1, tangent2, out_slot),
                                edge_derivative(ring, span, tangent1, tangent2, in_slot),
                            ) {
                                (Some(d_out), Some(d_in)) => DerivativeModel::Parametric(d_out, d_in),
                                _ => DerivativeModel::Plane(tangent1, tangent2),
                            },
                        ),
                    )
                },
            }
        },
    }
}

fn negate_row<S: Scalar>(row: &[(u32, S)]) -> (r: Vec<(u32, S)>)
    ensures
        r@ == negated_row(row@),
{
    let ghost all = negated_row(row@);
    let mut out: Vec<(u32, S)> = Vec::new();
    let mut k: usize = 0;
    while k < row.len()
        invariant
            k <= row.len(),
            all == negated_row(row@),
            out@ == all.take(k as int),
        decreases row.len() - k,
    {
        out.push((row[k].0, row[k].1.negated()));
        k += 1;
        assert(out@ =~= all.take(k as int));
    }
    assert(out@ =~= all);
    out
}

fn find_edge_derivative<S: Scalar>(
    ring: &Ring,
    span: Option<(usize, usize)>,
    tangent1: &[(u32, S)],
    tangent2: &[(u32, S)],
    slot: Option<usize>,
) -> (r: Option<Vec<(u32, S)>>)
    requires
        ring_ok(ring@),
        span is Some ==> span->Some_0.0 < ring.edges@.len(),
        slot is Some ==> slot->Some_0 < ring.edges@.len(),
    ensures
        ({
            let s = match span {
                Some((lead, len)) => Some((lead as int, len as int)),
                None => None,
            };
            let p = match slot {
                Some(p) => Some(p as int),
                None => None,
            };
            let model = edge_derivative(ring@, s, tangent1@, tangent2@, p);
            match r {
                Some(row) => model == Some(row@),
                None => model is None,
            }
        }),
{
    match (span, slot) {
        (Some((lead, len)), Some(slot)) => {
            let n: usize = ring.edges.len();
            let rel: usize = if slot >= lead {
                slot - lead
            } else if ring.boundary {
                return None;
            } else {
                n - (lead - slot)
            };
            proof {
                if !ring.boundary {
                    let m = n as int;
                    if slot >= lead {
                        assert((slot + m - lead) % m == slot - lead) by (nonlinear_arith)
                            requires
                                0 <= slot - lead < m,
                        ;
                    } else {
                        assert((slot + m - lead) % m == slot + m - lead) by (nonlinear_arith)
                            requires
                                0 <= slot + m - lead < m,
                        ;
                    }
                }
            }
            if rel == 0 {
                Some(copied(tangent1))
            } else if rel == len {
                Some(negate_row(tangent1))
            } else if len == 2 && rel == 1 {
                Some(copied(tangent2))
            } else {
                None
            }
        },
        _ => None,
    }
}

/// The limit at a corner of a quad.
#[verifier::rlimit(60)]
pub fn corner_limit_sector<S: Scalar, W: Wide<S>>(
    face: u32,
    corner: usize,
    mesh: &Mesh<S>,
    adj: &Adjacency,
    options: &SchemeOptions,
) -> (r: Result<(Vec<(u32, S)>, SectorDerivatives<S>), KernelError>)
    requires
        limit_ready(*mesh, *adj),
        face < mesh.face_vertex_counts@.len(),
        corner < 4,
    ensures
        match corner_sector_of::<S, W>(*mesh, *adj, *options, face, corner as int) {
            Ok((position, derivatives)) => r is Ok && r->Ok_0.0@ == position && r->Ok_0.1@ == derivatives,
            Err(error) => r is Err && r->Err_0 == error,
        },
{
    let corners: &[u32] = quad_slice(mesh, Ghost(*adj), face as usize);
    let vi: u32 = corners[corner];
    assert(corners@[corner as int] < mesh.vertex_count);
    let ring: Ring = match vertex_ring(vi, mesh, adj) {
        Ok(ring) => ring,
        Err(error) => {
            return Err(error);
        },
    };
    if ring.boundary && is_natural(options) {
        return Err(
            KernelError::NotImplemented(
                "limit evaluation at boundary feature vertices under BoundaryInterpolation::Natural",
            ),
        );
    }
    proof {
        lemma_ring_ok(*mesh, *adj, *options, vi);
        lemma_sector_count::<S, W>(*mesh, *adj, *options, vi);
    }
    let ghost model = sector_model::<S, W>(*mesh, *adj, *options, vi);
    let rule: LimitRule = classify(vi, &ring, mesh, adj, options);
    let crease: Option<(usize, usize)> = match &rule {
        LimitRule::Crease(lead, trail) => Some((*lead, *trail)),
        _ => None,
    };
    let fan_slot: usize = match find_place(&ring.faces, face) {
        Some(slot) => slot,
        None => {
            return Err(
                KernelError::InvalidTopology("corner vertex ring does not contain the corner's face"),
            );
        },
    };
    let ghost rule_model = rule@;
    let sectors: VertexSectors<S> = vertex_sectors::<S, W>(vi, &ring, rule);
    assert(model.fan_sector[fan_slot as int] < model.tangents.len());
    let row: usize = sectors.fan_sector[fan_slot] as usize;
    let tangent1: &Vec<(u32, S)> = &sectors.tangent1[row];
    let tangent2: &Vec<(u32, S)> = &sectors.tangent2[row];
    let span: Option<(usize, usize)> = match crease {
        Some((lead, trail)) => if ring.boundary || row == 0 {
            Some((lead, trail - lead))
        } else {
            Some((trail, ring.edges.len() - (trail - lead)))
        },
        None => None,
    };
    let before: usize = if corner == 0 {
        3
    } else {
        corner - 1
    };
    assert((corner + 3) % 4 == before);
    let out_slot: Option<usize> = find_place(&ring.edges, quad_edge::<S>(Ghost(*mesh), adj, face as usize, corner));
    let in_slot: Option<usize> = find_place(&ring.edges, quad_edge::<S>(Ghost(*mesh), adj, face as usize, before));
    let d_out: Option<Vec<(u32, S)>> = find_edge_derivative(&ring, span, tangent1, tangent2, out_slot);
    let d_in: Option<Vec<(u32, S)>> = find_edge_derivative(&ring, span, tangent1, tangent2, in_slot);
    let position: Vec<(u32, S)> = copied(&sectors.position);
    match (d_out, d_in) {
        (Some(d_out), Some(d_in)) => Ok((position, SectorDerivatives::Parametric { d_out, d_in })),
        _ => Ok(
            (
                position,
                SectorDerivatives::Plane { tangent1: copied(tangent1), tangent2: copied(tangent2) },
            ),
        ),
    }
}

pub open spec fn derivatives_below<S>(d: DerivativeModel<S>, n: nat) -> bool {
    match d {
        DerivativeModel::Parametric(a, b) => row_below(a, n) && row_below(b, n),
        DerivativeModel::Plane(a, b) => row_below(a, n) && row_below(b, n),
    }
}

/// The limit at a corner of a quad reads refined vertices only.
pub proof fn corner_rows_fit<S: Scalar, W: Wide<S>>(
    mesh: Mesh<S>,
    adj: Adjacency,
    options: SchemeOptions,
    face: u32,
    corner: int,
)
    requires
        limit_ready(mesh, adj),
        face < mesh.face_vertex_counts@.len(),
        0 <= corner < 4,
    ensures
        match corner_sector_of::<S, W>(mesh, adj, options, face, corner) {
            Ok((position, derivatives)) => row_below(position, mesh.vertex_count as nat) && derivatives_below(
                derivatives,
                mesh.vertex_count as nat,
            ),
            Err(_) => true,
        },
{
    let n = mesh.vertex_count as nat;
    let v = quad_at(mesh, face as int)[corner];
    assert(v < n) by {
        reveal(quads_ok);
        assert(v == mesh.face_vertex_indices@[4 * face + corner]);
    }
    if corner_sector_of::<S, W>(mesh, adj, options, face, corner) is Ok {
        let ring = ring_of(mesh, adj, v)->Ok_0;
        lemma_ring_ok(mesh, adj, options, v);
        lemma_sectors_below::<S, W>(mesh, adj, options, v);
        lemma_sector_count::<S, W>(mesh, adj, options, v);
        let m = sector_model::<S, W>(mesh, adj, options, v);
        let slot = place_of(ring.faces, face)->Some_0;
        assert(is_place(ring.faces, face, slot));
        let row = m.fan_sector[slot] as int;
        assert(row < m.tangents.len());
        let t = m.tangents[row];
        assert(row_below(negated_row(t.0), n)) by {
            assert forall|k: int| 0 <= k < negated_row(t.0).len() implies (#[trigger] negated_row(t.0)[k]).0 < n by {
                assert(t.0[k].0 < n);
            }
        }
    }
}

} // verus!
