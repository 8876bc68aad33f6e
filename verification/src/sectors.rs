//! What the limit stencils of all vertices have in common.

use crate::base::same_mesh;
use crate::catmull_clark::refine::cc_refines;
use crate::connectivity::{corner_faces, lemma_corner, lemma_listed_complete, vertex_face_lists};
use crate::error::KernelError;
use crate::incidence::lemma_flat_locate;
use crate::level::LevelData;
use crate::limit::{
    corner_spans, corners_placed, first_ring_fault, lemma_no_ring_fault, lemma_ring_ok, lemma_sector_count,
    lemma_sector_rows, limit_model, limit_models, limit_outcome, limit_ready, positions_of, quads_refused, rule_of,
    sector_model, sector_tables, sectored_outcome, sectors_of, sharp_slots, tangents_1, tangents_2, LimitStencils,
    RuleModel, SectoredLimitStencils,
};
use crate::masks::corner_model;
use crate::options::SchemeOptions;
use crate::output::{same_adjacency, RefinementResult};
use crate::ring::{
    faces_at, fan_front, fan_start, fan_steps, fan_walk, is_leading_step, is_next_step, lemma_walk_len,
    lemma_walk_range, quad_at, quads_ok, ring_contents, ring_of, ring_shape, row_of, FanStep,
};
use crate::rows::{flat, ints, lemma_flat_row, row_start, row_starts};
use crate::rules::{corner_at_vertex, lemma_corner_at_vertex};
use crate::scalar::{Scalar, Wide};
use crate::tangents::{cosines_balance, lemma_direction, sines_balance, tangent_weights_sum_to_nought};
use crate::topology::{all_below, Adjacency, Mesh};
use crate::unity::{limit_weights_sum_to_one, reads_both};
use crate::weights::total;
use vstd::prelude::*;

verus! {

// ---------------------------------------------------------------------------
// Rings
// ---------------------------------------------------------------------------
proof fn lemma_walk_differs(steps: Seq<FanStep>, start: u32, k: int)
    requires
        0 <= k,
        fan_walk(steps, start, k) is Some,
    ensures
        fan_walk(steps, start, k)->Some_0.no_duplicates(),
    decreases k,
{
    if k > 0 {
        lemma_walk_differs(steps, start, k - 1);
        let taken = fan_walk(steps, start, k - 1)->Some_0;
        let edge = fan_front(steps, start, taken);
        let i = choose|i: int| is_next_step(steps, taken, edge, i);
        assert(is_next_step(steps, taken, edge, i));
        let whole = fan_walk(steps, start, k)->Some_0;
        assert(whole == taken.push(i));
        assert forall|a: int, b: int| 0 <= a < b < whole.len() implies whole[a] != whole[b] by {
            if b == taken.len() {
                assert(taken.contains(taken[a]));
            }
        }
    }
}

/// As many different places as there are take every place.
proof fn lemma_every_place(taken: Seq<int>, n: int, i: int)
    requires
        taken.no_duplicates(),
        taken.len() == n,
        forall|j: int| 0 <= j < taken.len() ==> 0 <= #[trigger] taken[j] < n,
        0 <= i < n,
    ensures
        taken.contains(i),
{
    taken.unique_seq_to_set();
    vstd::set_lib::lemma_int_range(0, n);
    let range = vstd::set_lib::set_int_range(0, n);
    let set = taken.to_set();
    assert(set.subset_of(range)) by {
        assert forall|x: int| set.contains(x) implies range.contains(x) by {
            let j = taken.index_of(x);
            assert(0 <= taken[j] < n);
        }
    }
    vstd::set_lib::lemma_subset_equality(set, range);
    assert(range.contains(i));
    assert(set.contains(i));
}

/// The ring of a vertex has all its faces, and that of a boundary vertex starts on a
/// boundary edge.
pub proof fn rings_are_complete<S>(mesh: Mesh<S>, adj: Adjacency, v: u32, f: u32)
    requires
        ring_of(mesh, adj, v) is Ok,
    ensures
        faces_at(adj, v as int).contains(f) ==> ring_of(mesh, adj, v)->Ok_0.faces.contains(f),
        adj.vertex_is_boundary@[v as int] ==> adj.edge_is_boundary@[ring_of(mesh, adj, v)->Ok_0.edges[0] as int],
{
    let list = faces_at(adj, v as int);
    let steps = fan_steps(mesh, adj, v, list);
    let boundary = adj.vertex_is_boundary@[v as int];
    let start = fan_start(steps, adj.edge_is_boundary@, boundary)->Some_0;
    let n = steps.len() as int;
    let taken = fan_walk(steps, start, n)->Some_0;
    let ring = ring_of(mesh, adj, v)->Ok_0;
    lemma_walk_len(steps, start, n);
    lemma_walk_range(steps, start, n);
    lemma_walk_differs(steps, start, n);
    if list.contains(f) {
        let i = list.index_of(f);
        lemma_every_place(taken, n, i);
        let j = taken.index_of(i);
        assert(crate::ring::fan_step(mesh, adj, v, list[i]) is Some);
        assert(steps[i].face == f);
        assert(ring.faces[j] == f);
    }
    if boundary {
        let i = choose|i: int| is_leading_step(steps, adj.edge_is_boundary@, i);
        assert(is_leading_step(steps, adj.edge_is_boundary@, i));
        assert(ring.edges[0] == start);
    }
}

/// A boundary edge is among the sharp slots.
proof fn lemma_boundary_is_sharp<S: Scalar>(edges: Seq<u32>, creases: Seq<S>, boundary: Seq<bool>, k: int)
    requires
        0 <= k < edges.len(),
        boundary[edges[k] as int],
    ensures
        sharp_slots(edges, creases, boundary).contains(k),
    decreases edges.len(),
{
    let front = sharp_slots(edges.drop_last(), creases, boundary);
    let whole = sharp_slots(edges, creases, boundary);
    if k == edges.len() - 1 {
        assert(whole[front.len() as int] == k);
    } else {
        lemma_boundary_is_sharp(edges.drop_last(), creases, boundary, k);
        let j = front.index_of(k);
        assert(whole[j] == k);
    }
}

/// A vertex on the boundary is not smooth, so a smooth vertex has two faces or more.
proof fn lemma_smooth_ring<S: Scalar>(mesh: Mesh<S>, adj: Adjacency, options: SchemeOptions, v: u32)
    requires
        limit_ready(mesh, adj),
        v < mesh.vertex_count,
        ring_of(mesh, adj, v) is Ok,
    ensures
        ({
            let ring = ring_of(mesh, adj, v)->Ok_0;
            &&& 0 < ring.diagonals.len() <= u32::MAX
            &&& rule_of(mesh, adj, options, v, ring) == RuleModel::Smooth ==> 2 <= ring.diagonals.len()
        }),
{
    let ring = ring_of(mesh, adj, v)->Ok_0;
    lemma_ring_ok(mesh, adj, options, v);
    ring_shape(mesh, adj, v);
    if ring.boundary {
        rings_are_complete(mesh, adj, v, 0);
        let slots = sharp_slots(ring.edges, mesh.edge_creases@, adj.edge_is_boundary@);
        let last = ring.edges.len() - 1;
        lemma_boundary_is_sharp(ring.edges, mesh.edge_creases@, adj.edge_is_boundary@, 0);
        lemma_boundary_is_sharp(ring.edges, mesh.edge_creases@, adj.edge_is_boundary@, last);
        let i = slots.index_of(0);
        let j = slots.index_of(last);
        assert(i != j);
        assert(slots.len() >= 2);
    }
}

// ---------------------------------------------------------------------------
// Tangents and positions
// ---------------------------------------------------------------------------
/// What the rule of a vertex asks of its ring holds.
proof fn lemma_rule_fits<S: Scalar>(mesh: Mesh<S>, adj: Adjacency, options: SchemeOptions, v: u32)
    requires
        limit_ready(mesh, adj),
        v < mesh.vertex_count,
        ring_of(mesh, adj, v) is Ok,
    ensures
        ({
            let ring = ring_of(mesh, adj, v)->Ok_0;
            match rule_of(mesh, adj, options, v, ring) {
                RuleModel::Smooth => 2 <= ring.diagonals.len() <= u32::MAX,
                RuleModel::Crease(lead, trail) => trail - lead <= u32::MAX && ring.faces.len() - (trail - lead)
                    <= u32::MAX,
                RuleModel::Corner(slots) => forall|i: int|
                    0 <= i < corner_spans(slots, ring.edges.len() as int, ring.boundary).len() ==> {
                        let s = #[trigger] corner_spans(slots, ring.edges.len() as int, ring.boundary)[i];
                        s.1 - s.0 <= u32::MAX
                    },
            }
        }),
{
    let ring = ring_of(mesh, adj, v)->Ok_0;
    lemma_ring_ok(mesh, adj, options, v);
    lemma_smooth_ring(mesh, adj, options, v);
    match rule_of(mesh, adj, options, v, ring) {
        RuleModel::Corner(slots) => {
            let n = ring.edges.len() as int;
            assert forall|i: int| 0 <= i < corner_spans(slots, n, ring.boundary).len() implies ({
                let s = #[trigger] corner_spans(slots, n, ring.boundary)[i];
                s.1 - s.0 <= u32::MAX
            }) by {
                assert(0 <= slots[i] < n);
                if i + 1 < slots.len() {
                    assert(slots[i + 1] < n);
                } else if i > 0 {
                    assert(slots[0] < slots[i]);
                }
            }
        },
        _ => {},
    }
}

/// The tangents of the limit of a vertex sum to nought, its position sums to one,
/// whatever its rule.
pub proof fn limit_models_are_balanced<S: Scalar, W: Wide<S>>(
    val: spec_fn(S) -> real,
    wal: spec_fn(W) -> real,
    mesh: Mesh<S>,
    adj: Adjacency,
    options: SchemeOptions,
    v: u32,
)
    requires
        reads_both::<S, W>(val, wal),
        cosines_balance(wal),
        sines_balance(wal),
        limit_ready(mesh, adj),
        v < mesh.vertex_count,
        ring_of(mesh, adj, v) is Ok,
    ensures
        total(val, limit_model::<S, W>(mesh, adj, options, v).position) == 1 as real,
        total(val, limit_model::<S, W>(mesh, adj, options, v).tangent1) == 0 as real,
        total(val, limit_model::<S, W>(mesh, adj, options, v).tangent2) == 0 as real,
        limit_model::<S, W>(mesh, adj, options, v).position == sector_model::<S, W>(mesh, adj, options, v).position,
{
    let ring = ring_of(mesh, adj, v)->Ok_0;
    let rule = rule_of(mesh, adj, options, v, ring);
    lemma_ring_ok(mesh, adj, options, v);
    lemma_rule_fits(mesh, adj, options, v);
    lemma_smooth_ring(mesh, adj, options, v);
    limit_weights_sum_to_one::<S, W>(val, wal, v, ring, rule);
    match rule {
        RuleModel::Corner(slots) => {
            lemma_direction::<S, W>(val, wal, v, ring.neighbors[0]);
            lemma_direction::<S, W>(val, wal, v, ring.neighbors[1]);
            assert(limit_model::<S, W>(mesh, adj, options, v) == corner_model::<S, W>(v, ring));
        },
        _ => {
            tangent_weights_sum_to_nought::<S, W>(val, wal, v, ring, rule, 0);
            let m = limit_model::<S, W>(mesh, adj, options, v);
            assert(sectors_of::<S, W>(v, ring, rule).tangents[0] == (m.tangent1, m.tangent2));
        },
    }
}

/// Every row of a table sums to `x`.
pub open spec fn rows_sum_to<S>(val: spec_fn(S) -> real, rows: Seq<Seq<(u32, S)>>, x: real) -> bool {
    forall|i: int| 0 <= i < rows.len() ==> total(val, #[trigger] rows[i]) == x
}

/// In the limit stencils of a refinement, unless arithmetic rounds, the weights of
/// every position sum to one and those of every tangent to nought.
pub proof fn limit_tables_are_balanced<S: Scalar, W: Wide<S>>(
    val: spec_fn(S) -> real,
    wal: spec_fn(W) -> real,
    mesh: Mesh<S>,
    adj: Adjacency,
    options: SchemeOptions,
)
    requires
        reads_both::<S, W>(val, wal),
        cosines_balance(wal),
        sines_balance(wal),
        limit_ready(mesh, adj),
        first_ring_fault(mesh, adj, mesh.vertex_count as int) is None,
    ensures
        rows_sum_to(val, positions_of(limit_models::<S, W>(mesh, adj, options)), 1 as real),
        rows_sum_to(val, tangents_1(limit_models::<S, W>(mesh, adj, options)), 0 as real),
        rows_sum_to(val, tangents_2(limit_models::<S, W>(mesh, adj, options)), 0 as real),
{
    let models = limit_models::<S, W>(mesh, adj, options);
    let p = positions_of(models);
    let a = tangents_1(models);
    let b = tangents_2(models);
    let n = mesh.vertex_count as int;
    assert forall|i: int| 0 <= i < p.len() implies total(val, #[trigger] p[i]) == 1 as real by {
        lemma_no_ring_fault(mesh, adj, i, n);
        limit_models_are_balanced::<S, W>(val, wal, mesh, adj, options, i as u32);
    }
    assert forall|i: int| 0 <= i < a.len() implies total(val, #[trigger] a[i]) == 0 as real by {
        lemma_no_ring_fault(mesh, adj, i, n);
        limit_models_are_balanced::<S, W>(val, wal, mesh, adj, options, i as u32);
    }
    assert forall|i: int| 0 <= i < b.len() implies total(val, #[trigger] b[i]) == 0 as real by {
        lemma_no_ring_fault(mesh, adj, i, n);
        limit_models_are_balanced::<S, W>(val, wal, mesh, adj, options, i as u32);
    }
}

proof fn lemma_same_position<S: Scalar, W: Wide<S>>(mesh: Mesh<S>, adj: Adjacency, options: SchemeOptions, v: u32)
    ensures
        limit_model::<S, W>(mesh, adj, options, v).position == sector_model::<S, W>(mesh, adj, options, v).position,
{
}

/// The positions of the sectored tables are those of the plain ones.
pub proof fn sectored_positions_are_the_same<S: Scalar, W: Wide<S>>(
    mesh: Mesh<S>,
    adj: Adjacency,
    options: SchemeOptions,
    k: int,
)
    requires
        0 <= k <= mesh.vertex_count,
    ensures
        sector_tables::<S, W>(mesh, adj, options, k).position == positions_of(
            limit_models::<S, W>(mesh, adj, options),
        ).take(k),
    decreases k,
{
    let all = positions_of(limit_models::<S, W>(mesh, adj, options));
    if k == 0 {
        assert(all.take(0) =~= Seq::<Seq<(u32, S)>>::empty());
    } else {
        sectored_positions_are_the_same::<S, W>(mesh, adj, options, k - 1);
        lemma_same_position::<S, W>(mesh, adj, options, (k - 1) as u32);
        assert(all.take(k) =~= all.take(k - 1).push(all[k - 1]));
    }
}

/// The sectored limit stencils exist where the plain ones do, fail with the same
/// error, and have the same positions.
pub proof fn sectored_limits_match_plain_limits<S: Scalar, W: Wide<S>>(
    result: RefinementResult<S>,
    plain: Result<LimitStencils<S>, KernelError>,
    sectored: Result<SectoredLimitStencils<S>, KernelError>,
)
    requires
        limit_outcome::<S, W>(result, plain),
        sectored_outcome::<S, W>(result, sectored),
    ensures
        plain is Ok <==> sectored is Ok,
        plain is Err ==> plain->Err_0 == sectored->Err_0,
        plain is Ok ==> plain->Ok_0.position.offsets@.len() == sectored->Ok_0.position.offsets@.len()
            && plain->Ok_0.position.indices@ == sectored->Ok_0.position.indices@ && plain->Ok_0.position.weights@
            == sectored->Ok_0.position.weights@,
        plain is Ok && plain->Ok_0.position.indices@.len() <= u32::MAX ==> plain->Ok_0.position@
            == sectored->Ok_0.position@,
{
    let mesh = result.topology;
    let n = mesh.vertex_count as int;
    let all = positions_of(limit_models::<S, W>(mesh, result.adjacency, result.options));
    sectored_positions_are_the_same::<S, W>(mesh, result.adjacency, result.options, n);
    assert(all.take(n) =~= all);
}

/// In the sectored limit stencils the weights of every position sum to one and those
/// of every tangent to nought, unless arithmetic rounds.
pub proof fn sector_tables_are_balanced<S: Scalar, W: Wide<S>>(
    val: spec_fn(S) -> real,
    wal: spec_fn(W) -> real,
    mesh: Mesh<S>,
    adj: Adjacency,
    options: SchemeOptions,
    k: int,
)
    requires
        reads_both::<S, W>(val, wal),
        cosines_balance(wal),
        sines_balance(wal),
        limit_ready(mesh, adj),
        0 <= k <= mesh.vertex_count,
        first_ring_fault(mesh, adj, k) is None,
    ensures
        rows_sum_to(val, sector_tables::<S, W>(mesh, adj, options, k).position, 1 as real),
        rows_sum_to(val, sector_tables::<S, W>(mesh, adj, options, k).tangent1, 0 as real),
        rows_sum_to(val, sector_tables::<S, W>(mesh, adj, options, k).tangent2, 0 as real),
    decreases k,
{
    if k > 0 {
        sector_tables_are_balanced::<S, W>(val, wal, mesh, adj, options, k - 1);
        let v = (k - 1) as u32;
        let ring = ring_of(mesh, adj, v)->Ok_0;
        let rule = rule_of(mesh, adj, options, v, ring);
        let before = sector_tables::<S, W>(mesh, adj, options, k - 1);
        let after = sector_tables::<S, W>(mesh, adj, options, k);
        let m = sector_model::<S, W>(mesh, adj, options, v);
        limit_models_are_balanced::<S, W>(val, wal, mesh, adj, options, v);
        lemma_rule_fits(mesh, adj, options, v);
        assert forall|i: int| 0 <= i < after.position.len() implies total(val, #[trigger] after.position[i])
            == 1 as real by {
            if i < before.position.len() {
                assert(after.position[i] == before.position[i]);
            }
        }
        lemma_sector_rows::<S, W>(mesh, adj, options, k - 1);
        assert forall|i: int| 0 <= i < after.tangent1.len() implies total(val, #[trigger] after.tangent1[i])
            == 0 as real by {
            if i < before.tangent1.len() {
                assert(after.tangent1[i] == before.tangent1[i]);
            } else {
                let j = i - before.tangent1.len();
                tangent_weights_sum_to_nought::<S, W>(val, wal, v, ring, rule, j);
                assert(after.tangent1[i] == m.tangents[j].0);
            }
        }
        assert forall|i: int| 0 <= i < after.tangent2.len() implies total(val, #[trigger] after.tangent2[i])
            == 0 as real by {
            if i < before.tangent2.len() {
                assert(after.tangent2[i] == before.tangent2[i]);
            } else {
                let j = i - before.tangent2.len();
                tangent_weights_sum_to_nought::<S, W>(val, wal, v, ring, rule, j);
                assert(after.tangent2[i] == m.tangents[j].1);
            }
        }
    }
}

// ---------------------------------------------------------------------------
// Corners
// ---------------------------------------------------------------------------
/// Each face is listed at each of its corners.
#[verifier::opaque]
pub open spec fn corners_listed<S>(mesh: Mesh<S>, adj: Adjacency) -> bool {
    forall|i: int|
        0 <= i < mesh.face_vertex_indices@.len() ==> faces_at(
            adj,
            (#[trigger] mesh.face_vertex_indices@[i]) as int,
        ).contains((i / 4) as u32)
}

/// The four corners of each face are different vertices.
pub open spec fn corners_differ<S>(mesh: Mesh<S>) -> bool {
    forall|f: int| 0 <= f < mesh.face_vertex_counts@.len() ==> (#[trigger] quad_at(mesh, f)).no_duplicates()
}

/// Placing the corners of a ring: entries are below `rows` if they were set before or
/// are set now, and every corner at `v` of the first `k` faces is set.
proof fn lemma_corners_placed<S>(
    mesh: Mesh<S>,
    adj: Adjacency,
    v: u32,
    start: Seq<u32>,
    faces: Seq<u32>,
    fan_sector: Seq<u32>,
    first_row: int,
    rows: int,
    k: int,
)
    requires
        quads_ok(mesh, adj),
        start.len() == mesh.face_vertex_indices@.len(),
        0 <= k <= faces.len(),
        fan_sector.len() == faces.len(),
        0 <= first_row,
        rows <= u32::MAX,
        forall|j: int| 0 <= j < faces.len() ==> (#[trigger] faces[j]) < mesh.face_vertex_counts@.len(),
        forall|j: int| 0 <= j < fan_sector.len() ==> first_row + (#[trigger] fan_sector[j]) < rows,
    ensures
        ({
            let placed = corners_placed(mesh, v, start, faces, fan_sector, first_row, k);
            &&& placed.len() == start.len()
            &&& forall|i: int|
                0 <= i < start.len() ==> #[trigger] placed[i] == start[i] || placed[i] < rows
            &&& forall|j: int|
                0 <= j < k && corner_at_vertex(quad_at(mesh, #[trigger] faces[j] as int), v) is Some ==> placed[4
                    * faces[j] + corner_at_vertex(quad_at(mesh, faces[j] as int), v)->Some_0] < rows
        }),
    decreases k,
{
    if k > 0 {
        lemma_corners_placed(mesh, adj, v, start, faces, fan_sector, first_row, rows, k - 1);
        reveal(quads_ok);
        let before = corners_placed(mesh, v, start, faces, fan_sector, first_row, k - 1);
        let placed = corners_placed(mesh, v, start, faces, fan_sector, first_row, k);
        let f = faces[k - 1] as int;
        assert(faces[k - 1] < mesh.face_vertex_counts@.len());
        assert(first_row + fan_sector[k - 1] < rows);
        lemma_corner_at_vertex(quad_at(mesh, f), v);
        assert forall|i: int| 0 <= i < start.len() implies #[trigger] placed[i] == start[i] || placed[i] < rows by {
            assert(before[i] == start[i] || before[i] < rows);
        }
        assert forall|j: int|
            0 <= j < k && corner_at_vertex(quad_at(mesh, #[trigger] faces[j] as int), v) is Some implies placed[4
            * faces[j] + corner_at_vertex(quad_at(mesh, faces[j] as int), v)->Some_0] < rows by {
            let at = 4 * faces[j] + corner_at_vertex(quad_at(mesh, faces[j] as int), v)->Some_0;
            assert(faces[j] < mesh.face_vertex_counts@.len());
            lemma_corner_at_vertex(quad_at(mesh, faces[j] as int), v);
            if j < k - 1 {
                assert(before[at] < rows);
            }
        }
    }
}

/// Where a corner lies in the ring of its vertex.
proof fn lemma_corner_in_ring<S: Scalar>(mesh: Mesh<S>, adj: Adjacency, v: u32, i: int) -> (j: int)
    requires
        quads_ok(mesh, adj),
        corners_listed(mesh, adj),
        corners_differ(mesh),
        ring_of(mesh, adj, v) is Ok,
        0 <= i < mesh.face_vertex_indices@.len(),
        mesh.face_vertex_indices@[i] == v,
    ensures
        ({
            let ring = ring_of(mesh, adj, v)->Ok_0;
            let corner = corner_at_vertex(quad_at(mesh, ring.faces[j] as int), v);
            &&& 0 <= j < ring.faces.len()
            &&& corner is Some
            &&& i == 4 * ring.faces[j] + corner->Some_0
        }),
{
    let ring = ring_of(mesh, adj, v)->Ok_0;
    let f = i / 4;
    let c = i % 4;
    let quad = quad_at(mesh, f);
    assert(faces_at(adj, v as int).contains(f as u32)) by {
        reveal(corners_listed);
    }
    rings_are_complete(mesh, adj, v, f as u32);
    let j = ring.faces.index_of(f as u32);
    reveal(quads_ok);
    assert(v < mesh.vertex_count);
    ring_contents(mesh, adj, v);
    lemma_corner_at_vertex(quad, v);
    assert(ring.faces[j] == f);
    let d = corner_at_vertex(quad, v)->Some_0;
    assert(quad[c] == v && quad[d] == v);
    assert(quad.no_duplicates());
    assert(c == d);
    j
}

/// The sector of each corner whose vertex comes among the first `k` is a row of the
/// tangents.
pub proof fn sectors_are_rows<S: Scalar, W: Wide<S>>(mesh: Mesh<S>, adj: Adjacency, options: SchemeOptions, k: int)
    requires
        limit_ready(mesh, adj),
        corners_listed(mesh, adj),
        corners_differ(mesh),
        0 <= k <= mesh.vertex_count,
        first_ring_fault(mesh, adj, k) is None,
    ensures
        ({
            let t = sector_tables::<S, W>(mesh, adj, options, k);
            &&& t.corner_sector.len() == mesh.face_vertex_indices@.len()
            &&& t.tangent1.len() == t.tangent2.len()
            &&& forall|i: int|
                0 <= i < mesh.face_vertex_indices@.len() && #[trigger] mesh.face_vertex_indices@[i] < k
                    ==> t.corner_sector[i] < t.tangent1.len()
        }),
    decreases k,
{
    if k > 0 {
        sectors_are_rows::<S, W>(mesh, adj, options, k - 1);
        lemma_sector_rows::<S, W>(mesh, adj, options, k);
        lemma_sector_rows::<S, W>(mesh, adj, options, k - 1);
        let v = (k - 1) as u32;
        let ring = ring_of(mesh, adj, v)->Ok_0;
        let before = sector_tables::<S, W>(mesh, adj, options, k - 1);
        let after = sector_tables::<S, W>(mesh, adj, options, k);
        let m = sector_model::<S, W>(mesh, adj, options, v);
        lemma_sector_count::<S, W>(mesh, adj, options, v);
        lemma_ring_ok(mesh, adj, options, v);
        let rows = after.tangent1.len() as int;
        let first_row = before.tangent1.len() as int;
        assert(rows <= u32::MAX);
        assert forall|j: int| 0 <= j < m.fan_sector.len() implies first_row + (#[trigger] m.fan_sector[j]) < rows by {
            assert(m.fan_sector[j] < m.tangents.len());
        }
        let fan = ring.faces.len() as int;
        lemma_corners_placed(mesh, adj, v, before.corner_sector, ring.faces, m.fan_sector, first_row, rows, fan);
        assert forall|i: int|
            0 <= i < mesh.face_vertex_indices@.len() && #[trigger] mesh.face_vertex_indices@[i]
                < k implies after.corner_sector[i] < after.tangent1.len() by {
            if mesh.face_vertex_indices@[i] == v {
                let j = lemma_corner_in_ring(mesh, adj, v, i);
                assert(ring.faces[j] == ring.faces[j]);
            } else {
                assert(before.corner_sector[i] < before.tangent1.len());
            }
        }
    }
}

proof fn lemma_four_each(faces: Seq<Seq<u32>>, f: int)
    requires
        0 <= f <= faces.len(),
        forall|g: int| 0 <= g < faces.len() ==> (#[trigger] faces[g]).len() == 4,
    ensures
        row_start(faces, f) == 4 * f,
    decreases f,
{
    if f > 0 {
        lemma_four_each(faces, f - 1);
        lemma_flat_row(faces, f - 1);
        assert(faces[f - 1].len() == 4);
    } else {
        assert(faces.take(0) =~= Seq::<Seq<u32>>::empty());
    }
}

/// A face is in the list of each of its corners.
proof fn lemma_listed_at(faces: Seq<Seq<u32>>, offsets: Seq<u32>, values: Seq<u32>, n: nat, i: int)
    requires
        forall|g: int| 0 <= g < faces.len() ==> (#[trigger] faces[g]).len() == 4,
        ints(offsets) == row_starts(vertex_face_lists(faces, n)),
        values == flat(vertex_face_lists(faces, n)),
        0 <= i < flat(faces).len(),
        flat(faces)[i] < n,
    ensures
        row_of(offsets, values, flat(faces)[i] as int).contains((i / 4) as u32),
{
    let (f, c) = lemma_flat_locate(faces, i);
    assert(faces[f].len() == 4);
    lemma_four_each(faces, f);
    assert(f == i / 4);
    lemma_corner(faces, f, c);
    let v = flat(faces)[i] as int;
    let lists = vertex_face_lists(faces, n);
    lemma_listed_complete(flat(faces), corner_faces(faces), i);
    assert(lists[v].contains(f as u32));
    lemma_flat_row(lists, v);
    assert(ints(offsets).len() == n + 1 && offsets.len() == n + 1);
    assert(ints(offsets)[v] == row_start(lists, v) && ints(offsets)[v] == offsets[v]);
    assert(ints(offsets)[v + 1] == row_start(lists, v + 1) && ints(offsets)[v + 1] == offsets[v + 1]);
    assert(row_of(offsets, values, v) == lists[v]);
}

/// In the result of a refinement each quad is listed at each of its corners.
pub proof fn refined_quads_are_listed<S: Scalar>(
    options: SchemeOptions,
    boundary_crease: S,
    parent: LevelData<S>,
    child: LevelData<S>,
    result: RefinementResult<S>,
)
    requires
        cc_refines(parent, options, boundary_crease, child),
        same_mesh(result.topology, child.mesh),
        same_adjacency(result.adjacency, child.adjacency),
        quads_refused(result) is None,
    ensures
        corners_listed(result.topology, result.adjacency),
{
    let mesh = result.topology;
    let adj = result.adjacency;
    let faces = child.topo.faces@;
    let n = child.n();
    reveal(corners_listed);
    assert forall|g: int| 0 <= g < faces.len() implies (#[trigger] faces[g]).len() == 4 by {
        assert(mesh.face_vertex_counts@[g] == faces[g].len() as u32);
        crate::csr::lemma_row_within_flat(faces, g);
    }
    assert forall|i: int| 0 <= i < mesh.face_vertex_indices@.len() implies faces_at(
        adj,
        (#[trigger] mesh.face_vertex_indices@[i]) as int,
    ).contains((i / 4) as u32) by {
        assert(flat(faces)[i] < n) by {
            let (f, c) = lemma_flat_locate(faces, i);
            assert(faces[f].len() == 4 && all_below(faces[f], n as int));
        }
        lemma_listed_at(faces, adj.vertex_face_offsets@, adj.vertex_faces@, n, i);
    }
}

/// The sectored limit stencils have a sector for each face corner, and it is a row of
/// both tangent tables.
pub proof fn corner_sectors_are_rows<S: Scalar, W: Wide<S>>(
    result: RefinementResult<S>,
    sectored: Result<SectoredLimitStencils<S>, KernelError>,
)
    requires
        limit_ready(result.topology, result.adjacency),
        corners_listed(result.topology, result.adjacency),
        corners_differ(result.topology),
        sectored_outcome::<S, W>(result, sectored),
        sectored is Ok,
    ensures
        sectored->Ok_0.corner_sector@.len() == result.topology.face_vertex_indices@.len(),
        sectored->Ok_0.tangent1.offsets@.len() == sectored->Ok_0.tangent2.offsets@.len(),
        forall|i: int|
            0 <= i < sectored->Ok_0.corner_sector@.len() ==> (#[trigger] sectored->Ok_0.corner_sector@[i])
                < sectored->Ok_0.tangent1.offsets@.len() - 1,
{
    let mesh = result.topology;
    let n = mesh.vertex_count as int;
    sectors_are_rows::<S, W>(mesh, result.adjacency, result.options, n);
    reveal(quads_ok);
    let sectors = sectored->Ok_0.corner_sector@;
    assert forall|i: int| 0 <= i < sectors.len() implies (#[trigger] sectors[i])
        < sectored->Ok_0.tangent1.offsets@.len() - 1 by {
        assert(mesh.face_vertex_indices@[i] < n);
    }
}

} // verus!
