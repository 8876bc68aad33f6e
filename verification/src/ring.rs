//! The faces and edges around a vertex of a quad mesh, in order.

use crate::connectivity::pairs;
use crate::csr::valid_offsets;
use crate::error::KernelError;
use crate::rules::{corner_at_vertex, corner_of, lemma_corner_at_vertex};
use crate::sharpness::other_end;
use crate::topology::{all_below, Adjacency, Mesh};
use vstd::prelude::*;

verus! {

// ---------------------------------------------------------------------------
// Quad meshes with their adjacency
// ---------------------------------------------------------------------------
/// Offsets of `n` rows into a list of numbers below `bound`.
pub open spec fn rows_ok(offsets: Seq<u32>, values: Seq<u32>, n: nat, bound: int) -> bool {
    &&& offsets.len() == n + 1
    &&& valid_offsets(offsets, values.len())
    &&& all_below(values, bound)
}

/// Row `v` of such a list.
pub open spec fn row_of(offsets: Seq<u32>, values: Seq<u32>, v: int) -> Seq<u32> {
    values.subrange(offsets[v] as int, offsets[v + 1] as int)
}

/// A mesh of quads and its adjacency tables: every index is in range.
#[verifier::opaque]
pub open spec fn quads_ok<S>(mesh: Mesh<S>, adj: Adjacency) -> bool {
    let n = mesh.vertex_count as nat;
    let nf = mesh.face_vertex_counts@.len();
    let ne = mesh.edge_vertices@.len();
    &&& 4 * nf <= u32::MAX
    &&& mesh.face_vertex_indices@.len() == 4 * nf
    &&& all_below(mesh.face_vertex_indices@, n as int)
    &&& adj.face_edges@.len() == 4 * nf
    &&& all_below(adj.face_edges@, ne as int)
    &&& ne <= mesh.edge_creases@.len()
    &&& adj.edge_is_boundary@.len() == ne
    &&& forall|e: int|
        0 <= e < ne ==> (#[trigger] pairs(mesh.edge_vertices@)[e]).0 < n && pairs(mesh.edge_vertices@)[e].1 < n
    &&& rows_ok(adj.vertex_face_offsets@, adj.vertex_faces@, n, nf as int)
    &&& rows_ok(adj.vertex_edge_offsets@, adj.vertex_edges@, n, ne as int)
    &&& adj.vertex_is_boundary@.len() == n
    &&& mesh.vertex_corners@.len() == n
}

/// The faces around vertex `v`.
pub open spec fn faces_at(adj: Adjacency, v: int) -> Seq<u32> {
    row_of(adj.vertex_face_offsets@, adj.vertex_faces@, v)
}

/// The edges around vertex `v`.
pub open spec fn edges_at(adj: Adjacency, v: int) -> Seq<u32> {
    row_of(adj.vertex_edge_offsets@, adj.vertex_edges@, v)
}

/// The corners of quad `f`.
pub open spec fn quad_at<S>(mesh: Mesh<S>, f: int) -> Seq<u32> {
    mesh.face_vertex_indices@.subrange(4 * f, 4 * f + 4)
}

pub(crate) fn row_slice<'a>(
    offsets: &'a [u32],
    values: &'a [u32],
    v: usize,
    Ghost(n): Ghost<nat>,
    Ghost(bound): Ghost<int>,
) -> (r: &'a [u32])
    requires
        rows_ok(offsets@, values@, n, bound),
        v < n,
    ensures
        r@ == row_of(offsets@, values@, v as int),
        all_below(r@, bound),
{
    let count: usize = offsets.len();
    assert(v + 1 < count);
    assert(offsets@[v as int] <= offsets@[v + 1]);
    assert(offsets@[v + 1] <= offsets@[offsets@.len() - 1]);
    let r = vstd::slice::slice_subrange(values, offsets[v] as usize, offsets[v + 1] as usize);
    assert forall|k: int| 0 <= k < r@.len() implies (#[trigger] r@[k]) < bound by {
        assert(r@[k] == values@[offsets@[v as int] + k]);
    }
    r
}

/// The faces around a vertex.
pub(crate) fn faces_slice<'a, S>(mesh: &Mesh<S>, adj: &'a Adjacency, v: usize) -> (r: &'a [u32])
    requires
        quads_ok(*mesh, *adj),
        v < mesh.vertex_count,
    ensures
        r@ == faces_at(*adj, v as int),
        all_below(r@, mesh.face_vertex_counts@.len() as int),
{
    reveal(quads_ok);
    row_slice(
        &adj.vertex_face_offsets,
        &adj.vertex_faces,
        v,
        Ghost(mesh.vertex_count as nat),
        Ghost(mesh.face_vertex_counts@.len() as int),
    )
}

/// The edges around a vertex.
pub(crate) fn edges_slice<'a, S>(mesh: &Mesh<S>, adj: &'a Adjacency, v: usize) -> (r: &'a [u32])
    requires
        quads_ok(*mesh, *adj),
        v < mesh.vertex_count,
    ensures
        r@ == edges_at(*adj, v as int),
        all_below(r@, mesh.edge_vertices@.len() as int),
{
    reveal(quads_ok);
    row_slice(
        &adj.vertex_edge_offsets,
        &adj.vertex_edges,
        v,
        Ghost(mesh.vertex_count as nat),
        Ghost(mesh.edge_vertices@.len() as int),
    )
}

/// The corners of a quad.
pub(crate) fn quad_slice<'a, S>(mesh: &'a Mesh<S>, Ghost(adj): Ghost<Adjacency>, f: usize) -> (r: &'a [u32])
    requires
        quads_ok(*mesh, adj),
        f < mesh.face_vertex_counts@.len(),
    ensures
        r@ == quad_at(*mesh, f as int),
        r@.len() == 4,
        all_below(r@, mesh.vertex_count as int),
{
    reveal(quads_ok);
    let count: usize = mesh.face_vertex_indices.len();
    assert(4 * f + 4 <= count);
    let r = vstd::slice::slice_subrange(mesh.face_vertex_indices.as_slice(), 4 * f, 4 * f + 4);
    assert forall|k: int| 0 <= k < r@.len() implies (#[trigger] r@[k]) < mesh.vertex_count by {
        assert(r@[k] == mesh.face_vertex_indices@[4 * f + k]);
    }
    r
}

/// Edge `k` of a quad.
pub(crate) fn quad_edge<S>(Ghost(mesh): Ghost<Mesh<S>>, adj: &Adjacency, f: usize, k: usize) -> (r: u32)
    requires
        quads_ok(mesh, *adj),
        f < mesh.face_vertex_counts@.len(),
        k < 4,
    ensures
        r == adj.face_edges@[4 * f + k],
        r < mesh.edge_vertices@.len(),
{
    reveal(quads_ok);
    let count: usize = adj.face_edges.len();
    assert(4 * f + k < count);
    assert(adj.face_edges@[4 * f + k] < mesh.edge_vertices@.len());
    adj.face_edges[4 * f + k]
}

pub(crate) fn boundary_edge<S>(Ghost(mesh): Ghost<Mesh<S>>, adj: &Adjacency, e: u32) -> (r: bool)
    requires
        quads_ok(mesh, *adj),
        e < mesh.edge_vertices@.len(),
    ensures
        r == adj.edge_is_boundary@[e as int],
{
    reveal(quads_ok);
    adj.edge_is_boundary[e as usize]
}

// ---------------------------------------------------------------------------
// Fans
// ---------------------------------------------------------------------------
/// A face around a vertex, with the edges before and behind it.
#[derive(Clone, Copy)]
pub struct FanStep {
    pub out_edge: u32,
    pub in_edge: u32,
    pub diagonal: u32,
    pub face: u32,
}

/// Face `f` as seen from vertex `v`.
pub open spec fn fan_step<S>(mesh: Mesh<S>, adj: Adjacency, v: u32, f: u32) -> Option<FanStep> {
    match corner_at_vertex(quad_at(mesh, f as int), v) {
        Some(j) => Some(
            FanStep {
                out_edge: adj.face_edges@[4 * f + j],
                in_edge: adj.face_edges@[4 * f + (j + 3) % 4],
                diagonal: quad_at(mesh, f as int)[(j + 2) % 4],
                face: f,
            },
        ),
        None => None,
    }
}

/// Every face of the list has a corner at `v`.
pub open spec fn fan_complete<S>(mesh: Mesh<S>, adj: Adjacency, v: u32, list: Seq<u32>) -> bool {
    forall|k: int| 0 <= k < list.len() ==> fan_step(mesh, adj, v, #[trigger] list[k]) is Some
}

pub open spec fn fan_steps<S>(mesh: Mesh<S>, adj: Adjacency, v: u32, list: Seq<u32>) -> Seq<FanStep> {
    list.map_values(|f: u32| fan_step(mesh, adj, v, f)->Some_0)
}

/// `i` is the first step not yet taken that leaves through `edge`.
pub open spec fn is_next_step(steps: Seq<FanStep>, taken: Seq<int>, edge: u32, i: int) -> bool {
    &&& 0 <= i < steps.len()
    &&& !taken.contains(i)
    &&& steps[i].out_edge == edge
    &&& forall|j: int| 0 <= j < i && (#[trigger] steps[j]).out_edge == edge ==> taken.contains(j)
}

/// The first step not yet taken that leaves through `edge`.
pub open spec fn next_step(steps: Seq<FanStep>, taken: Seq<int>, edge: u32) -> Option<int> {
    if exists|i: int| is_next_step(steps, taken, edge, i) {
        Some(choose|i: int| is_next_step(steps, taken, edge, i))
    } else {
        None
    }
}

/// The edge where a walk stands.
pub open spec fn fan_front(steps: Seq<FanStep>, start: u32, taken: Seq<int>) -> u32 {
    if taken.len() == 0 {
        start
    } else {
        steps[taken.last()].in_edge
    }
}

/// The first `k` steps of a walk round a vertex; none if it gets stuck.
pub open spec fn fan_walk(steps: Seq<FanStep>, start: u32, k: int) -> Option<Seq<int>>
    decreases k,
{
    if k <= 0 {
        Some(Seq::empty())
    } else {
        match fan_walk(steps, start, k - 1) {
            None => None,
            Some(taken) => match next_step(steps, taken, fan_front(steps, start, taken)) {
                Some(i) => Some(taken.push(i)),
                None => None,
            },
        }
    }
}

/// `i` is the first step that leaves through a boundary edge.
pub open spec fn is_leading_step(steps: Seq<FanStep>, edge_is_boundary: Seq<bool>, i: int) -> bool {
    &&& 0 <= i < steps.len()
    &&& edge_is_boundary[steps[i].out_edge as int]
    &&& forall|j: int| 0 <= j < i ==> !edge_is_boundary[(#[trigger] steps[j]).out_edge as int]
}

/// The edge where the walk round a vertex starts.
pub open spec fn fan_start(steps: Seq<FanStep>, edge_is_boundary: Seq<bool>, boundary: bool) -> Option<u32> {
    if boundary {
        if exists|i: int| is_leading_step(steps, edge_is_boundary, i) {
            Some(steps[choose|i: int| is_leading_step(steps, edge_is_boundary, i)].out_edge)
        } else {
            None
        }
    } else {
        Some(steps[0].out_edge)
    }
}

/// What lies around a vertex.
#[verifier::ext_equal]
pub struct RingModel {
    pub neighbors: Seq<u32>,
    pub edges: Seq<u32>,
    pub diagonals: Seq<u32>,
    pub faces: Seq<u32>,
    pub boundary: bool,
}

/// The edges that a walk passes: one more than the faces on the boundary.
pub open spec fn fan_edges(steps: Seq<FanStep>, start: u32, taken: Seq<int>, boundary: bool) -> Seq<u32> {
    Seq::new(
        if boundary {
            taken.len() + 1
        } else {
            taken.len()
        },
        |k: int|
            if k == 0 {
                start
            } else {
                steps[taken[k - 1]].in_edge
            },
    )
}

/// The ring of a finished walk.
pub open spec fn ring_model<S>(
    mesh: Mesh<S>,
    v: u32,
    steps: Seq<FanStep>,
    start: u32,
    taken: Seq<int>,
    boundary: bool,
) -> RingModel {
    let edges = fan_edges(steps, start, taken, boundary);
    RingModel {
        neighbors: edges.map_values(|e: u32| other_end(pairs(mesh.edge_vertices@)[e as int], v)),
        edges,
        diagonals: taken.map_values(|i: int| steps[i].diagonal),
        faces: taken.map_values(|i: int| steps[i].face),
        boundary,
    }
}

/// The ring of vertex `v`, or why it has none.
pub open spec fn ring_of<S>(mesh: Mesh<S>, adj: Adjacency, v: u32) -> Result<RingModel, &'static str> {
    let list = faces_at(adj, v as int);
    let steps = fan_steps(mesh, adj, v, list);
    let boundary = adj.vertex_is_boundary@[v as int];
    if list.len() == 0 {
        Err("vertex without incident faces has no limit ring")
    } else if !fan_complete(mesh, adj, v, list) {
        Err("vertex-face adjacency references a face without that vertex")
    } else {
        match fan_start(steps, adj.edge_is_boundary@, boundary) {
            None => Err("boundary vertex has no leading boundary edge (inconsistent face winding)"),
            Some(start) => match fan_walk(steps, start, steps.len() as int) {
                None => Err("vertex ring is not a single oriented fan"),
                Some(taken) => {
                    let front = fan_front(steps, start, taken);
                    if !boundary && front != start {
                        Err("interior vertex ring does not close")
                    } else if boundary && !adj.edge_is_boundary@[front as int] {
                        Err("boundary vertex ring does not end on a boundary edge")
                    } else if fan_edges(steps, start, taken, boundary).len() != edges_at(adj, v as int).len() {
                        Err("vertex ring does not cover all incident edges (non-manifold fan)")
                    } else {
                        Ok(ring_model(mesh, v, steps, start, taken, boundary))
                    }
                },
            },
        }
    }
}

/// What lies around a vertex: from `edges[k]` to the next one runs `faces[k]`,
/// whose corner opposite to the vertex is `diagonals[k]`.
pub struct Ring {
    pub neighbors: Vec<u32>,
    pub edges: Vec<u32>,
    pub diagonals: Vec<u32>,
    pub faces: Vec<u32>,
    pub boundary: bool,
}

/// A cyclic list that starts `by` places later.
pub open spec fn rotated_list(list: Seq<u32>, by: int) -> Seq<u32> {
    Seq::new(list.len(), |i: int| list[(i + by) % (list.len() as int)])
}

/// A ring that starts `by` places later.
pub open spec fn rotated_ring(ring: RingModel, by: int) -> RingModel {
    RingModel {
        neighbors: rotated_list(ring.neighbors, by),
        edges: rotated_list(ring.edges, by),
        diagonals: rotated_list(ring.diagonals, by),
        faces: rotated_list(ring.faces, by),
        boundary: false,
    }
}

fn rotate(list: &[u32], by: usize) -> (r: Vec<u32>)
    requires
        by <= list@.len(),
    ensures
        r@ == rotated_list(list@, by as int),
{
    let ghost all = rotated_list(list@, by as int);
    let n: usize = list.len();
    let mut out: Vec<u32> = Vec::new();
    let mut i: usize = 0;
    while i < n
        invariant
            i <= n,
            n == list@.len(),
            by <= n,
            all == rotated_list(list@, by as int),
            out@ == all.take(i as int),
        decreases n - i,
    {
        let at: usize = if by < n - i {
            i + by
        } else {
            by - (n - i)
        };
        proof {
            let m = n as int;
            if by < n - i {
                assert((i + by) % m == i + by) by (nonlinear_arith)
                    requires
                        0 <= i + by < m,
                ;
            } else {
                assert((i + by) % m == i + by - m) by (nonlinear_arith)
                    requires
                        m <= i + by < 2 * m,
                ;
            }
        }
        out.push(list[at]);
        i += 1;
        assert(out@ =~= all.take(i as int));
    }
    assert(out@ =~= all);
    out
}

impl Ring {
    pub open spec fn view(self) -> RingModel {
        RingModel {
            neighbors: self.neighbors@,
            edges: self.edges@,
            diagonals: self.diagonals@,
            faces: self.faces@,
            boundary: self.boundary,
        }
    }

    /// The ring started `by` places later; an interior vertex has no first
    /// place.
    pub fn rotated(&self, by: usize) -> (r: Ring)
        requires
            !self.boundary,
            by <= self.neighbors@.len(),
            by <= self.edges@.len(),
            by <= self.diagonals@.len(),
            by <= self.faces@.len(),
        ensures
            r@ == rotated_ring(self@, by as int),
    {
        Ring {
            neighbors: rotate(&self.neighbors, by),
            edges: rotate(&self.edges, by),
            diagonals: rotate(&self.diagonals, by),
            faces: rotate(&self.faces, by),
            boundary: false,
        }
    }
}

/// Turning a ring on by two amounts is turning it on by their sum.
pub proof fn rotations_add_up(list: Seq<u32>, a: int, b: int)
    requires
        0 <= a,
        0 <= b,
    ensures
        rotated_list(rotated_list(list, a), b) == rotated_list(list, a + b),
{
    let n = list.len() as int;
    assert forall|i: int| 0 <= i < n implies rotated_list(rotated_list(list, a), b)[i] == rotated_list(
        list,
        a + b,
    )[i] by {
        let k = (i + b) % n;
        assert(0 <= k < n) by (nonlinear_arith)
            requires
                n > 0,
                k == (i + b) % n,
        ;
        assert(((i + b) % n + a) % n == (i + (a + b)) % n) by {
            vstd::arithmetic::div_mod::lemma_add_mod_noop(i + b, a, n);
            vstd::arithmetic::div_mod::lemma_mod_twice(i + b, n);
            vstd::arithmetic::div_mod::lemma_add_mod_noop((i + b) % n, a, n);
        }
    }
    assert(rotated_list(rotated_list(list, a), b) =~= rotated_list(list, a + b));
}

/// A full turn changes nothing.
pub proof fn full_turn_is_no_turn(list: Seq<u32>)
    ensures
        rotated_list(list, list.len() as int) == list,
{
    let n = list.len() as int;
    assert forall|i: int| 0 <= i < n implies rotated_list(list, n)[i] == list[i] by {
        assert((i + n) % n == i) by (nonlinear_arith)
            requires
                0 <= i < n,
        ;
    }
    assert(rotated_list(list, n) =~= list);
}

/// The faces around a vertex with their edges.
fn collect_steps<S>(mesh: &Mesh<S>, adj: &Adjacency, v: u32, list: &[u32]) -> (r: Option<Vec<FanStep>>)
    requires
        quads_ok(*mesh, *adj),
        all_below(list@, mesh.face_vertex_counts@.len() as int),
    ensures
        match r {
            Some(steps) => fan_complete(*mesh, *adj, v, list@) && steps@ == fan_steps(*mesh, *adj, v, list@)
                && steps_ok(steps@, mesh.edge_vertices@.len() as int),
            None => !fan_complete(*mesh, *adj, v, list@),
        },
{
    let ghost all = fan_steps(*mesh, *adj, v, list@);
    let mut steps: Vec<FanStep> = Vec::new();
    let mut k: usize = 0;
    while k < list.len()
        invariant
            k <= list.len(),
            quads_ok(*mesh, *adj),
            all_below(list@, mesh.face_vertex_counts@.len() as int),
            all == fan_steps(*mesh, *adj, v, list@),
            forall|j: int| 0 <= j < k ==> fan_step(*mesh, *adj, v, #[trigger] list@[j]) is Some,
            steps@ == all.take(k as int),
            steps_ok(steps@, mesh.edge_vertices@.len() as int),
        decreases list.len() - k,
    {
        assert(list@[k as int] < mesh.face_vertex_counts@.len());
        let f: usize = list[k] as usize;
        let corners: &[u32] = quad_slice(mesh, Ghost(*adj), f);
        match corner_of(corners, v) {
            None => {
                assert(fan_step(*mesh, *adj, v, list@[k as int]) is None);
                return None;
            },
            Some(j) => {
                let before: usize = if j == 0 {
                    3
                } else {
                    j - 1
                };
                let opposite: usize = if j < 2 {
                    j + 2
                } else {
                    j - 2
                };
                assert((j + 3) % 4 == before && (j + 2) % 4 == opposite);
                let step = FanStep {
                    out_edge: quad_edge::<S>(Ghost(*mesh), adj, f, j),
                    in_edge: quad_edge::<S>(Ghost(*mesh), adj, f, before),
                    diagonal: corners[opposite],
                    face: list[k],
                };
                assert(Some(step) == fan_step(*mesh, *adj, v, list@[k as int]));
                steps.push(step);
            },
        }
        k += 1;
        assert(steps@ =~= all.take(k as int));
    }
    assert(all.take(k as int) =~= all);
    Some(steps)
}

/// The edges of the steps are edges of the mesh.
pub open spec fn steps_ok(steps: Seq<FanStep>, edge_count: int) -> bool {
    forall|i: int|
        0 <= i < steps.len() ==> (#[trigger] steps[i]).out_edge < edge_count && steps[i].in_edge < edge_count
}

fn find_start<S>(steps: &[FanStep], adj: &Adjacency, boundary: bool, Ghost(mesh): Ghost<Mesh<S>>) -> (r: Option<u32>)
    requires
        quads_ok(mesh, *adj),
        steps@.len() > 0,
        steps_ok(steps@, mesh.edge_vertices@.len() as int),
    ensures
        r == fan_start(steps@, adj.edge_is_boundary@, boundary),
        r is Some ==> r->Some_0 < mesh.edge_vertices@.len(),
{
    assert(steps@[0].out_edge < mesh.edge_vertices@.len());
    if !boundary {
        return Some(steps[0].out_edge);
    }
    let mut i: usize = 0;
    while i < steps.len()
        invariant
            i <= steps.len(),
            quads_ok(mesh, *adj),
            steps_ok(steps@, mesh.edge_vertices@.len() as int),
            boundary,
            forall|j: int| 0 <= j < i ==> !adj.edge_is_boundary@[(#[trigger] steps@[j]).out_edge as int],
        decreases steps.len() - i,
    {
        assert(steps@[i as int].out_edge < mesh.edge_vertices@.len());
        if boundary_edge::<S>(Ghost(mesh), adj, steps[i].out_edge) {
            proof {
                assert(is_leading_step(steps@, adj.edge_is_boundary@, i as int));
                let c = choose|c: int| is_leading_step(steps@, adj.edge_is_boundary@, c);
                if c < i {
                    assert(!adj.edge_is_boundary@[steps@[c].out_edge as int]);
                }
                if i < c {
                    assert(!adj.edge_is_boundary@[steps@[i as int].out_edge as int]);
                }
            }
            return Some(steps[i].out_edge);
        }
        i += 1;
    }
    proof {
        if exists|c: int| is_leading_step(steps@, adj.edge_is_boundary@, c) {
            let c = choose|c: int| is_leading_step(steps@, adj.edge_is_boundary@, c);
            assert(!adj.edge_is_boundary@[steps@[c].out_edge as int]);
        }
    }
    None
}

/// The first step not yet taken that leaves through an edge.
fn find_next(steps: &[FanStep], used: &[bool], edge: u32, Ghost(taken): Ghost<Seq<int>>) -> (r: Option<usize>)
    requires
        used@.len() == steps@.len(),
        forall|i: int| 0 <= i < used@.len() ==> (#[trigger] used@[i] <==> taken.contains(i)),
    ensures
        match r {
            Some(i) => i < steps@.len() && next_step(steps@, taken, edge) == Some(i as int),
            None => next_step(steps@, taken, edge) is None,
        },
{
    let mut i: usize = 0;
    while i < steps.len()
        invariant
            i <= steps.len(),
            used@.len() == steps@.len(),
            forall|i: int| 0 <= i < used@.len() ==> (#[trigger] used@[i] <==> taken.contains(i)),
            forall|j: int| 0 <= j < i && (#[trigger] steps@[j]).out_edge == edge ==> taken.contains(j),
        decreases steps.len() - i,
    {
        assert(used@[i as int] <==> taken.contains(i as int));
        if !used[i] && steps[i].out_edge == edge {
            proof {
                assert(is_next_step(steps@, taken, edge, i as int));
                let c = choose|c: int| is_next_step(steps@, taken, edge, c);
                if c < i {
                    assert(steps@[c].out_edge == edge);
                }
                if i < c {
                    assert(steps@[i as int].out_edge == edge);
                }
            }
            return Some(i);
        }
        i += 1;
    }
    proof {
        if exists|c: int| is_next_step(steps@, taken, edge, c) {
            let c = choose|c: int| is_next_step(steps@, taken, edge, c);
            assert(steps@[c].out_edge == edge);
        }
    }
    None
}

proof fn lemma_walk_stuck(steps: Seq<FanStep>, start: u32, j: int, k: int)
    requires
        0 <= j <= k,
        fan_walk(steps, start, j) is None,
    ensures
        fan_walk(steps, start, k) is None,
    decreases k,
{
    if j < k {
        lemma_walk_stuck(steps, start, j, k - 1);
    }
}

/// The order of the steps round a vertex.
fn walk_fan(steps: &[FanStep], start: u32) -> (r: Option<Vec<usize>>)
    ensures
        match r {
            Some(order) => fan_walk(steps@, start, steps@.len() as int) == Some(
                order@.map_values(|i: usize| i as int),
            ) && order@.len() == steps@.len() && forall|k: int|
                0 <= k < order@.len() ==> (#[trigger] order@[k]) < steps@.len(),
            None => fan_walk(steps@, start, steps@.len() as int) is None,
        },
{
    let n: usize = steps.len();
    let mut used: Vec<bool> = Vec::new();
    let mut i: usize = 0;
    while i < n
        invariant
            i <= n,
            used@.len() == i,
            forall|j: int| 0 <= j < i ==> !(#[trigger] used@[j]),
        decreases n - i,
    {
        used.push(false);
        i += 1;
    }
    let mut order: Vec<usize> = Vec::new();
    let mut current: u32 = start;
    let mut k: usize = 0;
    let ghost mut taken: Seq<int> = Seq::empty();
    assert(order@.map_values(|i: usize| i as int) =~= taken);
    while k < n
        invariant
            k <= n,
            n == steps@.len(),
            used@.len() == n,
            taken == order@.map_values(|i: usize| i as int),
            order@.len() == k,
            forall|j: int| 0 <= j < k ==> (#[trigger] order@[j]) < n,
            fan_walk(steps@, start, k as int) == Some(taken),
            current == fan_front(steps@, start, taken),
            forall|i: int| 0 <= i < used@.len() ==> (#[trigger] used@[i] <==> taken.contains(i)),
        decreases n - k,
    {
        match find_next(steps, &used, current, Ghost(taken)) {
            None => {
                proof {
                    assert(fan_walk(steps@, start, k + 1) is None);
                    lemma_walk_stuck(steps@, start, k + 1, n as int);
                }
                return None;
            },
            Some(at) => {
                let ghost before = taken;
                let ghost used_before = used@;
                order.push(at);
                used[at] = true;
                current = steps[at].in_edge;
                proof {
                    taken = taken.push(at as int);
                    assert(order@.map_values(|i: usize| i as int) =~= taken);
                    assert forall|i: int| 0 <= i < used@.len() implies (#[trigger] used@[i] <==> taken.contains(i)) by {
                        assert(used_before[i] <==> before.contains(i));
                        if before.contains(i) {
                            let q = before.index_of(i);
                            assert(taken[q] == i);
                        }
                        assert(taken[before.len() as int] == at);
                        if taken.contains(i) && i != at {
                            let q = taken.index_of(i);
                            assert(before[q] == i);
                        }
                    }
                }
            },
        }
        k += 1;
    }
    Some(order)
}

/// The ring of a vertex.
#[verifier::rlimit(60)]
pub fn vertex_ring<S>(vi: u32, mesh: &Mesh<S>, adj: &Adjacency) -> (r: Result<Ring, KernelError>)
    requires
        quads_ok(*mesh, *adj),
        vi < mesh.vertex_count,
    ensures
        match ring_of(*mesh, *adj, vi) {
            Ok(model) => r is Ok && r->Ok_0@ == model,
            Err(text) => r == Err::<Ring, _>(KernelError::InvalidTopology(text)),
        },
{
    let ghost ne = mesh.edge_vertices@.len() as int;
    let list: &[u32] = faces_slice(mesh, adj, vi as usize);
    if list.len() == 0 {
        return Err(KernelError::InvalidTopology("vertex without incident faces has no limit ring"));
    }
    let steps: Vec<FanStep> = match collect_steps(mesh, adj, vi, list) {
        Some(steps) => steps,
        None => {
            return Err(
                KernelError::InvalidTopology("vertex-face adjacency references a face without that vertex"),
            );
        },
    };
    let boundary: bool = is_boundary_vertex(mesh, adj, vi);
    let start: u32 = match find_start::<S>(&steps, adj, boundary, Ghost(*mesh)) {
        Some(start) => start,
        None => {
            return Err(
                KernelError::InvalidTopology(
                    "boundary vertex has no leading boundary edge (inconsistent face winding)",
                ),
            );
        },
    };
    let order: Vec<usize> = match walk_fan(&steps, start) {
        Some(order) => order,
        None => {
            return Err(KernelError::InvalidTopology("vertex ring is not a single oriented fan"));
        },
    };
    let ghost taken = order@.map_values(|i: usize| i as int);
    let n: usize = order.len();
    let front: u32 = steps[order[n - 1]].in_edge;
    assert(front == fan_front(steps@, start, taken));
    assert(steps@[order@[n - 1] as int].in_edge < ne);
    if !boundary && front != start {
        return Err(KernelError::InvalidTopology("interior vertex ring does not close"));
    }
    if boundary && !boundary_edge::<S>(Ghost(*mesh), adj, front) {
        return Err(KernelError::InvalidTopology("boundary vertex ring does not end on a boundary edge"));
    }
    let ghost all = fan_edges(steps@, start, taken, boundary);
    let mut edges: Vec<u32> = Vec::new();
    let mut diagonals: Vec<u32> = Vec::new();
    let mut faces: Vec<u32> = Vec::new();
    edges.push(start);
    let mut k: usize = 0;
    assert(edges@ =~= all.take(1));
    while k < n
        invariant
            k <= n,
            n == order@.len(),
            n == steps@.len(),
            n > 0,
            taken == order@.map_values(|i: usize| i as int),
            forall|k: int| 0 <= k < n ==> (#[trigger] order@[k]) < n,
            all == fan_edges(steps@, start, taken, boundary),
            edges@ == all.take(
                if boundary || k < n {
                    k + 1
                } else {
                    n as int
                },
            ),
            diagonals@ == taken.take(k as int).map_values(|i: int| steps@[i].diagonal),
            faces@ == taken.take(k as int).map_values(|i: int| steps@[i].face),
        decreases n - k,
    {
        assert(order@[k as int] < n);
        let step: FanStep = steps[order[k]];
        assert(taken[k as int] == order@[k as int]);
        diagonals.push(step.diagonal);
        faces.push(step.face);
        if boundary || k + 1 < n {
            edges.push(step.in_edge);
        }
        k += 1;
        assert(edges@ =~= all.take(
            if boundary || k < n {
                k + 1
            } else {
                n as int
            },
        ));
        assert(diagonals@ =~= taken.take(k as int).map_values(|i: int| steps@[i].diagonal));
        assert(faces@ =~= taken.take(k as int).map_values(|i: int| steps@[i].face));
    }
    assert(taken.take(k as int) =~= taken);
    assert(edges@ =~= all);
    if edges.len() != edges_slice(mesh, adj, vi as usize).len() {
        return Err(
            KernelError::InvalidTopology("vertex ring does not cover all incident edges (non-manifold fan)"),
        );
    }
    proof {
        assert forall|k: int| 0 <= k < edges@.len() implies (#[trigger] edges@[k]) < ne by {
            if k > 0 {
                assert(order@[k - 1] < n);
                assert(steps@[order@[k - 1] as int].in_edge < ne);
            }
        }
    }
    let neighbors: Vec<u32> = ends_along(mesh, &edges, vi);
    let ring = Ring { neighbors, edges, diagonals, faces, boundary };
    assert(ring@ == ring_model(*mesh, vi, steps@, start, taken, boundary));
    Ok(ring)
}

fn is_boundary_vertex<S>(mesh: &Mesh<S>, adj: &Adjacency, v: u32) -> (r: bool)
    requires
        quads_ok(*mesh, *adj),
        v < mesh.vertex_count,
    ensures
        r == adj.vertex_is_boundary@[v as int],
{
    reveal(quads_ok);
    adj.vertex_is_boundary[v as usize]
}

fn ends_along<S>(mesh: &Mesh<S>, edges: &[u32], v: u32) -> (r: Vec<u32>)
    requires
        all_below(edges@, mesh.edge_vertices@.len() as int),
    ensures
        r@ == edges@.map_values(|e: u32| other_end(pairs(mesh.edge_vertices@)[e as int], v)),
{
    let ghost pe = pairs(mesh.edge_vertices@);
    let ghost all = edges@.map_values(|e: u32| other_end(pe[e as int], v));
    let mut out: Vec<u32> = Vec::new();
    let mut k: usize = 0;
    while k < edges.len()
        invariant
            k <= edges.len(),
            all_below(edges@, mesh.edge_vertices@.len() as int),
            pe == pairs(mesh.edge_vertices@),
            all == edges@.map_values(|e: u32| other_end(pe[e as int], v)),
            out@ == all.take(k as int),
        decreases edges.len() - k,
    {
        assert(edges@[k as int] < mesh.edge_vertices@.len());
        let e: usize = edges[k] as usize;
        let a: u32 = mesh.edge_vertices[e][0];
        let b: u32 = mesh.edge_vertices[e][1];
        assert(pe[e as int] == (a, b));
        out.push(
            if a == v {
                b
            } else {
                a
            },
        );
        k += 1;
        assert(out@ =~= all.take(k as int));
    }
    assert(out@ =~= all);
    out
}

/// A ring has as many diagonals as faces, and one edge per face, or one more on
/// the boundary.
pub proof fn ring_shape<S>(mesh: Mesh<S>, adj: Adjacency, v: u32)
    requires
        ring_of(mesh, adj, v) is Ok,
    ensures
        ({
            let ring = ring_of(mesh, adj, v)->Ok_0;
            &&& ring.faces.len() > 0
            &&& ring.faces.len() == faces_at(adj, v as int).len()
            &&& ring.diagonals.len() == ring.faces.len()
            &&& ring.neighbors.len() == ring.edges.len()
            &&& ring.edges.len() == if ring.boundary {
                ring.faces.len() + 1
            } else {
                ring.faces.len()
            }
            &&& ring.boundary == adj.vertex_is_boundary@[v as int]
        }),
{
    let list = faces_at(adj, v as int);
    let steps = fan_steps(mesh, adj, v, list);
    let boundary = adj.vertex_is_boundary@[v as int];
    let start = fan_start(steps, adj.edge_is_boundary@, boundary)->Some_0;
    lemma_walk_len(steps, start, steps.len() as int);
}

/// The steps of a walk are steps.
pub(crate) proof fn lemma_walk_range(steps: Seq<FanStep>, start: u32, k: int)
    requires
        0 <= k,
    ensures
        fan_walk(steps, start, k) is Some ==> forall|j: int|
            0 <= j < fan_walk(steps, start, k)->Some_0.len() ==> 0 <= #[trigger] fan_walk(steps, start, k)->Some_0[j]
                < steps.len(),
    decreases k,
{
    if k > 0 {
        lemma_walk_range(steps, start, k - 1);
        if fan_walk(steps, start, k) is Some {
            let taken = fan_walk(steps, start, k - 1)->Some_0;
            let edge = fan_front(steps, start, taken);
            let i = choose|i: int| is_next_step(steps, taken, edge, i);
            assert(is_next_step(steps, taken, edge, i));
            let whole = fan_walk(steps, start, k)->Some_0;
            assert(whole == taken.push(i));
            assert forall|j: int| 0 <= j < whole.len() implies 0 <= #[trigger] whole[j] < steps.len() by {
                if j < taken.len() {
                    assert(whole[j] == taken[j]);
                }
            }
        }
    }
}

/// The elements of a ring are elements of the mesh: each face has a corner at
/// the vertex, and the ring of a boundary vertex ends on a boundary edge.
pub proof fn ring_contents<S>(mesh: Mesh<S>, adj: Adjacency, v: u32)
    requires
        quads_ok(mesh, adj),
        v < mesh.vertex_count,
        ring_of(mesh, adj, v) is Ok,
    ensures
        ({
            let ring = ring_of(mesh, adj, v)->Ok_0;
            &&& all_below(ring.edges, mesh.edge_vertices@.len() as int)
            &&& all_below(ring.faces, mesh.face_vertex_counts@.len() as int)
            &&& all_below(ring.neighbors, mesh.vertex_count as int)
            &&& all_below(ring.diagonals, mesh.vertex_count as int)
            &&& forall|k: int|
                0 <= k < ring.faces.len() ==> corner_at_vertex(quad_at(mesh, #[trigger] ring.faces[k] as int), v) is Some
            &&& ring.boundary ==> adj.edge_is_boundary@[ring.edges.last() as int]
            &&& ring.edges.len() == edges_at(adj, v as int).len()
        }),
{
    reveal(quads_ok);
    let list = faces_at(adj, v as int);
    let steps = fan_steps(mesh, adj, v, list);
    let boundary = adj.vertex_is_boundary@[v as int];
    let start = fan_start(steps, adj.edge_is_boundary@, boundary)->Some_0;
    let taken = fan_walk(steps, start, steps.len() as int)->Some_0;
    let ring = ring_of(mesh, adj, v)->Ok_0;
    let ne = mesh.edge_vertices@.len() as int;
    let nf = mesh.face_vertex_counts@.len() as int;
    lemma_walk_len(steps, start, steps.len() as int);
    lemma_walk_range(steps, start, steps.len() as int);
    let offsets = adj.vertex_face_offsets@;
    assert(offsets[v as int] <= offsets[v + 1]);
    assert(offsets[v + 1] <= offsets[offsets.len() - 1]);
    assert forall|k: int| 0 <= k < list.len() implies (#[trigger] list[k]) < nf by {
        assert(list[k] == adj.vertex_faces@[offsets[v as int] + k]);
    }
    assert forall|i: int| 0 <= i < steps.len() implies (#[trigger] steps[i]).out_edge < ne && steps[i].in_edge < ne
        && steps[i].diagonal < mesh.vertex_count && steps[i].face == list[i] && corner_at_vertex(
        quad_at(mesh, list[i] as int),
        v,
    ) is Some by {
        let f = list[i];
        assert(fan_step(mesh, adj, v, f) is Some);
        assert(f < nf);
        lemma_corner_at_vertex(quad_at(mesh, f as int), v);
        let j = corner_at_vertex(quad_at(mesh, f as int), v)->Some_0;
        assert(adj.face_edges@[4 * f + j] < ne);
        assert(adj.face_edges@[4 * f + (j + 3) % 4] < ne);
        assert(quad_at(mesh, f as int)[(j + 2) % 4] == mesh.face_vertex_indices@[4 * f + (j + 2) % 4]);
    }
    assert(start < ne) by {
        if boundary {
            let i = choose|i: int| is_leading_step(steps, adj.edge_is_boundary@, i);
            assert(is_leading_step(steps, adj.edge_is_boundary@, i));
            assert(steps[i].out_edge < ne);
        } else {
            assert(steps[0].out_edge < ne);
        }
    }
    assert forall|k: int| 0 <= k < ring.edges.len() implies (#[trigger] ring.edges[k]) < ne by {
        if k > 0 {
            assert(0 <= taken[k - 1] < steps.len());
            assert(steps[taken[k - 1]].in_edge < ne);
        }
    }
    assert forall|k: int| 0 <= k < ring.neighbors.len() implies (#[trigger] ring.neighbors[k]) < mesh.vertex_count by {
        assert(ring.edges[k] < ne);
        let e = pairs(mesh.edge_vertices@)[ring.edges[k] as int];
        assert(e.0 < mesh.vertex_count && e.1 < mesh.vertex_count);
    }
    assert forall|k: int| 0 <= k < ring.faces.len() implies (#[trigger] ring.faces[k]) < nf && ring.diagonals[k]
        < mesh.vertex_count && corner_at_vertex(quad_at(mesh, ring.faces[k] as int), v) is Some by {
        assert(0 <= taken[k] < steps.len());
        assert(steps[taken[k]].face == list[taken[k]]);
        assert(list[taken[k]] < nf);
    }
    assert forall|k: int| 0 <= k < ring.diagonals.len() implies (#[trigger] ring.diagonals[k]) < mesh.vertex_count by {
        assert(ring.faces[k] < nf);
    }
}

pub(crate) proof fn lemma_walk_len(steps: Seq<FanStep>, start: u32, k: int)
    requires
        0 <= k,
    ensures
        fan_walk(steps, start, k) is Some ==> fan_walk(steps, start, k)->Some_0.len() == k,
    decreases k,
{
    if k > 0 {
        lemma_walk_len(steps, start, k - 1);
    }
}

} // verus!
