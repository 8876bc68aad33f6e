//! Regular quads of a refined Catmull-Clark mesh as bicubic B-spline patches.

use crate::error::KernelError;
use crate::limit::{find_place, is_place, place_of, quads_refused, validate_refined_quads};
use crate::output::RefinementResult;
use crate::ring::{
    edges_at, edges_slice, quad_at, quad_slice, quads_ok, ring_contents, ring_of, ring_shape, rotated_ring,
    vertex_ring, Ring, RingModel,
};
use crate::scalar::{one, one_of, zero, zero_of, Scalar, Wide};
use crate::topology::{all_below, Adjacency, Mesh};
use vstd::prelude::*;

verus! {

/// Whether a quad is a patch.
#[derive(Debug, Clone, Copy, PartialEq, Eq, Hash, Structural)]
pub enum QuadClass {
    /// The quad and all around it is regular and smooth: it is one patch.
    Regular,
    /// The quad touches an extraordinary, sharp or boundary vertex.
    Feature,
}

/// The regular quads of a refined mesh with their control points.
#[derive(Debug, Clone, PartialEq)]
pub struct PatchTable {
    /// Sixteen control points per patch, in rows of four.
    pub control_points: Vec<[u32; 16]>,
    /// The quad of each patch.
    pub faces: Vec<u32>,
    /// The patch of each quad, or the largest number for a quad without one.
    pub face_patches: Vec<u32>,
}

// ---------------------------------------------------------------------------
// Regular quads
// ---------------------------------------------------------------------------
/// A vertex inside of the mesh with four smooth edges, and no corner itself.
pub open spec fn regular_vertex<S: Scalar>(mesh: Mesh<S>, adj: Adjacency, v: int) -> bool {
    let list = edges_at(adj, v);
    &&& !adj.vertex_is_boundary@[v]
    &&& list.len() == 4
    &&& S::at_most_of(mesh.vertex_corners@[v], zero_of())
    &&& forall|k: int|
        0 <= k < list.len() ==> S::at_most_of(mesh.edge_creases@[#[trigger] list[k] as int], zero_of())
            && !adj.edge_is_boundary@[list[k] as int]
}

/// A quad whose corners are all regular.
pub open spec fn regular_quad<S: Scalar>(mesh: Mesh<S>, adj: Adjacency, f: int) -> bool {
    forall|k: int| 0 <= k < 4 ==> regular_vertex(mesh, adj, #[trigger] quad_at(mesh, f)[k] as int)
}

/// The regular quads among the first `k`.
pub open spec fn regular_quads<S: Scalar>(mesh: Mesh<S>, adj: Adjacency, k: int) -> Seq<u32>
    decreases k,
{
    if k <= 0 {
        Seq::empty()
    } else {
        let before = regular_quads(mesh, adj, k - 1);
        if regular_quad(mesh, adj, k - 1) {
            before.push((k - 1) as u32)
        } else {
            before
        }
    }
}

/// The patch of each of the first `k` quads; `u32::MAX` for a feature quad.
pub open spec fn patch_numbers<S: Scalar>(mesh: Mesh<S>, adj: Adjacency, k: int) -> Seq<u32> {
    Seq::new(
        k as nat,
        |f: int|
            if regular_quad(mesh, adj, f) {
                regular_quads(mesh, adj, f).len() as u32
            } else {
                u32::MAX
            },
    )
}

// ---------------------------------------------------------------------------
// Control points
// ---------------------------------------------------------------------------
/// Place of column `i`, row `j` in the grid of control points.
pub open spec fn grid_at(i: int, j: int) -> int {
    4 * j + i
}

/// Place of column `i`, row `j` in the grid of control points.
pub fn grid(i: usize, j: usize) -> (r: usize)
    requires
        i < 4,
        j < 4,
    ensures
        r == grid_at(i as int, j as int),
        r < 16,
{
    4 * j + i
}

/// Where the outer part of the ring of corner `k` lies in the grid: the third
/// and fourth neighbour, then the second to fourth diagonal.
pub open spec fn ring_grid(k: int) -> Seq<int> {
    if k == 0 {
        seq![grid_at(0, 1), grid_at(1, 0), grid_at(0, 2), grid_at(0, 0), grid_at(2, 0)]
    } else if k == 1 {
        seq![grid_at(2, 0), grid_at(3, 1), grid_at(1, 0), grid_at(3, 0), grid_at(3, 2)]
    } else if k == 2 {
        seq![grid_at(3, 2), grid_at(2, 3), grid_at(3, 1), grid_at(3, 3), grid_at(1, 3)]
    } else {
        seq![grid_at(1, 3), grid_at(0, 2), grid_at(2, 3), grid_at(0, 3), grid_at(0, 1)]
    }
}

fn ring_slots(k: usize) -> (r: [usize; 5])
    requires
        k < 4,
    ensures
        forall|i: int| 0 <= i < 5 ==> (#[trigger] r@[i]) == ring_grid(k as int)[i] && r@[i] < 16,
{
    if k == 0 {
        [4, 1, 8, 0, 2]
    } else if k == 1 {
        [2, 7, 1, 3, 11]
    } else if k == 2 {
        [11, 14, 7, 15, 13]
    } else {
        [13, 8, 14, 12, 4]
    }
}

/// The grid with the corners of the quad in the middle.
pub open spec fn grid_core(corners: Seq<u32>) -> Seq<u32> {
    Seq::new(16, |i: int| u32::MAX).update(grid_at(1, 1), corners[0]).update(grid_at(2, 1), corners[1]).update(
        grid_at(2, 2),
        corners[2],
    ).update(grid_at(1, 2), corners[3])
}

/// The grid with the ring of corner `k` put in, started at the quad itself.
pub open spec fn grid_with_ring(points: Seq<u32>, k: int, ring: RingModel) -> Seq<u32> {
    let at = ring_grid(k);
    points.update(at[0], ring.neighbors[2]).update(at[1], ring.neighbors[3]).update(
        at[2],
        ring.diagonals[1],
    ).update(at[3], ring.diagonals[2]).update(at[4], ring.diagonals[3])
}

/// The grid of quad `f` with the rings of its first `k` corners, or why there
/// is none.
pub open spec fn grid_of<S: Scalar>(mesh: Mesh<S>, adj: Adjacency, f: int, k: int) -> Result<Seq<u32>, &'static str>
    decreases k,
{
    let corners = quad_at(mesh, f);
    if k <= 0 {
        Ok(grid_core(corners))
    } else {
        match grid_of(mesh, adj, f, k - 1) {
            Err(text) => Err(text),
            Ok(points) => match ring_of(mesh, adj, corners[k - 1]) {
                Err(text) => Err(text),
                Ok(ring) => match place_of(ring.faces, f as u32) {
                    None => Err("quad corner ring does not contain the quad"),
                    Some(slot) => Ok(grid_with_ring(points, k - 1, rotated_ring(ring, slot))),
                },
            },
        }
    }
}

/// The grids of the regular quads among the first `k`, or the first fault.
pub open spec fn grids_of<S: Scalar>(mesh: Mesh<S>, adj: Adjacency, k: int) -> Result<Seq<Seq<u32>>, &'static str>
    decreases k,
{
    if k <= 0 {
        Ok(Seq::empty())
    } else {
        match grids_of(mesh, adj, k - 1) {
            Err(text) => Err(text),
            Ok(grids) => if regular_quad(mesh, adj, k - 1) {
                match grid_of(mesh, adj, k - 1, 4) {
                    Ok(points) => Ok(grids.push(points)),
                    Err(text) => Err(text),
                }
            } else {
                Ok(grids)
            },
        }
    }
}

proof fn lemma_grid_fault<S: Scalar>(mesh: Mesh<S>, adj: Adjacency, f: int, j: int, k: int)
    requires
        0 <= j <= k,
        grid_of(mesh, adj, f, j) is Err,
    ensures
        grid_of(mesh, adj, f, k) == grid_of(mesh, adj, f, j),
    decreases k,
{
    if j < k {
        lemma_grid_fault(mesh, adj, f, j, k - 1);
    }
}

proof fn lemma_grids_fault<S: Scalar>(mesh: Mesh<S>, adj: Adjacency, j: int, k: int)
    requires
        0 <= j <= k,
        grids_of(mesh, adj, j) is Err,
    ensures
        grids_of(mesh, adj, k) == grids_of(mesh, adj, j),
    decreases k,
{
    if j < k {
        lemma_grids_fault(mesh, adj, j, k - 1);
    }
}

proof fn lemma_grids_len<S: Scalar>(mesh: Mesh<S>, adj: Adjacency, k: int)
    requires
        0 <= k,
    ensures
        regular_quads(mesh, adj, k).len() <= k,
        grids_of(mesh, adj, k) is Ok ==> grids_of(mesh, adj, k)->Ok_0.len() == regular_quads(mesh, adj, k).len(),
    decreases k,
{
    if k > 0 {
        lemma_grids_len(mesh, adj, k - 1);
    }
}

pub open spec fn grid_views(points: Seq<[u32; 16]>) -> Seq<Seq<u32>> {
    points.map_values(|p: [u32; 16]| p@)
}

impl PatchTable {
    pub open spec fn patch_list(self) -> Seq<u32> {
        self.face_patches@
    }

    pub open spec fn face_list(self) -> Seq<u32> {
        self.faces@
    }

    /// The control points of each patch.
    pub open spec fn grid_list(self) -> Seq<Seq<u32>> {
        grid_views(self.control_points@)
    }

    /// The table of a refined mesh.
    pub open spec fn of<S: Scalar>(self, mesh: Mesh<S>, adj: Adjacency) -> bool {
        let nf = mesh.face_vertex_counts@.len() as int;
        &&& self.face_list() == regular_quads(mesh, adj, nf)
        &&& self.patch_list() == patch_numbers(mesh, adj, nf)
        &&& grids_of(mesh, adj, nf) == Ok::<_, &'static str>(self.grid_list())
    }

    /// Number of patches.
    pub fn len(&self) -> (r: usize)
        ensures
            r == self.grid_list().len(),
    {
        self.control_points.len()
    }

    pub fn is_empty(&self) -> (r: bool)
        ensures
            r == (self.grid_list().len() == 0),
    {
        self.control_points.len() == 0
    }

    /// The control points of a patch, row by row.
    pub(crate) fn control_points(&self, patch: usize) -> (r: &[u32; 16])
        requires
            patch < self.grid_list().len(),
        ensures
            r@ == self.grid_list()[patch as int],
    {
        &self.control_points[patch]
    }

    /// Whether a quad is a patch.
    pub fn quad_class(&self, face: u32) -> (r: QuadClass)
        requires
            face < self.patch_list().len(),
        ensures
            r == (if self.patch_list()[face as int] == u32::MAX {
                QuadClass::Feature
            } else {
                QuadClass::Regular
            }),
    {
        if self.face_patches[face as usize] == u32::MAX {
            QuadClass::Feature
        } else {
            QuadClass::Regular
        }
    }

    /// The patch of a quad.
    pub fn face_patch(&self, face: u32) -> (r: Option<u32>)
        requires
            face < self.patch_list().len(),
        ensures
            r == (if self.patch_list()[face as int] == u32::MAX {
                None
            } else {
                Some(self.patch_list()[face as int])
            }),
    {
        let patch: u32 = self.face_patches[face as usize];
        if patch == u32::MAX {
            None
        } else {
            Some(patch)
        }
    }
}

/// In a patch table the quad of the patch of a regular quad is that quad, and a
/// quad without a patch is a feature quad.
pub proof fn patches_and_quads_agree<S: Scalar>(mesh: Mesh<S>, adj: Adjacency, f: int)
    requires
        quads_ok(mesh, adj),
        0 <= f < mesh.face_vertex_counts@.len(),
    ensures
        ({
            let nf = mesh.face_vertex_counts@.len() as int;
            let patch = patch_numbers(mesh, adj, nf)[f];
            &&& (patch != u32::MAX <==> regular_quad(mesh, adj, f))
            &&& patch != u32::MAX ==> patch < regular_quads(mesh, adj, nf).len() && regular_quads(mesh, adj, nf)[patch as int]
                == f
        }),
{
    reveal(quads_ok);
    let nf = mesh.face_vertex_counts@.len() as int;
    lemma_grids_len(mesh, adj, f);
    if regular_quad(mesh, adj, f) {
        lemma_regular_prefix(mesh, adj, f + 1, nf);
        assert(regular_quads(mesh, adj, f + 1).last() == f);
    }
}

proof fn lemma_regular_prefix<S: Scalar>(mesh: Mesh<S>, adj: Adjacency, j: int, k: int)
    requires
        0 <= j <= k,
    ensures
        regular_quads(mesh, adj, j).len() <= regular_quads(mesh, adj, k).len(),
        forall|i: int|
            0 <= i < regular_quads(mesh, adj, j).len() ==> #[trigger] regular_quads(mesh, adj, j)[i]
                == regular_quads(mesh, adj, k)[i],
    decreases k,
{
    if j < k {
        lemma_regular_prefix(mesh, adj, j, k - 1);
        let a = regular_quads(mesh, adj, j);
        let b = regular_quads(mesh, adj, k - 1);
        assert forall|i: int| 0 <= i < a.len() implies #[trigger] a[i] == regular_quads(mesh, adj, k)[i] by {
            assert(a[i] == b[i]);
        }
    }
}

/// The control points of a patch are vertices: the rings of the four corners
/// fill the whole grid.
#[verifier::rlimit(80)]
pub proof fn control_points_are_vertices<S: Scalar>(mesh: Mesh<S>, adj: Adjacency, f: int)
    requires
        quads_ok(mesh, adj),
        0 <= f < mesh.face_vertex_counts@.len(),
        regular_quad(mesh, adj, f),
        grid_of(mesh, adj, f, 4) is Ok,
    ensures
        grid_of(mesh, adj, f, 4)->Ok_0.len() == 16,
        all_below(grid_of(mesh, adj, f, 4)->Ok_0, mesh.vertex_count as int),
{
    let n = mesh.vertex_count as int;
    let corners = quad_at(mesh, f);
    assert(corners.len() == 4 && all_below(corners, n)) by {
        reveal(quads_ok);
        assert forall|k: int| 0 <= k < corners.len() implies (#[trigger] corners[k]) < n by {
            assert(corners[k] == mesh.face_vertex_indices@[4 * f + k]);
        }
    }
    assert(corners[0] < n && corners[1] < n && corners[2] < n && corners[3] < n);
    lemma_grid_prefix(mesh, adj, f);
    let g0 = grid_of(mesh, adj, f, 0)->Ok_0;
    let g1 = grid_of(mesh, adj, f, 1)->Ok_0;
    let g2 = grid_of(mesh, adj, f, 2)->Ok_0;
    let g3 = grid_of(mesh, adj, f, 3)->Ok_0;
    let g4 = grid_of(mesh, adj, f, 4)->Ok_0;
    assert(g0 == grid_core(corners));
    lemma_grid_ring(mesh, adj, f, 0);
    lemma_grid_ring(mesh, adj, f, 1);
    lemma_grid_ring(mesh, adj, f, 2);
    lemma_grid_ring(mesh, adj, f, 3);
    assert forall|j: int| 0 <= j < 16 implies (#[trigger] g4[j]) < n by {
        lemma_slot_filled(j);
        if on_ring_grid(3, j) {
        } else if on_ring_grid(2, j) {
            assert(g3[j] < n);
        } else if on_ring_grid(1, j) {
            assert(g2[j] < n);
            assert(g3[j] < n);
        } else if on_ring_grid(0, j) {
            assert(g1[j] < n);
            assert(g2[j] < n);
            assert(g3[j] < n);
        } else {
            assert(g0[j] < n);
            assert(g1[j] < n);
            assert(g2[j] < n);
            assert(g3[j] < n);
        }
    }
}

/// The patch of a regular quad holds the control points of the quad.
pub proof fn patch_of_quad<S: Scalar>(mesh: Mesh<S>, adj: Adjacency, f: int)
    requires
        quads_ok(mesh, adj),
        0 <= f < mesh.face_vertex_counts@.len(),
        regular_quad(mesh, adj, f),
        grids_of(mesh, adj, mesh.face_vertex_counts@.len() as int) is Ok,
    ensures
        ({
            let nf = mesh.face_vertex_counts@.len() as int;
            let patch = patch_numbers(mesh, adj, nf)[f];
            let grids = grids_of(mesh, adj, nf)->Ok_0;
            &&& patch < grids.len()
            &&& grid_of(mesh, adj, f, 4) == Ok::<_, &'static str>(grids[patch as int])
            &&& grids[patch as int].len() == 16
            &&& all_below(grids[patch as int], mesh.vertex_count as int)
        }),
{
    let nf = mesh.face_vertex_counts@.len() as int;
    patches_and_quads_agree(mesh, adj, f);
    lemma_grids_prefix(mesh, adj, f + 1, nf);
    lemma_grids_len(mesh, adj, f);
    lemma_grids_len(mesh, adj, f + 1);
    lemma_grids_len(mesh, adj, nf);
    assert(regular_quads(mesh, adj, f).len() <= f);
    assert(f <= u32::MAX) by {
        reveal(quads_ok);
    }
    assert(grids_of(mesh, adj, f + 1) is Ok);
    assert(grids_of(mesh, adj, f) is Ok);
    assert(grid_of(mesh, adj, f, 4) is Ok);
    control_points_are_vertices(mesh, adj, f);
    let at = regular_quads(mesh, adj, f).len() as int;
    let part = grids_of(mesh, adj, f + 1)->Ok_0;
    assert(patch_numbers(mesh, adj, nf)[f] == at as u32);
    assert(part == grids_of(mesh, adj, f)->Ok_0.push(grid_of(mesh, adj, f, 4)->Ok_0));
    assert(part[at] == grid_of(mesh, adj, f, 4)->Ok_0);
    assert(grids_of(mesh, adj, nf)->Ok_0[at] == part[at]);
}

proof fn lemma_grids_prefix<S: Scalar>(mesh: Mesh<S>, adj: Adjacency, j: int, k: int)
    requires
        0 <= j <= k,
        grids_of(mesh, adj, k) is Ok,
    ensures
        grids_of(mesh, adj, j) is Ok,
        grids_of(mesh, adj, j)->Ok_0.len() <= grids_of(mesh, adj, k)->Ok_0.len(),
        forall|i: int|
            0 <= i < grids_of(mesh, adj, j)->Ok_0.len() ==> #[trigger] grids_of(mesh, adj, j)->Ok_0[i] == grids_of(
                mesh,
                adj,
                k,
            )->Ok_0[i],
    decreases k,
{
    if j < k {
        lemma_grids_prefix(mesh, adj, j, k - 1);
        let a = grids_of(mesh, adj, j)->Ok_0;
        let b = grids_of(mesh, adj, k - 1)->Ok_0;
        assert forall|i: int| 0 <= i < a.len() implies #[trigger] a[i] == grids_of(mesh, adj, k)->Ok_0[i] by {
            assert(a[i] == b[i]);
        }
    }
}

/// Place `j` is filled from the ring of corner `k`.
spec fn on_ring_grid(k: int, j: int) -> bool {
    let at = ring_grid(k);
    j == at[0] || j == at[1] || j == at[2] || j == at[3] || j == at[4]
}

/// Every place of the grid is filled.
proof fn lemma_slot_filled(j: int)
    requires
        0 <= j < 16,
    ensures
        on_ring_grid(0, j) || on_ring_grid(1, j) || on_ring_grid(2, j) || on_ring_grid(3, j) || j == 5 || j == 6
            || j == 9 || j == 10,
{
}

proof fn lemma_grid_prefix<S: Scalar>(mesh: Mesh<S>, adj: Adjacency, f: int)
    requires
        grid_of(mesh, adj, f, 4) is Ok,
    ensures
        grid_of(mesh, adj, f, 0) is Ok,
        grid_of(mesh, adj, f, 1) is Ok,
        grid_of(mesh, adj, f, 2) is Ok,
        grid_of(mesh, adj, f, 3) is Ok,
{
    assert(grid_of(mesh, adj, f, 3) is Ok);
    assert(grid_of(mesh, adj, f, 2) is Ok);
    assert(grid_of(mesh, adj, f, 1) is Ok);
    assert(grid_of(mesh, adj, f, 0) is Ok);
}

/// The ring of a corner is put on vertices, and leaves the rest of the grid
/// alone.
proof fn lemma_grid_ring<S: Scalar>(mesh: Mesh<S>, adj: Adjacency, f: int, k: int)
    requires
        quads_ok(mesh, adj),
        0 <= f < mesh.face_vertex_counts@.len(),
        regular_quad(mesh, adj, f),
        0 <= k < 4,
        grid_of(mesh, adj, f, k + 1) is Ok,
        grid_of(mesh, adj, f, k)->Ok_0.len() == 16,
    ensures
        grid_of(mesh, adj, f, k + 1)->Ok_0.len() == 16,
        forall|j: int|
            #![trigger grid_of(mesh, adj, f, k + 1)->Ok_0[j]]
            0 <= j < 16 && (on_ring_grid(k, j) || grid_of(mesh, adj, f, k)->Ok_0[j] < mesh.vertex_count) ==> grid_of(
                mesh,
                adj,
                f,
                k + 1,
            )->Ok_0[j] < mesh.vertex_count,
{
    let n = mesh.vertex_count as int;
    let corners = quad_at(mesh, f);
    let v = corners[k];
    assert(v < n) by {
        reveal(quads_ok);
        assert(v == mesh.face_vertex_indices@[4 * f + k]);
    }
    assert(regular_vertex(mesh, adj, quad_at(mesh, f)[k] as int));
    let ring = ring_of(mesh, adj, v)->Ok_0;
    ring_shape(mesh, adj, v);
    ring_contents(mesh, adj, v);
    let slot = place_of(ring.faces, f as u32)->Some_0;
    assert(is_place(ring.faces, f as u32, slot));
    let turned = rotated_ring(ring, slot);
    assert forall|i: int| 0 <= i < 4 implies (#[trigger] turned.neighbors[i]) < n && turned.diagonals[i] < n by {
        assert(0 <= (i + slot) % 4 < 4);
        assert(ring.neighbors[(i + slot) % 4] < n);
        assert(ring.diagonals[(i + slot) % 4] < n);
    }
    lemma_grid_update(grid_of(mesh, adj, f, k)->Ok_0, k, turned, n);
}

proof fn lemma_grid_update(points: Seq<u32>, k: int, ring: RingModel, n: int)
    requires
        points.len() == 16,
        0 <= k < 4,
        ring.neighbors.len() == 4,
        ring.diagonals.len() == 4,
        forall|i: int| 0 <= i < 4 ==> (#[trigger] ring.neighbors[i]) < n && ring.diagonals[i] < n,
    ensures
        grid_with_ring(points, k, ring).len() == 16,
        forall|j: int|
            0 <= j < 16 && (on_ring_grid(k, j) || points[j] < n) ==> (#[trigger] grid_with_ring(points, k, ring)[j])
                < n,
{
    assert(ring.neighbors[1] < n && ring.neighbors[2] < n && ring.neighbors[3] < n);
    let at = ring_grid(k);
    assert(0 <= at[0] < 16 && 0 <= at[1] < 16 && 0 <= at[2] < 16 && 0 <= at[3] < 16 && 0 <= at[4] < 16);
}

// ---------------------------------------------------------------------------
// Building the table
// ---------------------------------------------------------------------------
fn is_regular_vertex<S: Scalar>(mesh: &Mesh<S>, adj: &Adjacency, v: u32) -> (r: bool)
    requires
        quads_ok(*mesh, *adj),
        v < mesh.vertex_count,
    ensures
        r == regular_vertex(*mesh, *adj, v as int),
{
    let list: &[u32] = edges_slice(mesh, adj, v as usize);
    proof {
        reveal(quads_ok);
    }
    if adj.vertex_is_boundary[v as usize] || list.len() != 4 || !mesh.vertex_corners[v as usize].at_most(zero()) {
        return false;
    }
    let mut k: usize = 0;
    while k < list.len()
        invariant
            k <= list.len(),
            quads_ok(*mesh, *adj),
            v < mesh.vertex_count,
            list@ == edges_at(*adj, v as int),
            list@.len() == 4,
            all_below(list@, mesh.edge_vertices@.len() as int),
            !adj.vertex_is_boundary@[v as int],
            S::at_most_of(mesh.vertex_corners@[v as int], zero_of()),
            forall|j: int|
                0 <= j < k ==> S::at_most_of(mesh.edge_creases@[#[trigger] list@[j] as int], zero_of())
                    && !adj.edge_is_boundary@[list@[j] as int],
        decreases list.len() - k,
    {
        assert(list@[k as int] < mesh.edge_vertices@.len());
        proof {
            reveal(quads_ok);
        }
        let e: usize = list[k] as usize;
        if !mesh.edge_creases[e].at_most(zero()) || adj.edge_is_boundary[e] {
            assert(!(S::at_most_of(mesh.edge_creases@[list@[k as int] as int], zero_of())
                && !adj.edge_is_boundary@[list@[k as int] as int]));
            return false;
        }
        k += 1;
    }
    true
}

fn is_regular_quad<S: Scalar>(mesh: &Mesh<S>, adj: &Adjacency, f: usize) -> (r: bool)
    requires
        quads_ok(*mesh, *adj),
        f < mesh.face_vertex_counts@.len(),
    ensures
        r == regular_quad(*mesh, *adj, f as int),
{
    let corners: &[u32] = quad_slice(mesh, Ghost(*adj), f);
    let mut k: usize = 0;
    while k < 4
        invariant
            k <= 4,
            quads_ok(*mesh, *adj),
            corners@ == quad_at(*mesh, f as int),
            corners@.len() == 4,
            all_below(corners@, mesh.vertex_count as int),
            forall|j: int| 0 <= j < k ==> regular_vertex(*mesh, *adj, #[trigger] quad_at(*mesh, f as int)[j] as int),
        decreases 4 - k,
    {
        assert(corners@[k as int] < mesh.vertex_count);
        if !is_regular_vertex(mesh, adj, corners[k]) {
            assert(!regular_vertex(*mesh, *adj, quad_at(*mesh, f as int)[k as int] as int));
            return false;
        }
        k += 1;
    }
    true
}

/// The control points of a regular quad.
fn extract_control_points<S: Scalar>(face: u32, mesh: &Mesh<S>, adj: &Adjacency) -> (r: Result<[u32; 16], KernelError>)
    requires
        quads_ok(*mesh, *adj),
        face < mesh.face_vertex_counts@.len(),
        regular_quad(*mesh, *adj, face as int),
    ensures
        match grid_of(*mesh, *adj, face as int, 4) {
            Ok(points) => r is Ok && r->Ok_0@ == points,
            Err(text) => r == Err::<[u32; 16], _>(KernelError::InvalidTopology(text)),
        },
{
    let corners: &[u32] = quad_slice(mesh, Ghost(*adj), face as usize);
    let mut points: [u32; 16] = [u32::MAX; 16];
    assert(points@ =~= Seq::new(16, |i: int| u32::MAX));
    points[grid(1, 1)] = corners[0];
    points[grid(2, 1)] = corners[1];
    points[grid(2, 2)] = corners[2];
    points[grid(1, 2)] = corners[3];
    assert(points@ =~= grid_core(corners@));
    let mut k: usize = 0;
    while k < 4
        invariant
            k <= 4,
            quads_ok(*mesh, *adj),
            face < mesh.face_vertex_counts@.len(),
            regular_quad(*mesh, *adj, face as int),
            corners@ == quad_at(*mesh, face as int),
            corners@.len() == 4,
            all_below(corners@, mesh.vertex_count as int),
            grid_of(*mesh, *adj, face as int, k as int) == Ok::<_, &'static str>(points@),
        decreases 4 - k,
    {
        assert(corners@[k as int] < mesh.vertex_count);
        let corner: u32 = corners[k];
        let ring: Ring = match vertex_ring(corner, mesh, adj) {
            Ok(ring) => ring,
            Err(error) => {
                proof {
                    assert(grid_of(*mesh, *adj, face as int, k + 1) is Err);
                    lemma_grid_fault(*mesh, *adj, face as int, k + 1, 4);
                }
                return Err(error);
            },
        };
        let slot: usize = match find_place(&ring.faces, face) {
            Some(slot) => slot,
            None => {
                proof {
                    assert(grid_of(*mesh, *adj, face as int, k + 1) is Err);
                    lemma_grid_fault(*mesh, *adj, face as int, k + 1, 4);
                }
                return Err(KernelError::InvalidTopology("quad corner ring does not contain the quad"));
            },
        };
        proof {
            ring_shape(*mesh, *adj, corner);
            ring_contents(*mesh, *adj, corner);
            assert(regular_vertex(*mesh, *adj, quad_at(*mesh, face as int)[k as int] as int));
        }
        let turned: Ring = ring.rotated(slot);
        let at: [usize; 5] = ring_slots(k);
        let ghost before = points@;
        assert(at@[0] < 16 && at@[1] < 16 && at@[2] < 16 && at@[3] < 16 && at@[4] < 16);
        points[at[0]] = turned.neighbors[2];
        points[at[1]] = turned.neighbors[3];
        points[at[2]] = turned.diagonals[1];
        points[at[3]] = turned.diagonals[2];
        points[at[4]] = turned.diagonals[3];
        assert(points@ =~= grid_with_ring(before, k as int, turned@));
        k += 1;
    }
    Ok(points)
}

/// The patch table of a refinement, or why there is none.
pub open spec fn patch_outcome<S: Scalar>(result: RefinementResult<S>, r: Result<PatchTable, KernelError>) -> bool {
    let nf = result.topology.face_vertex_counts@.len() as int;
    match quads_refused(result) {
        Some(text) => r == Err::<PatchTable, _>(KernelError::NotImplemented(text)),
        None => match grids_of(result.topology, result.adjacency, nf) {
            Err(text) => r == Err::<PatchTable, _>(KernelError::InvalidTopology(text)),
            Ok(_) => r is Ok && r->Ok_0.of(result.topology, result.adjacency),
        },
    }
}

fn build_patch_table<S: Scalar>(result: &RefinementResult<S>) -> (r: Result<PatchTable, KernelError>)
    requires
        quads_refused(*result) is None ==> quads_ok(result.topology, result.adjacency),
    ensures
        patch_outcome(*result, r),
{
    match validate_refined_quads(result) {
        Ok(_) => {},
        Err(error) => {
            return Err(error);
        },
    }
    let mesh: &Mesh<S> = &result.topology;
    let adj: &Adjacency = &result.adjacency;
    let count: usize = mesh.face_vertex_counts.len();
    assert(4 * count <= u32::MAX) by {
        reveal(quads_ok);
    }
    let mut control_points: Vec<[u32; 16]> = Vec::new();
    let mut faces: Vec<u32> = Vec::new();
    let mut face_patches: Vec<u32> = Vec::new();
    let mut f: usize = 0;
    assert(grid_views(control_points@) =~= Seq::<Seq<u32>>::empty());
    assert(face_patches@ =~= patch_numbers(*mesh, *adj, 0));
    while f < count
        invariant
            f <= count,
            count == mesh.face_vertex_counts@.len(),
            4 * count <= u32::MAX,
            *mesh == result.topology,
            *adj == result.adjacency,
            quads_ok(*mesh, *adj),
            quads_refused(*result) is None,
            faces@ == regular_quads(*mesh, *adj, f as int),
            face_patches@ == patch_numbers(*mesh, *adj, f as int),
            grids_of(*mesh, *adj, f as int) == Ok::<_, &'static str>(grid_views(control_points@)),
        decreases count - f,
    {
        let ghost before = grid_views(control_points@);
        proof {
            lemma_grids_len(*mesh, *adj, f as int);
            assert(before.len() == control_points@.len());
        }
        if is_regular_quad(mesh, adj, f) {
            face_patches.push(control_points.len() as u32);
            match extract_control_points(f as u32, mesh, adj) {
                Ok(points) => {
                    control_points.push(points);
                    assert(grid_views(control_points@) =~= before.push(points@));
                },
                Err(error) => {
                    proof {
                        assert(grids_of(*mesh, *adj, f + 1) is Err);
                        lemma_grids_fault(*mesh, *adj, f + 1, count as int);
                    }
                    return Err(error);
                },
            }
            faces.push(f as u32);
        } else {
            face_patches.push(u32::MAX);
        }
        f += 1;
        assert(face_patches@ =~= patch_numbers(*mesh, *adj, f as int));
    }
    Ok(PatchTable { control_points, faces, face_patches })
}

impl<S: Scalar> RefinementResult<S> {
    /// The regular quads of the refined mesh as patches.
    pub fn patch_table(&self) -> (r: Result<PatchTable, KernelError>)
        requires
            quads_refused(*self) is None ==> quads_ok(self.topology, self.adjacency),
        ensures
            patch_outcome(*self, r),
    {
        build_patch_table(self)
    }
}

// ---------------------------------------------------------------------------
// Evaluation
// ---------------------------------------------------------------------------
pub open spec fn cube_of<W: Scalar>(k: W, t: W) -> W {
    W::times_of(W::times_of(W::times_of(k, t), t), t)
}

pub open spec fn square_of<W: Scalar>(k: W, t: W) -> W {
    W::times_of(W::times_of(k, t), t)
}

/// The four uniform cubic B-spline basis functions.
pub open spec fn basis_of<W: Scalar>(t: W) -> Seq<W> {
    let six = W::ratio_of(6, 1);
    let three = W::ratio_of(3, 1);
    let s = W::minus_of(one_of(), t);
    seq![
        W::over_of(W::times_of(W::times_of(s, s), s), six),
        W::over_of(
            W::plus_of(W::minus_of(cube_of(three, t), square_of(six, t)), W::ratio_of(4, 1)),
            six,
        ),
        W::over_of(
            W::plus_of(
                W::plus_of(
                    W::plus_of(cube_of(W::negated_of(three), t), square_of(three, t)),
                    W::times_of(three, t),
                ),
                one_of(),
            ),
            six,
        ),
        W::over_of(W::times_of(W::times_of(t, t), t), six),
    ]
}

/// Their derivatives.
pub open spec fn derivative_of<W: Scalar>(t: W) -> Seq<W> {
    let half = W::ratio_of(1, 2);
    let more = W::ratio_of(3, 2);
    let s = W::minus_of(one_of(), t);
    seq![
        square_of(W::negated_of(half), s),
        W::minus_of(square_of(more, t), W::times_of(W::ratio_of(2, 1), t)),
        W::plus_of(W::plus_of(square_of(W::negated_of(more), t), t), half),
        square_of(half, t),
    ]
}

fn basis<W: Scalar>(t: W) -> (r: [W; 4])
    ensures
        r@ == basis_of(t),
{
    let six: W = W::ratio(6, 1);
    let three: W = W::ratio(3, 1);
    let s: W = one::<W>().minus(t);
    let r: [W; 4] = [
        s.times(s).times(s).over(six),
        three.times(t).times(t).times(t).minus(six.times(t).times(t)).plus(W::ratio(4, 1)).over(six),
        three.negated().times(t).times(t).times(t).plus(three.times(t).times(t)).plus(three.times(t)).plus(
            one(),
        ).over(six),
        t.times(t).times(t).over(six),
    ];
    assert(r@ =~= basis_of(t));
    r
}

fn derivative<W: Scalar>(t: W) -> (r: [W; 4])
    ensures
        r@ == derivative_of(t),
{
    let half: W = W::ratio(1, 2);
    let more: W = W::ratio(3, 2);
    let s: W = one::<W>().minus(t);
    let r: [W; 4] = [
        half.negated().times(s).times(s),
        more.times(t).times(t).minus(W::ratio(2, 1).times(t)),
        more.negated().times(t).times(t).plus(t).plus(half),
        half.times(t).times(t),
    ];
    assert(r@ =~= derivative_of(t));
    r
}

/// Component `c` of the sum of the first `k` control points of a patch, weighted
/// by the products of the row and column weights.
pub open spec fn tensor_sum<S: Scalar, W: Wide<S>>(
    points: Seq<u32>,
    wu: Seq<W>,
    wv: Seq<W>,
    positions: Seq<[S; 3]>,
    c: int,
    k: int,
) -> W
    decreases k,
{
    if k <= 0 {
        zero_of()
    } else {
        W::plus_of(
            tensor_sum::<S, W>(points, wu, wv, positions, c, k - 1),
            W::times_of(
                W::times_of(wu[(k - 1) % 4], wv[(k - 1) / 4]),
                W::widen_of(positions[points[k - 1] as int]@[c]),
            ),
        )
    }
}

/// A point of a patch.
pub open spec fn tensor_of<S: Scalar, W: Wide<S>>(
    points: Seq<u32>,
    wu: Seq<W>,
    wv: Seq<W>,
    positions: Seq<[S; 3]>,
) -> Seq<S> {
    Seq::new(3, |c: int| W::narrow_of(tensor_sum::<S, W>(points, wu, wv, positions, c, 16)))
}

fn tensor<S: Scalar, W: Wide<S>>(points: &[u32; 16], wu: &[W; 4], wv: &[W; 4], positions: &[[S; 3]]) -> (r: [S; 3])
    requires
        all_below(points@, positions@.len() as int),
    ensures
        r@ == tensor_of::<S, W>(points@, wu@, wv@, positions@),
{
    let mut x: W = zero();
    let mut y: W = zero();
    let mut z: W = zero();
    let mut k: usize = 0;
    while k < 16
        invariant
            k <= 16,
            all_below(points@, positions@.len() as int),
            points@.len() == 16,
            x == tensor_sum::<S, W>(points@, wu@, wv@, positions@, 0, k as int),
            y == tensor_sum::<S, W>(points@, wu@, wv@, positions@, 1, k as int),
            z == tensor_sum::<S, W>(points@, wu@, wv@, positions@, 2, k as int),
        decreases 16 - k,
    {
        assert(points@[k as int] < positions@.len());
        let p: [S; 3] = positions[points[k] as usize];
        let w: W = wu[k % 4].times(wv[k / 4]);
        x = x.plus(w.times(W::widen(p[0])));
        y = y.plus(w.times(W::widen(p[1])));
        z = z.plus(w.times(W::widen(p[2])));
        k += 1;
    }
    let r: [S; 3] = [x.narrow(), y.narrow(), z.narrow()];
    assert(r@ =~= tensor_of::<S, W>(points@, wu@, wv@, positions@));
    r
}

impl PatchTable {
    /// A point of a patch.
    pub fn eval<S: Scalar, W: Wide<S>>(&self, patch: usize, uv: [S; 2], control_positions: &[[S; 3]]) -> (r: [S; 3])
        requires
            patch < self.grid_list().len(),
            all_below(self.grid_list()[patch as int], control_positions@.len() as int),
        ensures
            r@ == tensor_of::<S, W>(
                self.grid_list()[patch as int],
                basis_of(W::widen_of(uv@[0])),
                basis_of(W::widen_of(uv@[1])),
                control_positions@,
            ),
    {
        let wu: [W; 4] = basis(W::widen(uv[0]));
        let wv: [W; 4] = basis(W::widen(uv[1]));
        tensor::<S, W>(&self.control_points[patch], &wu, &wv, control_positions)
    }

    /// A point of a patch and its two derivatives.
    pub fn eval_with_derivatives<S: Scalar, W: Wide<S>>(
        &self,
        patch: usize,
        uv: [S; 2],
        control_positions: &[[S; 3]],
    ) -> (r: ([S; 3], [S; 3], [S; 3]))
        requires
            patch < self.grid_list().len(),
            all_below(self.grid_list()[patch as int], control_positions@.len() as int),
        ensures
            ({
                let points = self.grid_list()[patch as int];
                let u = W::widen_of(uv@[0]);
                let v = W::widen_of(uv@[1]);
                &&& r.0@ == tensor_of::<S, W>(points, basis_of(u), basis_of(v), control_positions@)
                &&& r.1@ == tensor_of::<S, W>(points, derivative_of(u), basis_of(v), control_positions@)
                &&& r.2@ == tensor_of::<S, W>(points, basis_of(u), derivative_of(v), control_positions@)
            }),
    {
        let points: &[u32; 16] = &self.control_points[patch];
        let u: W = W::widen(uv[0]);
        let v: W = W::widen(uv[1]);
        let wu: [W; 4] = basis(u);
        let wv: [W; 4] = basis(v);
        let du: [W; 4] = derivative(u);
        let dv: [W; 4] = derivative(v);
        (
            tensor::<S, W>(points, &wu, &wv, control_positions),
            tensor::<S, W>(points, &du, &wv, control_positions),
            tensor::<S, W>(points, &wu, &dv, control_positions),
        )
    }

    /// The control points of a patch with their weights at a point.
    pub fn position_weights<S: Scalar, W: Wide<S>>(&self, patch: usize, uv: [S; 2]) -> (r: Vec<(u32, W)>)
        requires
            patch < self.grid_list().len(),
        ensures
            r@ == Seq::new(
                16,
                |k: int|
                    (
                        self.grid_list()[patch as int][k],
                        W::times_of(
                            basis_of(W::widen_of(uv@[0]))[k % 4],
                            basis_of(W::widen_of(uv@[1]))[k / 4],
                        ),
                    ),
            ),
    {
        let points: &[u32; 16] = &self.control_points[patch];
        let wu: [W; 4] = basis(W::widen(uv[0]));
        let wv: [W; 4] = basis(W::widen(uv[1]));
        let ghost all = Seq::new(
            16,
            |k: int|
                (
                    self.grid_list()[patch as int][k],
                    W::times_of(
                        basis_of(W::widen_of(uv@[0]))[k % 4],
                        basis_of(W::widen_of(uv@[1]))[k / 4],
                    ),
                ),
        );
        let mut out: Vec<(u32, W)> = Vec::new();
        let mut k: usize = 0;
        while k < 16
            invariant
                k <= 16,
                patch < self.grid_list().len(),
                points@ == self.grid_list()[patch as int],
                wu@ == basis_of(W::widen_of(uv@[0])),
                wv@ == basis_of(W::widen_of(uv@[1])),
                all == Seq::new(
                    16,
                    |k: int|
                        (
                            self.grid_list()[patch as int][k],
                            W::times_of(
                                basis_of(W::widen_of(uv@[0]))[k % 4],
                                basis_of(W::widen_of(uv@[1]))[k / 4],
                            ),
                        ),
                ),
                out@ == all.take(k as int),
            decreases 16 - k,
        {
            out.push((points[k], wu[k % 4].times(wv[k / 4])));
            k += 1;
            assert(out@ =~= all.take(k as int));
        }
        assert(out@ =~= all);
        out
    }
}

} // verus!
