//! Meshes as callers hand them in, and the tables that refinement hands out.

use crate::connectivity::pairs;
use crate::error::KernelError;
use vstd::prelude::*;

verus! {

/// A polygon mesh with creases and corners.
#[derive(Debug, Clone, PartialEq)]
pub struct Mesh<S> {
    pub vertex_count: u32,
    /// Corners of each face.
    pub face_vertex_counts: Vec<u32>,
    /// Vertex of each corner, face by face.
    pub face_vertex_indices: Vec<u32>,
    /// Edges that carry a crease.
    pub edge_vertices: Vec<[u32; 2]>,
    /// Sharpness, parallel to `edge_vertices`.
    pub edge_creases: Vec<S>,
    /// Corner sharpness of each vertex.
    pub vertex_corners: Vec<S>,
}

/// Sum of a list of counts.
pub open spec fn count_sum(counts: Seq<u32>) -> int
    decreases counts.len(),
{
    if counts.len() == 0 {
        0
    } else {
        count_sum(counts.drop_last()) + counts.last()
    }
}

pub proof fn lemma_count_sum_monotone(counts: Seq<u32>, i: int, j: int)
    requires
        0 <= i <= j <= counts.len(),
    ensures
        0 <= count_sum(counts.take(i)) <= count_sum(counts.take(j)),
    decreases j,
{
    if i < j {
        lemma_count_sum_monotone(counts, i, j - 1);
        assert(counts.take(j).drop_last() =~= counts.take(j - 1));
    } else if j > 0 {
        lemma_count_sum_monotone(counts, j - 1, j - 1);
        assert(counts.take(j).drop_last() =~= counts.take(j - 1));
    }
}

pub open spec fn all_below(items: Seq<u32>, n: int) -> bool {
    forall|i: int| 0 <= i < items.len() ==> (#[trigger] items[i]) < n
}

pub fn check_all_below(items: &[u32], n: u32) -> (r: bool)
    ensures
        r == all_below(items@, n as int),
{
    let mut i: usize = 0;
    while i < items.len()
        invariant
            i <= items.len(),
            forall|j: int| 0 <= j < i ==> (#[trigger] items@[j]) < n,
        decreases items.len() - i,
    {
        if items[i] >= n {
            assert(!(items@[i as int] < n));
            return false;
        }
        i += 1;
    }
    true
}

impl<S> Mesh<S> {
    /// The first rule that the mesh breaks, in the order of the checks.
    pub open spec fn broken_rule(self) -> Option<&'static str> {
        if count_sum(self.face_vertex_counts@) != self.face_vertex_indices@.len() {
            Some("face corner count does not match index buffer length")
        } else if self.edge_creases@.len() != self.edge_vertices@.len() {
            Some("edge crease count does not match edge buffer length")
        } else if self.vertex_corners@.len() != self.vertex_count {
            Some("vertex corner count does not match vertex count")
        } else if !all_below(self.face_vertex_indices@, self.vertex_count as int) {
            Some("face index out of bounds")
        } else if exists|e: int|
            0 <= e < self.edge_vertices@.len() && ((#[trigger] pairs(self.edge_vertices@)[e]).0
                >= self.vertex_count || pairs(self.edge_vertices@)[e].1 >= self.vertex_count) {
            Some("edge endpoint out of bounds")
        } else {
            None
        }
    }

    /// Checks that the buffers fit together and every index is in range.
    pub fn validate(&self) -> (r: Result<(), KernelError>)
        ensures
            r == (match self.broken_rule() {
                Some(rule) => Err(KernelError::InvalidTopology(rule)),
                None => Ok(()),
            }),
    {
        if !sums_to(&self.face_vertex_counts, self.face_vertex_indices.len()) {
            return Err(
                KernelError::InvalidTopology("face corner count does not match index buffer length"),
            );
        }
        if self.edge_creases.len() != self.edge_vertices.len() {
            return Err(
                KernelError::InvalidTopology("edge crease count does not match edge buffer length"),
            );
        }
        if self.vertex_corners.len() != self.vertex_count as usize {
            return Err(
                KernelError::InvalidTopology("vertex corner count does not match vertex count"),
            );
        }
        if !check_all_below(&self.face_vertex_indices, self.vertex_count) {
            return Err(KernelError::InvalidTopology("face index out of bounds"));
        }
        let ghost edges = pairs(self.edge_vertices@);
        let mut e: usize = 0;
        while e < self.edge_vertices.len()
            invariant
                e <= self.edge_vertices.len(),
                count_sum(self.face_vertex_counts@) == self.face_vertex_indices@.len(),
                self.edge_creases@.len() == self.edge_vertices@.len(),
                self.vertex_corners@.len() == self.vertex_count,
                all_below(self.face_vertex_indices@, self.vertex_count as int),
                edges == pairs(self.edge_vertices@),
                forall|j: int|
                    0 <= j < e ==> (#[trigger] edges[j]).0 < self.vertex_count && edges[j].1
                        < self.vertex_count,
            decreases self.edge_vertices.len() - e,
        {
            let a: u32 = self.edge_vertices[e][0];
            let b: u32 = self.edge_vertices[e][1];
            assert(edges[e as int] == (a, b));
            if a >= self.vertex_count || b >= self.vertex_count {
                assert(pairs(self.edge_vertices@)[e as int].0 >= self.vertex_count || pairs(
                    self.edge_vertices@,
                )[e as int].1 >= self.vertex_count);
                return Err(KernelError::InvalidTopology("edge endpoint out of bounds"));
            }
            e += 1;
        }
        Ok(())
    }
}

/// Whether the counts add up to `total`.
pub fn sums_to(counts: &[u32], total: usize) -> (r: bool)
    ensures
        r == (count_sum(counts@) == total),
{
    let mut sum: usize = 0;
    let mut i: usize = 0;
    assert(counts@.take(0) =~= Seq::<u32>::empty());
    while i < counts.len()
        invariant
            i <= counts.len(),
            sum == count_sum(counts@.take(i as int)),
            sum <= total,
        decreases counts.len() - i,
    {
        let count: usize = counts[i] as usize;
        assert(counts@.take(i + 1).drop_last() =~= counts@.take(i as int));
        if count > total - sum {
            proof {
                lemma_count_sum_monotone(counts@, i + 1, counts@.len() as int);
                assert(counts@.take(counts@.len() as int) =~= counts@);
            }
            return false;
        }
        sum += count;
        i += 1;
    }
    assert(counts@.take(i as int) =~= counts@);
    sum == total
}

/// Incidence tables of a refined mesh.
#[derive(Debug, Clone, PartialEq)]
pub struct Adjacency {
    /// Edge that leaves each corner, face by face.
    pub face_edges: Vec<u32>,
    /// The faces of each edge; `u32::MAX` where there is none.
    pub edge_faces: Vec<[u32; 2]>,
    pub vertex_edge_offsets: Vec<u32>,
    pub vertex_edges: Vec<u32>,
    pub vertex_face_offsets: Vec<u32>,
    pub vertex_faces: Vec<u32>,
    pub edge_is_boundary: Vec<bool>,
    pub vertex_is_boundary: Vec<bool>,
}

/// Data that differs from face to face around a vertex.
#[derive(Debug, Clone, PartialEq)]
pub struct FaceVaryingChannel {
    /// Value of each corner, face by face.
    pub indices: Vec<u32>,
    pub value_count: u32,
}

} // verus!
