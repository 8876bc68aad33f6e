//! How creases are handed down in the Catmull-Clark scheme.

use crate::hashing::EdgeKey;
use crate::incidence::Topology;
use crate::options::{CornerRule, CreaseComputationMethod, SchemeOptions};
use crate::rules::creases_at;
use crate::scalar::{one, one_of, zero, zero_of, Scalar};
use crate::sharpness::{decremented, osd_decrement, sum_of};
use vstd::prelude::*;

verus! {

/// Mean crease of the edges around a vertex.
pub open spec fn mean_crease<S: Scalar>(list: Seq<u32>, creases: Seq<S>) -> S {
    if list.len() == 0 {
        zero_of()
    } else {
        S::over_of(sum_of(creases_at(list, creases)), S::ratio_of(list.len() as u32, 1))
    }
}

/// `max((parent + mean) / 2 - 1, 0)`
pub open spec fn chaikin_of<S: Scalar>(parent: S, mean: S) -> S {
    S::larger_of(
        S::minus_of(S::times_of(S::plus_of(parent, mean), S::ratio_of(1, 2)), one_of()),
        zero_of(),
    )
}

/// The creases of the two halves of edge `e`.
pub open spec fn child_creases<S: Scalar>(
    e: int,
    edges: Seq<EdgeKey>,
    vertex_edges: Seq<Seq<u32>>,
    creases: Seq<S>,
    options: SchemeOptions,
) -> (S, S) {
    let parent = creases[e];
    if S::at_most_of(parent, zero_of()) {
        (zero_of(), zero_of())
    } else if options.crease_normalize {
        (parent, parent)
    } else {
        match options.crease_computation {
            CreaseComputationMethod::Uniform => (decremented(parent), decremented(parent)),
            CreaseComputationMethod::Chaikin => (
                chaikin_of(parent, mean_crease(vertex_edges[edges[e].0 as int], creases)),
                chaikin_of(parent, mean_crease(vertex_edges[edges[e].1 as int], creases)),
            ),
        }
    }
}

fn mean_incident_creases<S: Scalar>(incident: &[u32], edge_creases: &[S]) -> (r: S)
    requires
        incident@.len() <= u32::MAX,
        crate::topology::all_below(incident@, edge_creases@.len() as int),
    ensures
        r == mean_crease(incident@, edge_creases@),
{
    if incident.len() == 0 {
        return zero();
    }
    let ghost all = creases_at(incident@, edge_creases@);
    let mut sum: S = zero();
    let mut i: usize = 0;
    assert(all.take(0) =~= Seq::<S>::empty());
    while i < incident.len()
        invariant
            i <= incident.len(),
            crate::topology::all_below(incident@, edge_creases@.len() as int),
            all == creases_at(incident@, edge_creases@),
            sum == sum_of(all.take(i as int)),
        decreases incident.len() - i,
    {
        assert(incident@[i as int] < edge_creases@.len());
        sum = sum.plus(edge_creases[incident[i] as usize]);
        assert(all.take(i + 1).drop_last() =~= all.take(i as int));
        i += 1;
    }
    assert(all.take(i as int) =~= all);
    sum.over(S::ratio(incident.len() as u32, 1))
}

fn chaikin_subdivide_sharpness<S: Scalar>(parent: S, mean: S) -> (r: S)
    ensures
        r == chaikin_of(parent, mean),
{
    parent.plus(mean).times(S::ratio(1, 2)).minus(one()).larger(zero())
}

/// The creases of the two halves of an edge.
pub fn child_edge_creases<S: Scalar>(
    edge_index: usize,
    topology: &Topology<S>,
    effective_edge_creases: &[S],
    options: &SchemeOptions,
    Ghost(n): Ghost<nat>,
) -> (r: (S, S))
    requires
        topology.sound(n),
        edge_index < topology.edges().len(),
        effective_edge_creases@.len() == topology.edges().len(),
    ensures
        r == child_creases(
            edge_index as int,
            topology.edges(),
            topology.vertex_edges@,
            effective_edge_creases@,
            *options,
        ),
{
    let parent: S = effective_edge_creases[edge_index];
    if parent.at_most(zero()) {
        return (zero(), zero());
    }
    if options.crease_normalize {
        return (parent, parent);
    }
    match options.crease_computation {
        CreaseComputationMethod::Uniform => {
            let child: S = osd_decrement(parent);
            (child, child)
        },
        CreaseComputationMethod::Chaikin => {
            let a: usize = topology.edge_vertices[edge_index][0] as usize;
            let b: usize = topology.edge_vertices[edge_index][1] as usize;
            proof {
                let e = topology.edges()[edge_index as int];
                assert(e.0 < e.1 && e.1 < n);
                assert(a == e.0 && b == e.1);
                crate::csr::lemma_row_within_flat(topology.vertex_edges@, a as int);
                crate::csr::lemma_row_within_flat(topology.vertex_edges@, b as int);
                crate::csr::lemma_packed_fits(topology.vertex_edges);
            }
            let row_a: &[u32] = topology.vertex_edges.row(a);
            let row_b: &[u32] = topology.vertex_edges.row(b);
            let mean_a: S = mean_incident_creases(row_a, effective_edge_creases);
            let mean_b: S = mean_incident_creases(row_b, effective_edge_creases);
            (chaikin_subdivide_sharpness(parent, mean_a), chaikin_subdivide_sharpness(parent, mean_b))
        },
    }
}

/// The corner sharpness of a vertex one level on.
pub open spec fn child_corner<S: Scalar>(corner: S, normalize: bool) -> S {
    if normalize {
        corner
    } else if S::at_most_of(corner, zero_of()) {
        zero_of()
    } else {
        decremented(corner)
    }
}

pub fn decay_corner_sharpness<S: Scalar>(sharpness: S, corner_rule: CornerRule) -> (r: S)
    ensures
        r == child_corner(sharpness, false),
{
    if sharpness.at_most(zero()) {
        return zero();
    }
    match corner_rule {
        CornerRule::OpenSubdivDeRose => osd_decrement(sharpness),
    }
}

} // verus!
