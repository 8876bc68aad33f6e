//! The vertex stencils of one Catmull-Clark level.

use crate::connectivity::pairs;
use crate::csr::{lemma_packed_fits, lemma_row_within_flat};
use crate::hashing::EdgeKey;
use crate::incidence::Topology;
use crate::level::LevelData;
use crate::options::{BoundaryInterpolation, SchemeOptions, TriangleSubdivisionRule};
use crate::rows::views;
use crate::rules::{
    blend_edge, blended_edge_row, corner_at, corner_blend, cornered_row, effective_corner_at, face_point_stencils,
    face_row, face_rows, faces_merged, lemma_cornered_below, lemma_edges_below, lemma_face_row_below,
    lemma_faces_merged_below, merge_faces, midpoint, midpoint_row,
};
use crate::scalar::{one, one_of, Scalar};
use crate::sharpness::{
    blend_of, choose_flagged, chosen, collect_neighbors, collect_sharp_neighbors, flagged_neighbors, lemma_chosen,
    lemma_flagged_neighbors_below, lemma_sharp_neighbors_below, lemma_sharp_row_below, other_end, sharp_neighbors,
    sharp_row, sharp_vertex_stencil_osd, sharpness_to_blend,
};
use crate::stencil::{
    identity_entry, identity_row, lemma_merged_below, lemma_mixed_below, merge, merged, row_below, rows_below,
    written_from, StencilTable,
};
use crate::topology::all_below;
use vstd::prelude::*;

verus! {

// ---------------------------------------------------------------------------
// Face points
// ---------------------------------------------------------------------------

// ---------------------------------------------------------------------------
// Edge points
// ---------------------------------------------------------------------------

/// Weight of a face in the edge mask that smooths triangles.
pub open spec fn tri_weight<S: Scalar>(size: nat) -> S {
    if size == 3 {
        S::ratio_of(47, 100)
    } else {
        S::ratio_of(1, 4)
    }
}

/// Weights of the two vertices and of the two faces of an edge.
pub open spec fn smooth_tri_weights<S: Scalar>(size_0: nat, size_1: nat) -> (S, S) {
    if size_0 == 3 || size_1 == 3 {
        let face = S::times_of(S::ratio_of(1, 2), S::plus_of(tri_weight::<S>(size_0), tri_weight::<S>(size_1)));
        let vertex = S::times_of(
            S::ratio_of(1, 2),
            S::minus_of(one_of(), S::times_of(S::ratio_of(2, 1), face)),
        );
        (vertex, face)
    } else {
        (S::ratio_of(1, 4), S::ratio_of(1, 4))
    }
}

fn smooth_tri_edge_weights<S: Scalar>(size_0: usize, size_1: usize) -> (r: (S, S))
    ensures
        r == smooth_tri_weights::<S>(size_0 as nat, size_1 as nat),
{
    if size_0 == 3 || size_1 == 3 {
        let w0: S = if size_0 == 3 {
            S::ratio(47, 100)
        } else {
            S::ratio(1, 4)
        };
        let w1: S = if size_1 == 3 {
            S::ratio(47, 100)
        } else {
            S::ratio(1, 4)
        };
        let half: S = S::ratio(1, 2);
        let face: S = half.times(w0.plus(w1));
        let vertex: S = half.times(one::<S>().minus(S::ratio(2, 1).times(face)));
        (vertex, face)
    } else {
        (S::ratio(1, 4), S::ratio(1, 4))
    }
}

/// The two ends of an edge with weight `vw` each.
pub open spec fn ends_row<S: Scalar>(edge: EdgeKey, vw: S) -> Seq<(u32, S)> {
    seq![(edge.0, vw), (edge.1, vw)]
}

/// The smooth rule of an edge with two faces, by which of them are selected.
pub open spec fn smooth_edge_row<S: Scalar>(
    edge: EdgeKey,
    face_0: Seq<u32>,
    face_1: Seq<u32>,
    selected_0: bool,
    selected_1: bool,
    rule: TriangleSubdivisionRule,
) -> Seq<(u32, S)> {
    let third = S::ratio_of(1, 3);
    if selected_0 && selected_1 {
        let (vw, fw) = match rule {
            TriangleSubdivisionRule::SmoothTriangles => smooth_tri_weights::<S>(face_0.len(), face_1.len()),
            TriangleSubdivisionRule::CatmullClark => (S::ratio_of(1, 4), S::ratio_of(1, 4)),
        };
        merged(merged(ends_row(edge, vw), face_row::<S>(face_0), fw), face_row::<S>(face_1), fw)
    } else if selected_0 {
        merged(ends_row(edge, third), face_row::<S>(face_0), third)
    } else if selected_1 {
        merged(ends_row(edge, third), face_row::<S>(face_1), third)
    } else {
        midpoint_row(edge)
    }
}

/// The point of edge `e`.
pub open spec fn cc_edge_row<S: Scalar>(level: LevelData<S>, options: SchemeOptions, e: int) -> Seq<(u32, S)> {
    let t = level.topo;
    let edge = t.edges()[e];
    let row = t.edge_faces@[e];
    if !level.edge_has_selected_face@[e] || row.len() < 2 {
        midpoint_row(edge)
    } else {
        let smooth = smooth_edge_row::<S>(
            edge,
            t.faces@[row[0] as int],
            t.faces@[row[1] as int],
            level.face_selected@[row[0] as int],
            level.face_selected@[row[1] as int],
            options.triangle_subdivision_rule,
        );
        blended_edge_row(smooth, midpoint_row(edge), blend_of(level.effective_edge_creases@[e]))
    }
}

pub open spec fn cc_edge_rows<S: Scalar>(level: LevelData<S>, options: SchemeOptions) -> Seq<Seq<(u32, S)>> {
    Seq::new(level.topo.edges().len(), |e: int| cc_edge_row(level, options, e))
}

fn smooth_edge_stencil<S: Scalar>(
    v0: u32,
    v1: u32,
    stencil_0: &[(u32, S)],
    stencil_1: &[(u32, S)],
    selected_0: bool,
    selected_1: bool,
    rule: TriangleSubdivisionRule,
    Ghost(face_0): Ghost<Seq<u32>>,
    Ghost(face_1): Ghost<Seq<u32>>,
) -> (r: Vec<(u32, S)>)
    requires
        stencil_0@ == face_row::<S>(face_0),
        stencil_1@ == face_row::<S>(face_1),
    ensures
        r@ == smooth_edge_row::<S>((v0, v1), face_0, face_1, selected_0, selected_1, rule),
{
    if !selected_0 && !selected_1 {
        return midpoint(v0, v1);
    }
    let (vw, fw): (S, S) = if selected_0 && selected_1 {
        match rule {
            TriangleSubdivisionRule::SmoothTriangles => smooth_tri_edge_weights(stencil_0.len(), stencil_1.len()),
            TriangleSubdivisionRule::CatmullClark => (S::ratio(1, 4), S::ratio(1, 4)),
        }
    } else {
        (S::ratio(1, 3), S::ratio(1, 3))
    };
    let mut s: Vec<(u32, S)> = Vec::new();
    s.push((v0, vw));
    s.push((v1, vw));
    assert(s@ =~= ends_row((v0, v1), vw));
    if selected_0 {
        merge(&mut s, stencil_0, fw);
    }
    if selected_1 {
        merge(&mut s, stencil_1, fw);
    }
    s
}

/// The points of all edges.
fn edge_point_stencils<S: Scalar>(
    level: &LevelData<S>,
    face_stencils: &[Vec<(u32, S)>],
    options: &SchemeOptions,
) -> (r: Vec<Vec<(u32, S)>>)
    requires
        level.wf(),
        views(face_stencils@) == face_rows::<S>(level.topo.faces@),
    ensures
        views(r@) == cc_edge_rows(*level, *options),
{
    let ghost all = cc_edge_rows(*level, *options);
    let mut out: Vec<Vec<(u32, S)>> = Vec::new();
    let mut ei: usize = 0;
    while ei < level.topo.edge_vertices.len()
        invariant
            ei <= level.topo.edge_vertices@.len(),
            level.wf(),
            views(face_stencils@) == face_rows::<S>(level.topo.faces@),
            all == cc_edge_rows(*level, *options),
            views(out@) == all.take(ei as int),
        decreases level.topo.edge_vertices@.len() - ei,
    {
        let topo: &Topology<S> = &level.topo;
        let v0: u32 = topo.edge_vertices[ei][0];
        let v1: u32 = topo.edge_vertices[ei][1];
        assert(topo.edges()[ei as int] == (v0, v1));
        let faces: &[u32] = topo.edge_faces.row(ei);
        proof {
            assert(topo.edge_faces@[ei as int].len() > 0 && all_below(
                topo.edge_faces@[ei as int],
                topo.faces@.len() as int,
            ));
            assert(face_stencils@.len() == topo.faces@.len()) by {
                assert(views(face_stencils@).len() == face_stencils@.len());
            }
        }
        let row: Vec<(u32, S)> = if !level.edge_has_selected_face[ei] || faces.len() < 2 {
            midpoint(v0, v1)
        } else {
            assert(faces@[0] < topo.faces@.len());
            assert(faces@[1] < topo.faces@.len());
            let f0: usize = faces[0] as usize;
            let f1: usize = faces[1] as usize;
            assert(face_stencils@[f0 as int]@ == views(face_stencils@)[f0 as int]);
            assert(face_stencils@[f1 as int]@ == views(face_stencils@)[f1 as int]);
            let smooth: Vec<(u32, S)> = smooth_edge_stencil(
                v0,
                v1,
                &face_stencils[f0],
                &face_stencils[f1],
                level.face_selected[f0],
                level.face_selected[f1],
                options.triangle_subdivision_rule,
                Ghost(topo.faces@[f0 as int]),
                Ghost(topo.faces@[f1 as int]),
            );
            blend_edge(smooth, midpoint(v0, v1), sharpness_to_blend(level.effective_edge_creases[ei]))
        };
        assert(row@ == all[ei as int]);
        let ghost before = views(out@);
        out.push(row);
        assert(views(out@) =~= before.push(row@));
        ei += 1;
        assert(views(out@) =~= all.take(ei as int));
    }
    assert(all.take(ei as int) =~= all);
    out
}

// ---------------------------------------------------------------------------
// Vertex points
// ---------------------------------------------------------------------------

/// The rule of a boundary vertex: a crease along the boundary.
pub open spec fn boundary_row<S: Scalar>(t: Topology<S>, v: u32, corner: S) -> Seq<(u32, S)> {
    let neighbors = flagged_neighbors(t.vertex_edges@[v as int], t.edges(), t.edge_is_boundary@, v);
    if neighbors.len() < 2 {
        identity_row::<S>(v)
    } else {
        cornered_row(
            seq![
                (v, S::ratio_of(3, 4)),
                (neighbors[0], S::ratio_of(1, 8)),
                (neighbors[1], S::ratio_of(1, 8)),
            ],
            v,
            corner,
        )
    }
}

fn boundary_vertex_stencil<S: Scalar>(vi: u32, corner: S, topo: &Topology<S>, Ghost(n): Ghost<nat>) -> (r: Vec<(u32, S)>)
    requires
        topo.sound(n),
        vi < n,
    ensures
        r@ == boundary_row(*topo, vi, corner),
{
    assert(all_below(topo.vertex_edges@[vi as int], topo.edges().len() as int));
    let neighbors: Vec<u32> = collect_neighbors(
        topo.vertex_edges.row(vi as usize),
        &topo.edge_vertices,
        &topo.edge_is_boundary,
        vi,
    );
    if neighbors.len() < 2 {
        return identity_entry(vi);
    }
    let mut smooth: Vec<(u32, S)> = Vec::new();
    smooth.push((vi, S::ratio(3, 4)));
    smooth.push((neighbors[0], S::ratio(1, 8)));
    smooth.push((neighbors[1], S::ratio(1, 8)));
    assert(smooth@ =~= seq![
        (vi, S::ratio_of(3, 4)),
        (neighbors@[0], S::ratio_of(1, 8)),
        (neighbors@[1], S::ratio_of(1, 8)),
    ]);
    corner_blend(smooth, vi, corner)
}

/// The sum of the midpoints of a list of edges of `v`.
pub open spec fn midpoints_merged<S: Scalar>(list: Seq<u32>, edges: Seq<EdgeKey>, v: u32) -> Seq<(u32, S)>
    decreases list.len(),
{
    if list.len() == 0 {
        Seq::empty()
    } else {
        let half = S::ratio_of(1, 2);
        let front = midpoints_merged::<S>(list.drop_last(), edges, v);
        merged(
            merged(front, seq![(v, half)], one_of()),
            seq![(other_end(edges[list.last() as int], v), half)],
            one_of(),
        )
    }
}

fn merge_midpoints<S: Scalar>(list: &[u32], edges: &[[u32; 2]], v: u32) -> (r: Vec<(u32, S)>)
    requires
        all_below(list@, edges@.len() as int),
    ensures
        r@ == midpoints_merged::<S>(list@, pairs(edges@), v),
{
    let ghost pe = pairs(edges@);
    let half: S = S::ratio(1, 2);
    let mut out: Vec<(u32, S)> = Vec::new();
    let mut k: usize = 0;
    assert(list@.take(0) =~= Seq::<u32>::empty());
    while k < list.len()
        invariant
            k <= list.len(),
            all_below(list@, edges@.len() as int),
            pe == pairs(edges@),
            half == S::ratio_of(1, 2),
            out@ == midpoints_merged::<S>(list@.take(k as int), pe, v),
        decreases list.len() - k,
    {
        assert(list@[k as int] < edges@.len());
        let e: usize = list[k] as usize;
        assert(pe[e as int] == (edges@[e as int]@[0], edges@[e as int]@[1]));
        let other: u32 = if edges[e][0] == v {
            edges[e][1]
        } else {
            edges[e][0]
        };
        merge(&mut out, &[(v, half)], one());
        merge(&mut out, &[(other, half)], one());
        assert([(v, half)]@ =~= seq![(v, half)]);
        assert([(other, half)]@ =~= seq![(other, half)]);
        k += 1;
        assert(list@.take(k as int).drop_last() =~= list@.take(k - 1));
    }
    assert(list@.take(k as int) =~= list@);
    out
}

/// The smooth rule: a share of the faces, of the edge midpoints and of the
/// vertex itself.
pub open spec fn smooth_vertex_row<S: Scalar>(
    v: u32,
    faces: Seq<Seq<u32>>,
    edges: Seq<EdgeKey>,
    face_list: Seq<u32>,
    edge_list: Seq<u32>,
) -> Seq<(u32, S)> {
    let n = S::ratio_of(face_list.len() as u32, 1);
    let inv_n = S::over_of(one_of(), n);
    let inv_m = S::ratio_of(1, edge_list.len() as u32);
    let face_mean = faces_merged(Seq::empty(), face_list, faces, inv_n);
    let mids = midpoints_merged::<S>(edge_list, edges, v);
    merged(
        merged(
            merged(Seq::empty(), face_mean, inv_n),
            mids,
            S::over_of(S::times_of(S::ratio_of(2, 1), inv_m), n),
        ),
        identity_row::<S>(v),
        S::over_of(S::minus_of(n, S::ratio_of(3, 1)), n),
    )
}

/// The point of vertex `v`.
pub open spec fn cc_vertex_row<S: Scalar>(level: LevelData<S>, options: SchemeOptions, v: int) -> Seq<(u32, S)> {
    let t = level.topo;
    let vi = v as u32;
    let original = identity_row::<S>(vi);
    let corner = corner_at(
        level.mesh.vertex_corners@[v],
        options.auto_corner,
        t.vertex_edges@[v],
        t.edge_creases@,
    );
    let face_list = chosen(t.vertex_faces@[v], level.face_selected@);
    let edge_list = chosen(t.vertex_edges@[v], level.edge_has_selected_face@);
    if S::at_most_of(one_of(), corner) || face_list.len() == 0 {
        original
    } else if t.vertex_is_boundary@[v] && options.boundary_interpolation
        != BoundaryInterpolation::Natural {
        if options.boundary_interpolation == BoundaryInterpolation::EdgesAndCorners && t.vertex_faces@[v].len()
            <= 1 {
            original
        } else {
            boundary_row(t, vi, corner)
        }
    } else if edge_list.len() == 0 {
        original
    } else {
        let smooth = smooth_vertex_row::<S>(vi, t.faces@, t.edges(), face_list, edge_list);
        let sharp = sharp_neighbors(t.vertex_edges@[v], t.edges(), level.effective_edge_creases@, vi);
        if sharp.len() >= 2 {
            sharp_row(vi, smooth, original, corner, sharp)
        } else {
            cornered_row(smooth, vi, corner)
        }
    }
}

pub open spec fn cc_vertex_rows<S: Scalar>(level: LevelData<S>, options: SchemeOptions) -> Seq<Seq<(u32, S)>> {
    Seq::new(level.n(), |v: int| cc_vertex_row(level, options, v))
}

fn smooth_vertex_stencil<S: Scalar>(
    vi: u32,
    topo: &Topology<S>,
    face_stencils: &[Vec<(u32, S)>],
    face_list: &[u32],
    edge_list: &[u32],
) -> (r: Vec<(u32, S)>)
    requires
        views(face_stencils@) == face_rows::<S>(topo.faces@),
        all_below(face_list@, topo.faces@.len() as int),
        all_below(edge_list@, topo.edges().len() as int),
        0 < face_list@.len() <= u32::MAX,
        0 < edge_list@.len() <= u32::MAX,
    ensures
        r@ == smooth_vertex_row::<S>(vi, topo.faces@, topo.edges(), face_list@, edge_list@),
{
    let n: S = S::ratio(face_list.len() as u32, 1);
    let inv_n: S = one::<S>().over(n);
    let inv_m: S = S::ratio(1, edge_list.len() as u32);
    let mut face_mean: Vec<(u32, S)> = Vec::new();
    merge_faces(&mut face_mean, face_list, face_stencils, inv_n, Ghost(topo.faces@));
    let mids: Vec<(u32, S)> = merge_midpoints(edge_list, &topo.edge_vertices, vi);
    let original: Vec<(u32, S)> = identity_entry(vi);
    let mut smooth: Vec<(u32, S)> = Vec::new();
    merge(&mut smooth, &face_mean, inv_n);
    merge(&mut smooth, &mids, S::ratio(2, 1).times(inv_m).over(n));
    merge(&mut smooth, &original, n.minus(S::ratio(3, 1)).over(n));
    smooth
}

/// The point of a vertex.
fn vertex_point_stencil<S: Scalar>(
    vi: usize,
    level: &LevelData<S>,
    options: &SchemeOptions,
    face_stencils: &[Vec<(u32, S)>],
) -> (r: Vec<(u32, S)>)
    requires
        level.wf(),
        vi < level.n(),
        views(face_stencils@) == face_rows::<S>(level.topo.faces@),
    ensures
        r@ == cc_vertex_row(*level, *options, vi as int),
{
    let topo: &Topology<S> = &level.topo;
    let v: u32 = vi as u32;
    proof {
        assert(all_below(topo.vertex_edges@[vi as int], topo.edges().len() as int));
        assert(all_below(topo.vertex_faces@[vi as int], topo.faces@.len() as int));
        assert(topo.vertex_edges@[vi as int].len() < u32::MAX);
        lemma_row_within_flat(topo.vertex_faces@, vi as int);
        lemma_packed_fits(topo.vertex_faces);
    }
    let edges: &[u32] = topo.vertex_edges.row(vi);
    let corner: S = effective_corner_at(
        level.mesh.vertex_corners[vi],
        options.auto_corner,
        edges,
        &topo.edge_creases,
    );
    if one::<S>().at_most(corner) {
        return identity_entry(v);
    }
    let face_list: Vec<u32> = choose_flagged(topo.vertex_faces.row(vi), &level.face_selected);
    if face_list.len() == 0 {
        return identity_entry(v);
    }
    if topo.vertex_is_boundary[vi] {
        match options.boundary_interpolation {
            BoundaryInterpolation::Natural => {},
            BoundaryInterpolation::EdgesOnly => {
                return boundary_vertex_stencil(v, corner, topo, Ghost(level.n()));
            },
            BoundaryInterpolation::EdgesAndCorners => {
                if topo.vertex_faces.row_len(vi) <= 1 {
                    return identity_entry(v);
                }
                return boundary_vertex_stencil(v, corner, topo, Ghost(level.n()));
            },
        }
    }
    let edge_list: Vec<u32> = choose_flagged(edges, &level.edge_has_selected_face);
    if edge_list.len() == 0 {
        return identity_entry(v);
    }
    let smooth: Vec<(u32, S)> = smooth_vertex_stencil(v, topo, face_stencils, &face_list, &edge_list);
    let sharp: Vec<(u32, S)> = collect_sharp_neighbors(
        edges,
        &topo.edge_vertices,
        &level.effective_edge_creases,
        v,
    );
    if sharp.len() >= 2 {
        proof {
            lemma_edges_below(*topo, level.n(), vi as int);
            lemma_sharp_neighbors_below(
                topo.vertex_edges@[vi as int],
                topo.edges(),
                level.effective_edge_creases@,
                v,
                level.n(),
            );
        }
        let original: Vec<(u32, S)> = identity_entry(v);
        return sharp_vertex_stencil_osd(v, &smooth, &original, corner, &sharp);
    }
    corner_blend(smooth, v, corner)
}

// ---------------------------------------------------------------------------
// The table
// ---------------------------------------------------------------------------
/// The rows of a level: face points, edge points, vertex points.
pub open spec fn cc_rows<S: Scalar>(level: LevelData<S>, options: SchemeOptions) -> Seq<Seq<(u32, S)>> {
    face_rows::<S>(level.topo.faces@) + cc_edge_rows(level, options) + cc_vertex_rows(level, options)
}

proof fn lemma_midpoints_merged_below<S: Scalar>(list: Seq<u32>, edges: Seq<EdgeKey>, v: u32, n: nat)
    requires
        v < n,
        all_below(list, edges.len() as int),
        forall|e: int| 0 <= e < edges.len() ==> (#[trigger] edges[e]).0 < n && edges[e].1 < n,
    ensures
        row_below(midpoints_merged::<S>(list, edges, v), n),
    decreases list.len(),
{
    if list.len() > 0 {
        let half = S::ratio_of(1, 2);
        let front = list.drop_last();
        assert(all_below(front, edges.len() as int)) by {
            assert forall|k: int| 0 <= k < front.len() implies (#[trigger] front[k]) < edges.len() by {
                assert(list[k] < edges.len());
            }
        }
        lemma_midpoints_merged_below::<S>(front, edges, v, n);
        assert(list[list.len() - 1] < edges.len());
        let base = midpoints_merged::<S>(front, edges, v);
        let other = other_end(edges[list.last() as int], v);
        lemma_merged_below(base, seq![(v, half)], one_of(), n);
        lemma_merged_below(merged(base, seq![(v, half)], one_of()), seq![(other, half)], one_of(), n);
    }
}

proof fn lemma_boundary_row_below<S: Scalar>(t: Topology<S>, v: u32, corner: S, n: nat)
    requires
        t.sound(n),
        v < n,
    ensures
        row_below(boundary_row(t, v, corner), n),
{
    lemma_edges_below(t, n, v as int);
    assert(all_below(t.vertex_edges@[v as int], t.edges().len() as int));
    lemma_flagged_neighbors_below(t.vertex_edges@[v as int], t.edges(), t.edge_is_boundary@, v, n);
    let neighbors = flagged_neighbors(t.vertex_edges@[v as int], t.edges(), t.edge_is_boundary@, v);
    if neighbors.len() >= 2 {
        assert(neighbors[0] < n && neighbors[1] < n);
        let smooth = seq![
            (v, S::ratio_of(3, 4)),
            (neighbors[0], S::ratio_of(1, 8)),
            (neighbors[1], S::ratio_of(1, 8)),
        ];
        lemma_cornered_below(smooth, v, corner, n);
    }
}

proof fn lemma_cc_vertex_row_below<S: Scalar>(level: LevelData<S>, options: SchemeOptions, v: int)
    requires
        level.wf(),
        0 <= v < level.n(),
    ensures
        row_below(cc_vertex_row(level, options, v), level.n()),
{
    let t = level.topo;
    let n = level.n();
    let vi = v as u32;
    let corner = corner_at(
        level.mesh.vertex_corners@[v],
        options.auto_corner,
        t.vertex_edges@[v],
        t.edge_creases@,
    );
    let face_list = chosen(t.vertex_faces@[v], level.face_selected@);
    let edge_list = chosen(t.vertex_edges@[v], level.edge_has_selected_face@);
    lemma_edges_below(t, n, v);
    assert(all_below(t.vertex_edges@[v], t.edges().len() as int));
    assert(all_below(t.vertex_faces@[v], t.faces@.len() as int));
    lemma_chosen(t.vertex_faces@[v], level.face_selected@, t.faces@.len() as int);
    lemma_chosen(t.vertex_edges@[v], level.edge_has_selected_face@, t.edges().len() as int);
    lemma_boundary_row_below(t, vi, corner, n);
    assert forall|f: int| 0 <= f < t.faces@.len() implies all_below(#[trigger] t.faces@[f], n as int) by {
        assert(t.faces@[f].len() >= 3);
    }
    let nn = S::ratio_of(face_list.len() as u32, 1);
    let inv_n = S::over_of(one_of(), nn);
    let inv_m = S::ratio_of(1, edge_list.len() as u32);
    let face_mean = faces_merged(Seq::empty(), face_list, t.faces@, inv_n);
    let mids = midpoints_merged::<S>(edge_list, t.edges(), vi);
    lemma_faces_merged_below(Seq::<(u32, S)>::empty(), face_list, t.faces@, inv_n, n);
    lemma_midpoints_merged_below::<S>(edge_list, t.edges(), vi, n);
    let m0 = merged(Seq::empty(), face_mean, inv_n);
    lemma_merged_below(Seq::empty(), face_mean, inv_n, n);
    let w1 = S::over_of(S::times_of(S::ratio_of(2, 1), inv_m), nn);
    let m1 = merged(m0, mids, w1);
    lemma_merged_below(m0, mids, w1, n);
    lemma_merged_below(m1, identity_row::<S>(vi), S::over_of(S::minus_of(nn, S::ratio_of(3, 1)), nn), n);
    let smooth = smooth_vertex_row::<S>(vi, t.faces@, t.edges(), face_list, edge_list);
    let sharp = sharp_neighbors(t.vertex_edges@[v], t.edges(), level.effective_edge_creases@, vi);
    lemma_sharp_neighbors_below(t.vertex_edges@[v], t.edges(), level.effective_edge_creases@, vi, n);
    lemma_sharp_row_below(vi, smooth, identity_row::<S>(vi), corner, sharp, n);
    lemma_cornered_below(smooth, vi, corner, n);
}

proof fn lemma_cc_edge_row_below<S: Scalar>(level: LevelData<S>, options: SchemeOptions, e: int)
    requires
        level.wf(),
        0 <= e < level.topo.edges().len(),
    ensures
        row_below(cc_edge_row(level, options, e), level.n()),
{
    let t = level.topo;
    let n = level.n();
    let edge = t.edges()[e];
    let row = t.edge_faces@[e];
    assert(edge.0 < edge.1 && edge.1 < n);
    assert(row.len() > 0 && all_below(row, t.faces@.len() as int));
    if row.len() >= 2 {
        assert(row[0] < t.faces@.len() && row[1] < t.faces@.len());
        let f0 = t.faces@[row[0] as int];
        let f1 = t.faces@[row[1] as int];
        assert(f0.len() >= 3 && f1.len() >= 3);
        lemma_face_row_below::<S>(f0, n);
        lemma_face_row_below::<S>(f1, n);
        let (vw, fw) = match options.triangle_subdivision_rule {
            TriangleSubdivisionRule::SmoothTriangles => smooth_tri_weights::<S>(f0.len(), f1.len()),
            TriangleSubdivisionRule::CatmullClark => (S::ratio_of(1, 4), S::ratio_of(1, 4)),
        };
        let third = S::ratio_of(1, 3);
        lemma_merged_below(ends_row(edge, vw), face_row::<S>(f0), fw, n);
        lemma_merged_below(merged(ends_row(edge, vw), face_row::<S>(f0), fw), face_row::<S>(f1), fw, n);
        lemma_merged_below(ends_row(edge, third), face_row::<S>(f0), third, n);
        lemma_merged_below(ends_row(edge, third), face_row::<S>(f1), third, n);
        let smooth = smooth_edge_row::<S>(
            edge,
            f0,
            f1,
            level.face_selected@[row[0] as int],
            level.face_selected@[row[1] as int],
            options.triangle_subdivision_rule,
        );
        lemma_mixed_below(smooth, midpoint_row::<S>(edge), blend_of(level.effective_edge_creases@[e]), n);
    }
}

/// The stencils of a level read vertices of the level only, and there is one
/// for each vertex of the refined mesh.
pub proof fn cc_rows_fit<S: Scalar>(level: LevelData<S>, options: SchemeOptions)
    requires
        level.wf(),
    ensures
        rows_below(cc_rows(level, options), level.n()),
        cc_rows(level, options).len() == super::topology::parent_of(level.topo, level.n()).refined_vertex_count(),
{
    let rows = cc_rows(level, options);
    let nf = level.topo.faces@.len();
    let ne = level.topo.edges().len();
    assert forall|i: int| 0 <= i < rows.len() implies row_below(#[trigger] rows[i], level.n()) by {
        if i < nf {
            assert(level.topo.faces@[i].len() >= 3);
            lemma_face_row_below::<S>(level.topo.faces@[i], level.n());
        } else if i < nf + ne {
            lemma_cc_edge_row_below(level, options, i - nf);
        } else {
            lemma_cc_vertex_row_below(level, options, i - nf - ne);
        }
    }
}

/// The vertex stencils of a level.
pub fn vertex_stencils_from_level<S: Scalar>(parent: &LevelData<S>, options: &SchemeOptions) -> (r: StencilTable<S>)
    requires
        parent.wf(),
    ensures
        written_from(r, cc_rows(*parent, *options)),
{
    StencilTable::from_rows(&vertex_row_lists(parent, options))
}

/// The rows of the vertex stencils of a level.
pub(crate) fn vertex_row_lists<S: Scalar>(parent: &LevelData<S>, options: &SchemeOptions) -> (r: Vec<Vec<(u32, S)>>)
    requires
        parent.wf(),
    ensures
        views(r@) == cc_rows(*parent, *options),
{
    assert forall|f: int| 0 <= f < parent.topo.faces@.len() implies (#[trigger] parent.topo.faces@[f]).len()
        > 0 by {
        assert(parent.topo.faces@[f].len() >= 3);
    }
    let mut all: Vec<Vec<(u32, S)>> = face_point_stencils(&parent.topo.faces);
    let mut edge_points: Vec<Vec<(u32, S)>> = edge_point_stencils(parent, &all, options);
    let ghost vertex_rows = cc_vertex_rows(*parent, *options);
    let mut vertex_points: Vec<Vec<(u32, S)>> = Vec::new();
    let n: usize = parent.mesh.vertex_count as usize;
    let mut vi: usize = 0;
    while vi < n
        invariant
            vi <= n,
            n == parent.n(),
            parent.wf(),
            views(all@) == face_rows::<S>(parent.topo.faces@),
            vertex_rows == cc_vertex_rows(*parent, *options),
            views(vertex_points@) == vertex_rows.take(vi as int),
        decreases n - vi,
    {
        let row: Vec<(u32, S)> = vertex_point_stencil(vi, parent, options, &all);
        let ghost before = views(vertex_points@);
        vertex_points.push(row);
        assert(views(vertex_points@) =~= before.push(row@));
        vi += 1;
        assert(views(vertex_points@) =~= vertex_rows.take(vi as int));
    }
    assert(vertex_rows.take(vi as int) =~= vertex_rows);
    let ghost a = views(all@);
    let ghost b = views(edge_points@);
    let ghost c = views(vertex_points@);
    all.append(&mut edge_points);
    all.append(&mut vertex_points);
    assert(views(all@) =~= a + b + c);
    all
}

} // verus!
