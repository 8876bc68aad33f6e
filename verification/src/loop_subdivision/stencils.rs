//! The vertex stencils of one Loop level.

use super::refine::loop_wf;
use crate::connectivity::pairs;
use crate::hashing::EdgeKey;
use crate::incidence::Topology;
use crate::level::LevelData;
use crate::rows::views;
use crate::rules::{
    blend_edge, blended_edge_row, face_opposite_vertex, lemma_edge_ends, lemma_edges_below, lemma_opposite_below, midpoint, midpoint_row,
    opposite_of,
};
use crate::scalar::{one, one_of, Scalar};
use crate::sharpness::{
    choose_flagged, chosen, clamp, clamped, collect_neighbors, collect_sharp_neighbors, flagged_neighbors,
    is_positive, lemma_flagged_neighbors_below, lemma_sharp_neighbors_below, lemma_sharp_row_below, other_end,
    positive, sharp_neighbors, sharp_row, sharp_vertex_stencil_osd,
};
use crate::stencil::{
    identity_entry, identity_row, lemma_merged_below, lemma_mixed_below, merge, merged, mix, mixed, row_below,
    rows_below, written_from, StencilTable,
};
use crate::topology::all_below;
use vstd::prelude::*;

verus! {

// ---------------------------------------------------------------------------
// Edge points
// ---------------------------------------------------------------------------

/// Three eighths of each end and an eighth of each opposite vertex.
pub open spec fn smooth_edge_row<S: Scalar>(edge: EdgeKey, face_0: Seq<u32>, face_1: Seq<u32>) -> Seq<(u32, S)> {
    match (opposite_of(face_0, edge), opposite_of(face_1, edge)) {
        (Some(o0), Some(o1)) => seq![
            (edge.0, S::ratio_of(3, 8)),
            (edge.1, S::ratio_of(3, 8)),
            (o0, S::ratio_of(1, 8)),
            (o1, S::ratio_of(1, 8)),
        ],
        _ => midpoint_row(edge),
    }
}

/// The point of edge `e`.
pub open spec fn loop_edge_row<S: Scalar>(level: LevelData<S>, e: int) -> Seq<(u32, S)> {
    let t = level.topo;
    let edge = t.edges()[e];
    let row = t.edge_faces@[e];
    if !level.edge_has_selected_face@[e] || row.len() < 2 {
        midpoint_row(edge)
    } else {
        blended_edge_row(
            smooth_edge_row::<S>(edge, t.faces@[row[0] as int], t.faces@[row[1] as int]),
            midpoint_row(edge),
            clamped(level.effective_edge_creases@[e]),
        )
    }
}

fn edge_point_stencil<S: Scalar>(ei: usize, level: &LevelData<S>) -> (r: Vec<(u32, S)>)
    requires
        level.wf(),
        ei < level.topo.edges().len(),
    ensures
        r@ == loop_edge_row(*level, ei as int),
{
    let topo: &Topology<S> = &level.topo;
    let v0: u32 = topo.edge_vertices[ei][0];
    let v1: u32 = topo.edge_vertices[ei][1];
    assert(topo.edges()[ei as int] == (v0, v1));
    let faces: &[u32] = topo.edge_faces.row(ei);
    assert(topo.edge_faces@[ei as int].len() > 0 && all_below(
        topo.edge_faces@[ei as int],
        topo.faces@.len() as int,
    ));
    if !level.edge_has_selected_face[ei] || faces.len() < 2 {
        return midpoint(v0, v1);
    }
    assert(faces@[0] < topo.faces@.len());
    assert(faces@[1] < topo.faces@.len());
    let o0: Option<u32> = face_opposite_vertex(topo.faces.row(faces[0] as usize), v0, v1);
    let o1: Option<u32> = face_opposite_vertex(topo.faces.row(faces[1] as usize), v0, v1);
    let smooth: Vec<(u32, S)> = match (o0, o1) {
        (Some(a), Some(b)) => {
            let mut s: Vec<(u32, S)> = Vec::new();
            s.push((v0, S::ratio(3, 8)));
            s.push((v1, S::ratio(3, 8)));
            s.push((a, S::ratio(1, 8)));
            s.push((b, S::ratio(1, 8)));
            assert(s@ =~= seq![
                (v0, S::ratio_of(3, 8)),
                (v1, S::ratio_of(3, 8)),
                (a, S::ratio_of(1, 8)),
                (b, S::ratio_of(1, 8)),
            ]);
            s
        },
        _ => midpoint(v0, v1),
    };
    blend_edge(smooth, midpoint(v0, v1), clamp(level.effective_edge_creases[ei]))
}

// ---------------------------------------------------------------------------
// Vertex points
// ---------------------------------------------------------------------------
/// Weight of each neighbour of a vertex with `n` of them.
pub open spec fn beta_of<S: Scalar>(n: nat) -> S {
    if n == 3 {
        S::ratio_of(3, 16)
    } else {
        S::over_of(S::ratio_of(3, 1), S::times_of(S::ratio_of(8, 1), S::ratio_of(n as u32, 1)))
    }
}

/// Weight of each neighbour of a vertex with `n` of them.
pub fn loop_beta<S: Scalar>(n: u32) -> (r: S)
    ensures
        r == beta_of::<S>(n as nat),
{
    if n == 3 {
        S::ratio(3, 16)
    } else {
        S::ratio(3, 1).over(S::ratio(8, 1).times(S::ratio(n, 1)))
    }
}

/// The other ends of a list of edges, merged with one weight.
pub open spec fn neighbors_merged<S: Scalar>(
    base: Seq<(u32, S)>,
    list: Seq<u32>,
    edges: Seq<EdgeKey>,
    v: u32,
    weight: S,
) -> Seq<(u32, S)>
    decreases list.len(),
{
    if list.len() == 0 {
        base
    } else {
        merged(
            neighbors_merged(base, list.drop_last(), edges, v, weight),
            seq![(other_end(edges[list.last() as int], v), weight)],
            one_of(),
        )
    }
}

/// The smooth rule of a vertex with the given edges.
pub open spec fn smooth_vertex_row<S: Scalar>(v: u32, list: Seq<u32>, edges: Seq<EdgeKey>) -> Seq<(u32, S)> {
    let n = S::ratio_of(list.len() as u32, 1);
    let beta = beta_of::<S>(list.len());
    neighbors_merged(seq![(v, S::minus_of(one_of(), S::times_of(n, beta)))], list, edges, v, beta)
}

/// The point of vertex `v`.
pub open spec fn loop_vertex_row<S: Scalar>(level: LevelData<S>, v: int) -> Seq<(u32, S)> {
    let t = level.topo;
    let vi = v as u32;
    let original = identity_row::<S>(vi);
    let corner = level.effective_vertex_corners@[v];
    let list = t.vertex_edges@[v];
    if S::at_most_of(one_of(), corner) || chosen(t.vertex_faces@[v], level.face_selected@).len() == 0 {
        original
    } else if t.vertex_is_boundary@[v] {
        let b = flagged_neighbors(list, t.edges(), t.edge_is_boundary@, vi);
        if b.len() < 2 {
            original
        } else {
            let smooth = seq![(vi, S::ratio_of(3, 4)), (b[0], S::ratio_of(1, 8)), (b[1], S::ratio_of(1, 8))];
            if positive(corner) {
                mixed(smooth, original, clamped(corner))
            } else {
                smooth
            }
        }
    } else if list.len() == 0 {
        original
    } else {
        sharp_row(
            vi,
            smooth_vertex_row::<S>(vi, list, t.edges()),
            original,
            corner,
            sharp_neighbors(list, t.edges(), level.effective_edge_creases@, vi),
        )
    }
}

fn smooth_vertex_stencil<S: Scalar>(v: u32, list: &[u32], edges: &[[u32; 2]]) -> (r: Vec<(u32, S)>)
    requires
        list@.len() <= u32::MAX,
        all_below(list@, edges@.len() as int),
    ensures
        r@ == smooth_vertex_row::<S>(v, list@, pairs(edges@)),
{
    let ghost pe = pairs(edges@);
    let n: S = S::ratio(list.len() as u32, 1);
    let beta: S = loop_beta(list.len() as u32);
    let mut smooth: Vec<(u32, S)> = Vec::new();
    smooth.push((v, one::<S>().minus(n.times(beta))));
    let ghost base = seq![(v, S::minus_of(one_of(), S::times_of(n, beta)))];
    assert(smooth@ =~= base);
    let mut k: usize = 0;
    assert(list@.take(0) =~= Seq::<u32>::empty());
    while k < list.len()
        invariant
            k <= list.len(),
            all_below(list@, edges@.len() as int),
            pe == pairs(edges@),
            smooth@ == neighbors_merged(base, list@.take(k as int), pe, v, beta),
        decreases list.len() - k,
    {
        assert(list@[k as int] < edges@.len());
        let e: usize = list[k] as usize;
        assert(pe[e as int] == (edges@[e as int]@[0], edges@[e as int]@[1]));
        let other: u32 = if edges[e][0] == v {
            edges[e][1]
        } else {
            edges[e][0]
        };
        merge(&mut smooth, &[(other, beta)], one());
        assert([(other, beta)]@ =~= seq![(other, beta)]);
        k += 1;
        assert(list@.take(k as int).drop_last() =~= list@.take(k - 1));
    }
    assert(list@.take(k as int) =~= list@);
    smooth
}

fn vertex_point_stencil<S: Scalar>(vi: usize, level: &LevelData<S>) -> (r: Vec<(u32, S)>)
    requires
        loop_wf(*level),
        vi < level.n(),
    ensures
        r@ == loop_vertex_row(*level, vi as int),
{
    let topo: &Topology<S> = &level.topo;
    let v: u32 = vi as u32;
    let corner: S = level.effective_vertex_corners[vi];
    if one::<S>().at_most(corner) {
        return identity_entry(v);
    }
    proof {
        assert(all_below(topo.vertex_edges@[vi as int], topo.edges().len() as int));
        assert(topo.vertex_edges@[vi as int].len() < u32::MAX);
        assert(all_below(topo.vertex_faces@[vi as int], topo.faces@.len() as int));
        lemma_edges_below(*topo, level.n(), vi as int);
        lemma_sharp_neighbors_below(
            topo.vertex_edges@[vi as int],
            topo.edges(),
            level.effective_edge_creases@,
            v,
            level.n(),
        );
    }
    let list: &[u32] = topo.vertex_edges.row(vi);
    if choose_flagged(topo.vertex_faces.row(vi), &level.face_selected).len() == 0 {
        return identity_entry(v);
    }
    if topo.vertex_is_boundary[vi] {
        let b: Vec<u32> = collect_neighbors(list, &topo.edge_vertices, &topo.edge_is_boundary, v);
        if b.len() < 2 {
            return identity_entry(v);
        }
        let mut smooth: Vec<(u32, S)> = Vec::new();
        smooth.push((v, S::ratio(3, 4)));
        smooth.push((b[0], S::ratio(1, 8)));
        smooth.push((b[1], S::ratio(1, 8)));
        assert(smooth@ =~= seq![(v, S::ratio_of(3, 4)), (b@[0], S::ratio_of(1, 8)), (b@[1], S::ratio_of(1, 8))]);
        if is_positive(corner) {
            let original: Vec<(u32, S)> = identity_entry(v);
            return mix(&smooth, &original, clamp(corner));
        }
        return smooth;
    }
    if list.len() == 0 {
        return identity_entry(v);
    }
    let smooth: Vec<(u32, S)> = smooth_vertex_stencil(v, list, &topo.edge_vertices);
    let original: Vec<(u32, S)> = identity_entry(v);
    let sharp: Vec<(u32, S)> = collect_sharp_neighbors(
        list,
        &topo.edge_vertices,
        &level.effective_edge_creases,
        v,
    );
    sharp_vertex_stencil_osd(v, &smooth, &original, corner, &sharp)
}

// ---------------------------------------------------------------------------
// The table
// ---------------------------------------------------------------------------
pub open spec fn loop_edge_rows<S: Scalar>(level: LevelData<S>) -> Seq<Seq<(u32, S)>> {
    Seq::new(level.topo.edges().len(), |e: int| loop_edge_row(level, e))
}

pub open spec fn loop_vertex_rows<S: Scalar>(level: LevelData<S>) -> Seq<Seq<(u32, S)>> {
    Seq::new(level.n(), |v: int| loop_vertex_row(level, v))
}

/// The rows of a level: edge points, vertex points.
pub open spec fn loop_rows<S: Scalar>(level: LevelData<S>) -> Seq<Seq<(u32, S)>> {
    loop_edge_rows(level) + loop_vertex_rows(level)
}

proof fn lemma_neighbors_merged_below<S: Scalar>(
    base: Seq<(u32, S)>,
    list: Seq<u32>,
    edges: Seq<EdgeKey>,
    v: u32,
    weight: S,
    n: nat,
)
    requires
        row_below(base, n),
        all_below(list, edges.len() as int),
        forall|e: int| 0 <= e < edges.len() ==> (#[trigger] edges[e]).0 < n && edges[e].1 < n,
    ensures
        row_below(neighbors_merged(base, list, edges, v, weight), n),
    decreases list.len(),
{
    if list.len() > 0 {
        let front = list.drop_last();
        assert(all_below(front, edges.len() as int)) by {
            assert forall|k: int| 0 <= k < front.len() implies (#[trigger] front[k]) < edges.len() by {
                assert(list[k] < edges.len());
            }
        }
        lemma_neighbors_merged_below(base, front, edges, v, weight, n);
        assert(list[list.len() - 1] < edges.len());
        let other = other_end(edges[list.last() as int], v);
        lemma_merged_below(neighbors_merged(base, front, edges, v, weight), seq![(other, weight)], one_of(), n);
    }
}

proof fn lemma_loop_vertex_row_below<S: Scalar>(level: LevelData<S>, v: int)
    requires
        loop_wf(level),
        0 <= v < level.n(),
    ensures
        row_below(loop_vertex_row(level, v), level.n()),
{
    let t = level.topo;
    let n = level.n();
    let vi = v as u32;
    let list = t.vertex_edges@[v];
    let corner = level.effective_vertex_corners@[v];
    let original = identity_row::<S>(vi);
    lemma_edges_below(t, n, v);
    assert(all_below(list, t.edges().len() as int));
    lemma_flagged_neighbors_below(list, t.edges(), t.edge_is_boundary@, vi, n);
    let b = flagged_neighbors(list, t.edges(), t.edge_is_boundary@, vi);
    if b.len() >= 2 {
        assert(b[0] < n && b[1] < n);
        let smooth = seq![(vi, S::ratio_of(3, 4)), (b[0], S::ratio_of(1, 8)), (b[1], S::ratio_of(1, 8))];
        lemma_mixed_below(smooth, original, clamped(corner), n);
    }
    let nn = S::ratio_of(list.len() as u32, 1);
    let beta = beta_of::<S>(list.len());
    lemma_neighbors_merged_below(
        seq![(vi, S::minus_of(one_of(), S::times_of(nn, beta)))],
        list,
        t.edges(),
        vi,
        beta,
        n,
    );
    lemma_sharp_neighbors_below(list, t.edges(), level.effective_edge_creases@, vi, n);
    lemma_sharp_row_below(
        vi,
        smooth_vertex_row::<S>(vi, list, t.edges()),
        original,
        corner,
        sharp_neighbors(list, t.edges(), level.effective_edge_creases@, vi),
        n,
    );
}

proof fn lemma_smooth_edge_below<S: Scalar>(edge: EdgeKey, f0: Seq<u32>, f1: Seq<u32>, crease: S, n: nat)
    requires
        edge.0 < n,
        edge.1 < n,
        all_below(f0, n as int),
        all_below(f1, n as int),
    ensures
        row_below(
            blended_edge_row(smooth_edge_row::<S>(edge, f0, f1), midpoint_row(edge), clamped(crease)),
            n,
        ),
{
    lemma_opposite_below(f0, edge, n);
    lemma_opposite_below(f1, edge, n);
    let smooth = smooth_edge_row::<S>(edge, f0, f1);
    let o0 = opposite_of(f0, edge);
    let o1 = opposite_of(f1, edge);
    assert(row_below(midpoint_row::<S>(edge), n));
    assert(row_below(smooth, n)) by {
        if o0 is Some && o1 is Some {
            assert(smooth[2].0 < n && smooth[3].0 < n);
        }
    }
    lemma_mixed_below(smooth, midpoint_row::<S>(edge), clamped(crease), n);
}

proof fn lemma_loop_edge_row_below<S: Scalar>(level: LevelData<S>, e: int)
    requires
        level.topo.edges()[e].0 < level.n(),
        level.topo.edges()[e].1 < level.n(),
        level.topo.edge_faces@[e].len() >= 2 ==> all_below(
            level.topo.faces@[level.topo.edge_faces@[e][0] as int],
            level.n() as int,
        ) && all_below(level.topo.faces@[level.topo.edge_faces@[e][1] as int], level.n() as int),
    ensures
        row_below(loop_edge_row(level, e), level.n()),
{
    let t = level.topo;
    let edge = t.edges()[e];
    let row = t.edge_faces@[e];
    if row.len() >= 2 {
        lemma_smooth_edge_below::<S>(
            edge,
            t.faces@[row[0] as int],
            t.faces@[row[1] as int],
            level.effective_edge_creases@[e],
            level.n(),
        );
    }
    assert(row_below(midpoint_row::<S>(edge), level.n()));
}

/// The stencils of a level read vertices of the level only, and there is one
/// for each vertex of the refined mesh.
pub proof fn loop_rows_fit<S: Scalar>(level: LevelData<S>)
    requires
        loop_wf(level),
    ensures
        rows_below(loop_rows(level), level.n()),
        loop_rows(level).len() == super::topology::parent_of(level.topo, level.n()).refined_vertex_count(),
{
    let rows = loop_rows(level);
    let ne = level.topo.edges().len();
    assert forall|i: int| 0 <= i < rows.len() implies row_below(#[trigger] rows[i], level.n()) by {
        if i < ne {
            lemma_edge_ends(level.topo, level.n(), i);
            lemma_loop_edge_row_below(level, i);
        } else {
            lemma_loop_vertex_row_below(level, i - ne);
        }
    }
}

/// The vertex stencils of a level.
pub fn vertex_stencils_from_level<S: Scalar>(parent: &LevelData<S>) -> (r: StencilTable<S>)
    requires
        loop_wf(*parent),
    ensures
        written_from(r, loop_rows(*parent)),
{
    StencilTable::from_rows(&vertex_row_lists(parent))
}

/// The rows of the vertex stencils of a level.
pub(crate) fn vertex_row_lists<S: Scalar>(parent: &LevelData<S>) -> (r: Vec<Vec<(u32, S)>>)
    requires
        loop_wf(*parent),
    ensures
        views(r@) == loop_rows(*parent),
{
    let ghost rows = loop_rows(*parent);
    let edge_count: usize = parent.topo.edge_vertices.len();
    let n: usize = parent.mesh.vertex_count as usize;
    let mut all: Vec<Vec<(u32, S)>> = Vec::new();
    let mut ei: usize = 0;
    while ei < edge_count
        invariant
            ei <= edge_count,
            edge_count == parent.topo.edges().len(),
            loop_wf(*parent),
            rows == loop_rows(*parent),
            views(all@) == rows.take(ei as int),
        decreases edge_count - ei,
    {
        let row: Vec<(u32, S)> = edge_point_stencil(ei, parent);
        let ghost before = views(all@);
        all.push(row);
        assert(views(all@) =~= before.push(row@));
        ei += 1;
        assert(views(all@) =~= rows.take(ei as int));
    }
    let mut vi: usize = 0;
    while vi < n
        invariant
            vi <= n,
            n == parent.n(),
            edge_count == parent.topo.edges().len(),
            loop_wf(*parent),
            rows == loop_rows(*parent),
            views(all@) == rows.take(edge_count + vi),
        decreases n - vi,
    {
        let row: Vec<(u32, S)> = vertex_point_stencil(vi, parent);
        let ghost before = views(all@);
        all.push(row);
        assert(views(all@) =~= before.push(row@));
        vi += 1;
        assert(views(all@) =~= rows.take(edge_count + vi));
    }
    assert(rows.take(edge_count + vi) =~= rows);
    all
}

} // verus!
