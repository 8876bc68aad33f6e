//! The vertex stencils of one sqrt(3) level.

use crate::csr::{lemma_packed_fits, lemma_row_within_flat};
use crate::incidence::Topology;
use crate::level::LevelData;
use crate::options::SchemeOptions;
use crate::rows::views;
use crate::rules::{
    corner_at, corner_blend, cornered_row, effective_corner_at, face_point_stencils, face_rows, faces_merged,
    lemma_cornered_below, lemma_edges_below, lemma_face_row_below, lemma_faces_merged_below, merge_faces,
};
use crate::scalar::{one, one_of, Scalar};
use crate::sharpness::{
    choose_flagged, chosen, collect_neighbors, collect_sharp_neighbors, flagged_neighbors, lemma_chosen,
    lemma_flagged_neighbors_below, lemma_sharp_neighbors_below, lemma_sharp_row_below, sharp_neighbors, sharp_row,
    sharp_vertex_stencil_osd,
};
use crate::stencil::{
    identity_entry, identity_row, lemma_merged_below, merge, merged, row_below, rows_below, written_from, StencilTable,
};
use crate::topology::all_below;
use vstd::prelude::*;

verus! {

/// The share of the centroids around a vertex with `n` selected faces:
/// `(4 - 2 cos(1/n turn)) / 9`.
pub open spec fn alpha_of<S: Scalar>(n: nat) -> S {
    S::over_of(
        S::minus_of(
            S::ratio_of(4, 1),
            S::times_of(S::ratio_of(2, 1), S::cos_turn_of(1, n as u64)),
        ),
        S::ratio_of(9, 1),
    )
}

/// The rule of a boundary vertex with the given boundary neighbours.
pub open spec fn boundary_row<S: Scalar>(v: u32, b: Seq<u32>, corner: S) -> Seq<(u32, S)> {
    let eighth = S::ratio_of(1, 8);
    cornered_row(
        merged(merged(seq![(v, S::ratio_of(3, 4))], seq![(b[0], eighth)], one_of()), seq![(b[1], eighth)], one_of()),
        v,
        corner,
    )
}

/// The smooth rule: the vertex and the centroids of its selected faces.
pub open spec fn smooth_vertex_row<S: Scalar>(v: u32, faces: Seq<Seq<u32>>, list: Seq<u32>) -> Seq<(u32, S)> {
    let alpha = alpha_of::<S>(list.len());
    faces_merged(
        seq![(v, S::minus_of(one_of(), alpha))],
        list,
        faces,
        S::over_of(alpha, S::ratio_of(list.len() as u32, 1)),
    )
}

/// The point of vertex `v`.
pub open spec fn sqrt3_vertex_row<S: Scalar>(level: LevelData<S>, options: SchemeOptions, v: int) -> Seq<(u32, S)> {
    let t = level.topo;
    let vi = v as u32;
    let original = identity_row::<S>(vi);
    let edge_list = t.vertex_edges@[v];
    let corner = corner_at(
        level.mesh.vertex_corners@[v],
        options.auto_corner,
        edge_list,
        level.effective_edge_creases@,
    );
    let face_list = chosen(t.vertex_faces@[v], level.face_selected@);
    if S::at_most_of(one_of(), corner) || face_list.len() == 0 {
        original
    } else if t.vertex_is_boundary@[v] {
        let b = flagged_neighbors(edge_list, t.edges(), t.edge_is_boundary@, vi);
        if b.len() >= 2 {
            boundary_row(vi, b, corner)
        } else {
            original
        }
    } else {
        sharp_row(
            vi,
            smooth_vertex_row::<S>(vi, t.faces@, face_list),
            original,
            corner,
            sharp_neighbors(edge_list, t.edges(), level.effective_edge_creases@, vi),
        )
    }
}

pub open spec fn sqrt3_vertex_rows<S: Scalar>(level: LevelData<S>, options: SchemeOptions) -> Seq<Seq<(u32, S)>> {
    Seq::new(level.n(), |v: int| sqrt3_vertex_row(level, options, v))
}

/// The rows of a level: centroids, vertex points.
pub open spec fn sqrt3_rows<S: Scalar>(level: LevelData<S>, options: SchemeOptions) -> Seq<Seq<(u32, S)>> {
    face_rows::<S>(level.topo.faces@) + sqrt3_vertex_rows(level, options)
}

fn boundary_stencil<S: Scalar>(v: u32, b: &[u32], corner: S) -> (r: Vec<(u32, S)>)
    requires
        b@.len() >= 2,
    ensures
        r@ == boundary_row(v, b@, corner),
{
    let eighth: S = S::ratio(1, 8);
    let mut smooth: Vec<(u32, S)> = Vec::new();
    smooth.push((v, S::ratio(3, 4)));
    assert(smooth@ =~= seq![(v, S::ratio_of(3, 4))]);
    merge(&mut smooth, &[(b[0], eighth)], one());
    merge(&mut smooth, &[(b[1], eighth)], one());
    assert([(b@[0], eighth)]@ =~= seq![(b@[0], eighth)]);
    assert([(b@[1], eighth)]@ =~= seq![(b@[1], eighth)]);
    corner_blend(smooth, v, corner)
}

fn smooth_vertex_stencil<S: Scalar>(
    v: u32,
    list: &[u32],
    face_stencils: &[Vec<(u32, S)>],
    Ghost(faces): Ghost<Seq<Seq<u32>>>,
) -> (r: Vec<(u32, S)>)
    requires
        0 < list@.len() <= u32::MAX,
        all_below(list@, faces.len() as int),
        views(face_stencils@) == face_rows::<S>(faces),
    ensures
        r@ == smooth_vertex_row::<S>(v, faces, list@),
{
    let n: u32 = list.len() as u32;
    let alpha: S = S::ratio(4, 1).minus(S::ratio(2, 1).times(S::cos_turn(1, n as u64))).over(S::ratio(9, 1));
    let mut smooth: Vec<(u32, S)> = Vec::new();
    smooth.push((v, one::<S>().minus(alpha)));
    assert(smooth@ =~= seq![(v, S::minus_of(one_of(), alpha))]);
    merge_faces(&mut smooth, list, face_stencils, alpha.over(S::ratio(n, 1)), Ghost(faces));
    smooth
}

/// The point of a vertex.
fn vertex_point_stencil<S: Scalar>(
    vi: usize,
    level: &LevelData<S>,
    options: &SchemeOptions,
    face_stencils: &[Vec<(u32, S)>],
) -> (r: Vec<(u32, S)>)
    requires
        level.wf(),
        vi < level.n(),
        views(face_stencils@) == face_rows::<S>(level.topo.faces@),
    ensures
        r@ == sqrt3_vertex_row(*level, *options, vi as int),
{
    let topo: &Topology<S> = &level.topo;
    let v: u32 = vi as u32;
    proof {
        assert(all_below(topo.vertex_edges@[vi as int], topo.edges().len() as int));
        assert(topo.vertex_edges@[vi as int].len() < u32::MAX);
        assert(all_below(topo.vertex_faces@[vi as int], topo.faces@.len() as int));
        lemma_row_within_flat(topo.vertex_faces@, vi as int);
        lemma_packed_fits(topo.vertex_faces);
        lemma_edges_below(*topo, level.n(), vi as int);
        lemma_sharp_neighbors_below(
            topo.vertex_edges@[vi as int],
            topo.edges(),
            level.effective_edge_creases@,
            v,
            level.n(),
        );
    }
    let list: &[u32] = topo.vertex_edges.row(vi);
    let corner: S = effective_corner_at(
        level.mesh.vertex_corners[vi],
        options.auto_corner,
        list,
        &level.effective_edge_creases,
    );
    if one::<S>().at_most(corner) {
        return identity_entry(v);
    }
    let face_list: Vec<u32> = choose_flagged(topo.vertex_faces.row(vi), &level.face_selected);
    if face_list.len() == 0 {
        return identity_entry(v);
    }
    if topo.vertex_is_boundary[vi] {
        let b: Vec<u32> = collect_neighbors(list, &topo.edge_vertices, &topo.edge_is_boundary, v);
        if b.len() >= 2 {
            return boundary_stencil(v, &b, corner);
        }
        return identity_entry(v);
    }
    let smooth: Vec<(u32, S)> = smooth_vertex_stencil(v, &face_list, face_stencils, Ghost(topo.faces@));
    let original: Vec<(u32, S)> = identity_entry(v);
    let sharp: Vec<(u32, S)> = collect_sharp_neighbors(
        list,
        &topo.edge_vertices,
        &level.effective_edge_creases,
        v,
    );
    sharp_vertex_stencil_osd(v, &smooth, &original, corner, &sharp)
}

proof fn lemma_sqrt3_vertex_row_below<S: Scalar>(level: LevelData<S>, options: SchemeOptions, v: int)
    requires
        level.wf(),
        0 <= v < level.n(),
    ensures
        row_below(sqrt3_vertex_row(level, options, v), level.n()),
{
    let t = level.topo;
    let n = level.n();
    let vi = v as u32;
    let list = t.vertex_edges@[v];
    let corner = corner_at(
        level.mesh.vertex_corners@[v],
        options.auto_corner,
        list,
        level.effective_edge_creases@,
    );
    let face_list = chosen(t.vertex_faces@[v], level.face_selected@);
    let original = identity_row::<S>(vi);
    lemma_edges_below(t, n, v);
    assert(all_below(list, t.edges().len() as int));
    assert(all_below(t.vertex_faces@[v], t.faces@.len() as int));
    lemma_chosen(t.vertex_faces@[v], level.face_selected@, t.faces@.len() as int);
    lemma_flagged_neighbors_below(list, t.edges(), t.edge_is_boundary@, vi, n);
    let b = flagged_neighbors(list, t.edges(), t.edge_is_boundary@, vi);
    if b.len() >= 2 {
        assert(b[0] < n && b[1] < n);
        let eighth = S::ratio_of(1, 8);
        let base = seq![(vi, S::ratio_of(3, 4))];
        lemma_merged_below(base, seq![(b[0], eighth)], one_of(), n);
        lemma_merged_below(merged(base, seq![(b[0], eighth)], one_of()), seq![(b[1], eighth)], one_of(), n);
        lemma_cornered_below(
            merged(merged(base, seq![(b[0], eighth)], one_of()), seq![(b[1], eighth)], one_of()),
            vi,
            corner,
            n,
        );
    }
    assert forall|f: int| 0 <= f < t.faces@.len() implies all_below(#[trigger] t.faces@[f], n as int) by {
        assert(t.faces@[f].len() >= 3);
    }
    let alpha = alpha_of::<S>(face_list.len());
    lemma_faces_merged_below(
        seq![(vi, S::minus_of(one_of(), alpha))],
        face_list,
        t.faces@,
        S::over_of(alpha, S::ratio_of(face_list.len() as u32, 1)),
        n,
    );
    lemma_sharp_neighbors_below(list, t.edges(), level.effective_edge_creases@, vi, n);
    lemma_sharp_row_below(
        vi,
        smooth_vertex_row::<S>(vi, t.faces@, face_list),
        original,
        corner,
        sharp_neighbors(list, t.edges(), level.effective_edge_creases@, vi),
        n,
    );
}

/// The stencils of a level read vertices of the level only, and there is one
/// for each vertex of the refined mesh.
pub proof fn sqrt3_rows_fit<S: Scalar>(level: LevelData<S>, options: SchemeOptions)
    requires
        level.wf(),
    ensures
        rows_below(sqrt3_rows(level, options), level.n()),
        sqrt3_rows(level, options).len() == super::refine::parent_of(level).refined_vertex_count(),
{
    let rows = sqrt3_rows(level, options);
    let nf = level.topo.faces@.len();
    assert forall|i: int| 0 <= i < rows.len() implies row_below(#[trigger] rows[i], level.n()) by {
        if i < nf {
            assert(level.topo.faces@[i].len() >= 3);
            lemma_face_row_below::<S>(level.topo.faces@[i], level.n());
        } else {
            lemma_sqrt3_vertex_row_below(level, options, i - nf);
        }
    }
}

/// The vertex stencils of a level.
pub fn vertex_stencils_from_level<S: Scalar>(parent: &LevelData<S>, options: &SchemeOptions) -> (r: StencilTable<S>)
    requires
        parent.wf(),
    ensures
        written_from(r, sqrt3_rows(*parent, *options)),
{
    StencilTable::from_rows(&vertex_row_lists(parent, options))
}

/// The rows of the vertex stencils of a level.
pub(crate) fn vertex_row_lists<S: Scalar>(parent: &LevelData<S>, options: &SchemeOptions) -> (r: Vec<Vec<(u32, S)>>)
    requires
        parent.wf(),
    ensures
        views(r@) == sqrt3_rows(*parent, *options),
{
    assert forall|f: int| 0 <= f < parent.topo.faces@.len() implies (#[trigger] parent.topo.faces@[f]).len()
        > 0 by {
        assert(parent.topo.faces@[f].len() >= 3);
    }
    let mut all: Vec<Vec<(u32, S)>> = face_point_stencils(&parent.topo.faces);
    let ghost vertex_rows = sqrt3_vertex_rows(*parent, *options);
    let mut vertex_points: Vec<Vec<(u32, S)>> = Vec::new();
    let n: usize = parent.mesh.vertex_count as usize;
    let mut vi: usize = 0;
    while vi < n
        invariant
            vi <= n,
            n == parent.n(),
            parent.wf(),
            views(all@) == face_rows::<S>(parent.topo.faces@),
            vertex_rows == sqrt3_vertex_rows(*parent, *options),
            views(vertex_points@) == vertex_rows.take(vi as int),
        decreases n - vi,
    {
        let row: Vec<(u32, S)> = vertex_point_stencil(vi, parent, options, &all);
        let ghost before = views(vertex_points@);
        vertex_points.push(row);
        assert(views(vertex_points@) =~= before.push(row@));
        vi += 1;
        assert(views(vertex_points@) =~= vertex_rows.take(vi as int));
    }
    assert(vertex_rows.take(vi as int) =~= vertex_rows);
    let ghost a = views(all@);
    let ghost b = views(vertex_points@);
    all.append(&mut vertex_points);
    assert(views(all@) =~= a + b);
    all
}

} // verus!
