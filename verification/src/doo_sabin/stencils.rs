//! The vertex stencils of one Doo-Sabin level.

use crate::connectivity::lemma_same_starts;
use crate::csr::lemma_row_within_flat;
use crate::incidence::Topology;
use crate::level::LevelData;
use crate::options::SchemeOptions;
use crate::rows::{flat, lemma_flat_take_next, views};
use crate::rules::{corner_blend, cornered_row, creases_at, lemma_cornered_below, lemma_edges_below};
use crate::scalar::{one, one_of, zero, zero_of, Scalar};
use crate::sharpness::{
    auto_corner_of, collect_sharp_neighbors, lemma_sharp_neighbors_below, lemma_sharp_row_below, sharp_neighbors,
    sharp_row, sharp_vertex_stencil_osd,
};
use crate::stencil::{
    identity_entry, identity_row, lemma_mixed_below, mix, mixed, row_below, rows_below, written_from, StencilTable,
};
use crate::topology::all_below;
use vstd::prelude::*;

verus! {

/// Weight of corner `j` in the point of corner `i` of a face of `n` corners.
pub open spec fn corner_weight<S: Scalar>(n: nat, i: int, j: int) -> S {
    let count = S::ratio_of(n as u32, 1);
    let quarter = S::times_of(S::ratio_of(4, 1), count);
    if i == j {
        S::over_of(S::plus_of(count, S::ratio_of(5, 1)), quarter)
    } else {
        let apart = if i < j {
            j - i
        } else {
            i - j
        };
        S::over_of(
            S::plus_of(
                S::ratio_of(3, 1),
                S::times_of(S::ratio_of(2, 1), S::cos_turn_of(apart as u64, n as u64)),
            ),
            quarter,
        )
    }
}

/// The smooth rule of corner `i` of a face.
pub open spec fn smooth_corner_row<S: Scalar>(face: Seq<u32>, i: int) -> Seq<(u32, S)> {
    Seq::new(face.len(), |j: int| (face[j], corner_weight::<S>(face.len(), i, j)))
}

fn smooth_corner_stencil<S: Scalar>(face: &[u32], i: usize) -> (r: Vec<(u32, S)>)
    requires
        i < face@.len() <= u32::MAX,
    ensures
        r@ == smooth_corner_row::<S>(face@, i as int),
{
    let ghost all = smooth_corner_row::<S>(face@, i as int);
    let n: u32 = face.len() as u32;
    let count: S = S::ratio(n, 1);
    let quarter: S = S::ratio(4, 1).times(count);
    let mut out: Vec<(u32, S)> = Vec::new();
    let mut j: usize = 0;
    while j < face.len()
        invariant
            j <= face.len(),
            i < face@.len() <= u32::MAX,
            n == face@.len(),
            count == S::ratio_of(n, 1),
            quarter == S::times_of(S::ratio_of(4, 1), count),
            all == smooth_corner_row::<S>(face@, i as int),
            out@ == all.take(j as int),
        decreases face.len() - j,
    {
        let weight: S = if i == j {
            count.plus(S::ratio(5, 1)).over(quarter)
        } else {
            let apart: usize = if i < j {
                j - i
            } else {
                i - j
            };
            S::ratio(3, 1).plus(S::ratio(2, 1).times(S::cos_turn(apart as u64, n as u64))).over(quarter)
        };
        out.push((face[j], weight));
        j += 1;
        assert(out@ =~= all.take(j as int));
    }
    assert(out@ =~= all);
    out
}

/// The corner that creases make of a vertex, if they may.
pub open spec fn implicit_corner<S: Scalar>(auto: bool, list: Seq<u32>, creases: Seq<S>) -> S {
    if auto {
        auto_corner_of(creases_at(list, creases))
    } else {
        zero_of()
    }
}

fn effective_corner_raw<S: Scalar>(auto: bool, list: &[u32], creases: &[S]) -> (r: S)
    requires
        all_below(list@, creases@.len() as int),
        list@.len() <= u32::MAX,
    ensures
        r == implicit_corner(auto, list@, creases@),
{
    if !auto {
        return zero();
    }
    let ghost all = creases_at(list@, creases@);
    let mut incident: Vec<S> = Vec::new();
    let mut k: usize = 0;
    while k < list.len()
        invariant
            k <= list.len(),
            all_below(list@, creases@.len() as int),
            all == creases_at(list@, creases@),
            incident@ == all.take(k as int),
        decreases list.len() - k,
    {
        assert(list@[k as int] < creases@.len());
        incident.push(creases[list[k] as usize]);
        k += 1;
        assert(incident@ =~= all.take(k as int));
    }
    assert(incident@ =~= all);
    crate::sharpness::auto_corner_sharpness(&incident)
}

/// How many neighbours have a crease of at least one.
pub open spec fn fully_sharp<S: Scalar>(neighbors: Seq<(u32, S)>) -> nat
    decreases neighbors.len(),
{
    if neighbors.len() == 0 {
        0
    } else {
        fully_sharp(neighbors.drop_last()) + if S::at_most_of(one_of(), neighbors.last().1) {
            1nat
        } else {
            0
        }
    }
}

/// The least crease, at most one.
pub open spec fn least_crease<S: Scalar>(neighbors: Seq<(u32, S)>) -> S
    decreases neighbors.len(),
{
    if neighbors.len() == 0 {
        one_of()
    } else {
        let front = least_crease(neighbors.drop_last());
        if S::less_of(neighbors.last().1, front) {
            neighbors.last().1
        } else {
            front
        }
    }
}

/// The sharp rule of a vertex and its share, if two of its creases are fully
/// sharp.
pub open spec fn sharp_data<S: Scalar>(level: LevelData<S>, options: SchemeOptions, v: int) -> Option<(
    Seq<(u32, S)>,
    S,
)> {
    let t = level.topo;
    let vi = v as u32;
    let sharp = sharp_neighbors(t.vertex_edges@[v], t.edges(), level.effective_edge_creases@, vi);
    if fully_sharp(sharp) < 2 {
        None
    } else {
        let own = identity_row::<S>(vi);
        let corner = implicit_corner(options.auto_corner, t.vertex_edges@[v], level.effective_edge_creases@);
        Some((cornered_row(sharp_row(vi, own, own, zero_of(), sharp), vi, corner), least_crease(sharp)))
    }
}

/// The point of corner `i` of face `f`.
pub open spec fn ds_row<S: Scalar>(level: LevelData<S>, options: SchemeOptions, f: int, i: int) -> Seq<(u32, S)> {
    let t = level.topo;
    let face = t.faces@[f];
    let v = face[i];
    let smooth = if level.face_selected@[f] {
        smooth_corner_row::<S>(face, i)
    } else {
        identity_row::<S>(v)
    };
    match sharp_data(level, options, v as int) {
        Some((row, share)) => mixed(smooth, row, share),
        None => {
            let implicit = implicit_corner(
                options.auto_corner,
                t.vertex_edges@[v as int],
                level.effective_edge_creases@,
            );
            cornered_row(smooth, v, S::larger_of(implicit, level.mesh.vertex_corners@[v as int]))
        },
    }
}

pub open spec fn ds_face_rows<S: Scalar>(level: LevelData<S>, options: SchemeOptions) -> Seq<Seq<Seq<(u32, S)>>> {
    Seq::new(
        level.topo.faces@.len(),
        |f: int| Seq::new(level.topo.faces@[f].len(), |i: int| ds_row(level, options, f, i)),
    )
}

/// The rows of a level: one per corner, face by face.
pub open spec fn ds_rows<S: Scalar>(level: LevelData<S>, options: SchemeOptions) -> Seq<Seq<(u32, S)>> {
    flat(ds_face_rows(level, options))
}

fn compute_sharp_vertex_data<S: Scalar>(level: &LevelData<S>, options: &SchemeOptions, vi: usize) -> (r: Option<(
    Vec<(u32, S)>,
    S,
)>)
    requires
        level.wf(),
        vi < level.n(),
    ensures
        match r {
            Some((row, share)) => sharp_data(*level, *options, vi as int) == Some((row@, share)),
            None => sharp_data(*level, *options, vi as int) is None,
        },
{
    let topo: &Topology<S> = &level.topo;
    let v: u32 = vi as u32;
    proof {
        assert(all_below(topo.vertex_edges@[vi as int], topo.edges().len() as int));
        assert(topo.vertex_edges@[vi as int].len() < u32::MAX);
        lemma_edges_below(*topo, level.n(), vi as int);
        lemma_sharp_neighbors_below(
            topo.vertex_edges@[vi as int],
            topo.edges(),
            level.effective_edge_creases@,
            v,
            level.n(),
        );
    }
    let list: &[u32] = topo.vertex_edges.row(vi);
    let sharp: Vec<(u32, S)> = collect_sharp_neighbors(
        list,
        &topo.edge_vertices,
        &level.effective_edge_creases,
        v,
    );
    let mut full: usize = 0;
    let mut least: S = one();
    let mut k: usize = 0;
    assert(sharp@.take(0) =~= Seq::<(u32, S)>::empty());
    while k < sharp.len()
        invariant
            k <= sharp.len(),
            full == fully_sharp(sharp@.take(k as int)),
            full <= k,
            least == least_crease(sharp@.take(k as int)),
        decreases sharp.len() - k,
    {
        let c: S = sharp[k].1;
        assert(sharp@.take(k + 1).drop_last() =~= sharp@.take(k as int));
        if one::<S>().at_most(c) {
            full += 1;
        }
        if c.less(least) {
            least = c;
        }
        k += 1;
    }
    assert(sharp@.take(k as int) =~= sharp@);
    if full < 2 {
        return None;
    }
    let own: Vec<(u32, S)> = identity_entry(v);
    let row: Vec<(u32, S)> = sharp_vertex_stencil_osd(v, &own, &own, zero(), &sharp);
    let corner: S = effective_corner_raw(options.auto_corner, list, &level.effective_edge_creases);
    Some((corner_blend(row, v, corner), least))
}

/// The point of a corner.
fn corner_stencil<S: Scalar>(
    level: &LevelData<S>,
    options: &SchemeOptions,
    face: &[u32],
    f: usize,
    i: usize,
) -> (r: Vec<(u32, S)>)
    requires
        level.wf(),
        f < level.topo.faces@.len(),
        face@ == level.topo.faces@[f as int],
        i < face@.len() <= u32::MAX,
    ensures
        r@ == ds_row(*level, *options, f as int, i as int),
{
    let topo: &Topology<S> = &level.topo;
    let v: u32 = face[i];
    proof {
        assert(topo.faces@[f as int].len() >= 3 && all_below(topo.faces@[f as int], level.n() as int));
        assert(face@[i as int] < level.n());
        assert(all_below(topo.vertex_edges@[v as int], topo.edges().len() as int));
        assert(topo.vertex_edges@[v as int].len() < u32::MAX);
    }
    let smooth: Vec<(u32, S)> = if level.face_selected[f] {
        smooth_corner_stencil(face, i)
    } else {
        identity_entry(v)
    };
    match compute_sharp_vertex_data(level, options, v as usize) {
        Some((row, share)) => mix(&smooth, &row, share),
        None => {
            let implicit: S = effective_corner_raw(
                options.auto_corner,
                topo.vertex_edges.row(v as usize),
                &level.effective_edge_creases,
            );
            corner_blend(smooth, v, implicit.larger(level.mesh.vertex_corners[v as usize]))
        },
    }
}

/// The points of all corners.
pub(crate) fn face_vertex_stencils<S: Scalar>(level: &LevelData<S>, options: &SchemeOptions) -> (r: Vec<Vec<(u32, S)>>)
    requires
        level.wf(),
    ensures
        views(r@) == ds_rows(*level, *options),
{
    let ghost rows = ds_face_rows(*level, *options);
    let mut out: Vec<Vec<(u32, S)>> = Vec::new();
    let mut f: usize = 0;
    assert(rows.take(0) =~= Seq::<Seq<Seq<(u32, S)>>>::empty());
    assert(views(out@) =~= flat(rows.take(0)));
    while f < level.topo.faces.len()
        invariant
            f <= level.topo.faces@.len(),
            level.wf(),
            rows == ds_face_rows(*level, *options),
            views(out@) == flat(rows.take(f as int)),
        decreases level.topo.faces@.len() - f,
    {
        let face: &[u32] = level.topo.faces.row(f);
        let ghost before = views(out@);
        proof {
            lemma_row_within_flat(level.topo.faces@, f as int);
            lemma_flat_take_next(rows, f as int);
        }
        let mut i: usize = 0;
        assert(before + rows[f as int].take(0) =~= before);
        while i < face.len()
            invariant
                i <= face.len(),
                f < level.topo.faces@.len(),
                level.wf(),
                face@ == level.topo.faces@[f as int],
                face@.len() <= u32::MAX,
                rows == ds_face_rows(*level, *options),
                views(out@) == before + rows[f as int].take(i as int),
            decreases face.len() - i,
        {
            let row: Vec<(u32, S)> = corner_stencil(level, options, face, f, i);
            let ghost vb = views(out@);
            out.push(row);
            assert(views(out@) =~= vb.push(row@));
            i += 1;
            assert(views(out@) =~= before + rows[f as int].take(i as int));
        }
        assert(rows[f as int].take(i as int) =~= rows[f as int]);
        f += 1;
    }
    assert(rows.take(f as int) =~= rows);
    out
}

proof fn lemma_ds_row_below<S: Scalar>(level: LevelData<S>, options: SchemeOptions, f: int, i: int)
    requires
        level.wf(),
        0 <= f < level.topo.faces@.len(),
        0 <= i < level.topo.faces@[f].len(),
    ensures
        row_below(ds_row(level, options, f, i), level.n()),
{
    let t = level.topo;
    let n = level.n();
    let face = t.faces@[f];
    assert(face.len() >= 3 && all_below(face, n as int));
    let v = face[i];
    assert(v < n);
    let smooth = if level.face_selected@[f] {
        smooth_corner_row::<S>(face, i)
    } else {
        identity_row::<S>(v)
    };
    assert(row_below(smooth, n)) by {
        assert forall|k: int| 0 <= k < smooth.len() implies (#[trigger] smooth[k]).0 < n by {
            if level.face_selected@[f] {
                assert(face[k] < n);
            }
        }
    }
    let list = t.vertex_edges@[v as int];
    let own = identity_row::<S>(v);
    let sharp = sharp_neighbors(list, t.edges(), level.effective_edge_creases@, v);
    lemma_edges_below(t, n, v as int);
    lemma_sharp_neighbors_below(list, t.edges(), level.effective_edge_creases@, v, n);
    lemma_sharp_row_below(v, own, own, zero_of(), sharp, n);
    let implicit = implicit_corner(options.auto_corner, list, level.effective_edge_creases@);
    let row = cornered_row(sharp_row(v, own, own, zero_of(), sharp), v, implicit);
    lemma_cornered_below(sharp_row(v, own, own, zero_of(), sharp), v, implicit, n);
    lemma_mixed_below(smooth, row, least_crease(sharp), n);
    lemma_cornered_below(smooth, v, S::larger_of(implicit, level.mesh.vertex_corners@[v as int]), n);
}

/// The stencils of a level read vertices of the level only, and there is one
/// for each corner of the level.
pub proof fn ds_rows_fit<S: Scalar>(level: LevelData<S>, options: SchemeOptions)
    requires
        level.wf(),
    ensures
        rows_below(ds_rows(level, options), level.n()),
        ds_rows(level, options).len() == flat(level.topo.faces@).len(),
{
    let rows = ds_face_rows(level, options);
    lemma_same_starts(rows, level.topo.faces@, 0);
    assert forall|q: int| 0 <= q < flat(rows).len() implies row_below(#[trigger] flat(rows)[q], level.n()) by {
        let (f, i) = crate::incidence::lemma_flat_locate(rows, q);
        lemma_ds_row_below(level, options, f, i);
    }
}

/// The vertex stencils of a level.
pub fn vertex_stencils_from_level<S: Scalar>(parent: &LevelData<S>, options: &SchemeOptions) -> (r: StencilTable<S>)
    requires
        parent.wf(),
    ensures
        written_from(r, ds_rows(*parent, *options)),
{
    StencilTable::from_rows(&face_vertex_stencils(parent, options))
}

} // verus!
