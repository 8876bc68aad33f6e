//! Points, derivatives and weights of the limit surface anywhere on a refined
//! quad.

use crate::error::KernelError;
use crate::hashing::{sort_dedup, strictly_ascending};
use crate::isolation::{
    eval_ready, is_node, isolation_node, node_fails, node_is_ok, node_ok, IsolationNode, QuadrantChild,
};
use crate::limit::{
    corner_limit_sector, corner_rows_fit, corner_sector_of, quads_refused, DerivativeModel, SectorDerivatives,
};
use crate::options::{CornerRule, CreaseComputationMethod, SchemeOptions};
use crate::output::RefinementResult;
use crate::patch::{
    basis_of, derivative_of, grid_of, patch_of_quad, patch_outcome, patches_and_quads_agree, regular_quad, tensor_of,
    PatchTable, QuadClass,
};
use crate::ring::{edges_at, edges_slice, quad_at, quad_slice, quads_ok};
use crate::scalar::{one, one_of, zero, zero_of, Scalar, Wide};
use crate::sharpness::{infinite_of, is_positive, positive};
use crate::stencil::{row_below, rows_below, StencilTable};
use crate::topology::{all_below, Adjacency, Mesh};
use vstd::prelude::*;

verus! {

/// How many times a quad is cut out and refined before its nearest corner is
/// taken.
pub const MAX_ISOLATION_DEPTH: u32 = 20;

// ---------------------------------------------------------------------------
// Places in a quad
// ---------------------------------------------------------------------------
/// `t`, held between nought and one.
pub open spec fn clamped<W: Scalar>(t: W) -> W {
    if W::less_of(t, zero_of()) {
        zero_of()
    } else if W::less_of(one_of(), t) {
        one_of()
    } else {
        t
    }
}

pub(crate) fn clamp01<W: Scalar>(t: W) -> (r: W)
    ensures
        r == clamped(t),
{
    if t.less(zero()) {
        zero()
    } else if one::<W>().less(t) {
        one()
    } else {
        t
    }
}

pub open spec fn same_number<W: Scalar>(a: W, b: W) -> bool {
    W::at_most_of(a, b) && W::at_most_of(b, a)
}

pub(crate) fn is_same_number<W: Scalar>(a: W, b: W) -> (r: bool)
    ensures
        r == same_number(a, b),
{
    a.at_most(b) && b.at_most(a)
}

/// The corner on the far side in `u`, in `v`, in both or in neither.
pub open spec fn corner_number(far_u: bool, far_v: bool) -> int {
    if far_v {
        if far_u {
            2
        } else {
            3
        }
    } else {
        if far_u {
            1
        } else {
            0
        }
    }
}

pub(crate) fn corner_index(far_u: bool, far_v: bool) -> (r: usize)
    ensures
        r == corner_number(far_u, far_v),
        r < 4,
{
    match (far_u, far_v) {
        (false, false) => 0,
        (true, false) => 1,
        (true, true) => 2,
        (false, true) => 3,
    }
}

/// Which end of the unit interval a number is.
pub open spec fn end_of<W: Scalar>(t: W) -> Option<bool> {
    if same_number(t, zero_of()) {
        Some(false)
    } else if same_number(t, one_of()) {
        Some(true)
    } else {
        None
    }
}

pub(crate) fn find_end<W: Scalar>(t: W) -> (r: Option<bool>)
    ensures
        r == end_of(t),
{
    if is_same_number(t, zero()) {
        Some(false)
    } else if is_same_number(t, one()) {
        Some(true)
    } else {
        None
    }
}

/// The corner that a place is.
pub open spec fn exact_corner_of<W: Scalar>(uv: (W, W)) -> Option<int> {
    match (end_of(uv.0), end_of(uv.1)) {
        (Some(a), Some(b)) => Some(corner_number(a, b)),
        _ => None,
    }
}

fn exact_corner<W: Scalar>(uv: (W, W)) -> (r: Option<usize>)
    ensures
        match r {
            Some(c) => exact_corner_of(uv) == Some(c as int) && c < 4,
            None => exact_corner_of(uv) is None,
        },
{
    match (find_end(uv.0), find_end(uv.1)) {
        (Some(a), Some(b)) => Some(corner_index(a, b)),
        _ => None,
    }
}

/// The quadrant that a place is in; the lines between belong to the near side.
pub open spec fn quadrant_of<W: Scalar>(uv: (W, W)) -> int {
    let half = W::ratio_of(1, 2);
    corner_number(W::less_of(half, uv.0), W::less_of(half, uv.1))
}

fn quadrant<W: Scalar>(uv: (W, W)) -> (r: usize)
    ensures
        r == quadrant_of(uv),
        r < 4,
{
    let half: W = W::ratio(1, 2);
    corner_index(half.less(uv.0), half.less(uv.1))
}

/// The corner that is nearest to a place; the lines between belong to the far
/// side.
pub open spec fn nearest_corner_of<W: Scalar>(uv: (W, W)) -> int {
    let half = W::ratio_of(1, 2);
    corner_number(W::at_most_of(half, uv.0), W::at_most_of(half, uv.1))
}

fn nearest_corner<W: Scalar>(uv: (W, W)) -> (r: usize)
    ensures
        r == nearest_corner_of(uv),
        r < 4,
{
    let half: W = W::ratio(1, 2);
    corner_index(half.at_most(uv.0), half.at_most(uv.1))
}

// ---------------------------------------------------------------------------
// Quadrants of a quad
// ---------------------------------------------------------------------------
/// Where corner `k` of a quad is.
pub open spec fn corner_place<W: Scalar>(k: int) -> (W, W) {
    (
        if k == 1 || k == 2 {
            one_of()
        } else {
            zero_of()
        },
        if k == 2 || k == 3 {
            one_of()
        } else {
            zero_of()
        },
    )
}

pub(crate) fn corner_uv<W: Scalar>(k: usize) -> (r: (W, W))
    ensures
        r == corner_place::<W>(k as int),
{
    (
        if k == 1 || k == 2 {
            one()
        } else {
            zero()
        },
        if k == 2 || k == 3 {
            one()
        } else {
            zero()
        },
    )
}

pub open spec fn middle_of<W: Scalar>(a: (W, W), b: (W, W)) -> (W, W) {
    let half = W::ratio_of(1, 2);
    (W::times_of(W::plus_of(a.0, b.0), half), W::times_of(W::plus_of(a.1, b.1), half))
}

fn middle<W: Scalar>(a: (W, W), b: (W, W)) -> (r: (W, W))
    ensures
        r == middle_of(a, b),
{
    let half: W = W::ratio(1, 2);
    (a.0.plus(b.0).times(half), a.1.plus(b.1).times(half))
}

/// Where in its parent corner `i` of a quadrant is: the quadrant keeps corner
/// `k` of the parent as its corner `turn`.
pub open spec fn place_in_parent<W: Scalar>(turn: int, k: int, i: int) -> (W, W) {
    let half = W::ratio_of(1, 2);
    let here = corner_place::<W>(k);
    let step = (i + 4 - turn) % 4;
    if step == 0 {
        here
    } else if step == 1 {
        middle_of(here, corner_place((k + 1) % 4))
    } else if step == 2 {
        (half, half)
    } else {
        middle_of(here, corner_place((k + 3) % 4))
    }
}

fn parent_place<W: Scalar>(turn: usize, k: usize, i: usize) -> (r: (W, W))
    requires
        turn < 4,
        k < 4,
        i < 4,
    ensures
        r == place_in_parent::<W>(turn as int, k as int, i as int),
{
    let here: (W, W) = corner_uv(k);
    let step: usize = (i + 4 - turn) % 4;
    if step == 0 {
        here
    } else if step == 1 {
        middle(here, corner_uv((k + 1) % 4))
    } else if step == 2 {
        let half: W = W::ratio(1, 2);
        (half, half)
    } else {
        middle(here, corner_uv((k + 3) % 4))
    }
}

/// How a quadrant lies in its parent: where its origin is, and the matrix from
/// steps in the parent to steps in the quadrant.
pub struct Frame<W> {
    pub origin: (W, W),
    pub row_u: (W, W),
    pub row_v: (W, W),
}

pub open spec fn frame_of<W: Scalar>(turn: int, k: int) -> Frame<W> {
    let o = place_in_parent::<W>(turn, k, 0);
    let a = place_in_parent::<W>(turn, k, 1);
    let b = place_in_parent::<W>(turn, k, 3);
    let eu = (W::minus_of(a.0, o.0), W::minus_of(a.1, o.1));
    let ev = (W::minus_of(b.0, o.0), W::minus_of(b.1, o.1));
    let det = W::minus_of(W::times_of(eu.0, ev.1), W::times_of(ev.0, eu.1));
    Frame {
        origin: o,
        row_u: (W::over_of(ev.1, det), W::over_of(W::negated_of(ev.0), det)),
        row_v: (W::over_of(W::negated_of(eu.1), det), W::over_of(eu.0, det)),
    }
}

fn frame<W: Scalar>(turn: usize, k: usize) -> (r: Frame<W>)
    requires
        turn < 4,
        k < 4,
    ensures
        r == frame_of::<W>(turn as int, k as int),
{
    let o: (W, W) = parent_place(turn, k, 0);
    let a: (W, W) = parent_place(turn, k, 1);
    let b: (W, W) = parent_place(turn, k, 3);
    let eu: (W, W) = (a.0.minus(o.0), a.1.minus(o.1));
    let ev: (W, W) = (b.0.minus(o.0), b.1.minus(o.1));
    let det: W = eu.0.times(ev.1).minus(ev.0.times(eu.1));
    Frame {
        origin: o,
        row_u: (ev.1.over(det), ev.0.negated().over(det)),
        row_v: (eu.1.negated().over(det), eu.0.over(det)),
    }
}

impl<W: Scalar> Frame<W> {
    /// A place of the parent as a place of the quadrant.
    pub open spec fn inside(self, uv: (W, W)) -> (W, W) {
        let d = (W::minus_of(uv.0, self.origin.0), W::minus_of(uv.1, self.origin.1));
        (
            W::plus_of(W::times_of(self.row_u.0, d.0), W::times_of(self.row_u.1, d.1)),
            W::plus_of(W::times_of(self.row_v.0, d.0), W::times_of(self.row_v.1, d.1)),
        )
    }

    fn child_uv(&self, uv: (W, W)) -> (r: (W, W))
        ensures
            r == self.inside(uv),
    {
        let d: (W, W) = (uv.0.minus(self.origin.0), uv.1.minus(self.origin.1));
        (
            self.row_u.0.times(d.0).plus(self.row_u.1.times(d.1)),
            self.row_v.0.times(d.0).plus(self.row_v.1.times(d.1)),
        )
    }
}

/// `a * du + b * dv`
pub open spec fn combined<W: Scalar>(a: W, b: W, du: Seq<W>, dv: Seq<W>) -> Seq<W> {
    Seq::new(3, |c: int| W::plus_of(W::times_of(a, du[c]), W::times_of(b, dv[c])))
}

fn combine<W: Scalar>(a: W, b: W, du: &[W; 3], dv: &[W; 3]) -> (r: [W; 3])
    ensures
        r@ == combined(a, b, du@, dv@),
{
    let r: [W; 3] = [
        a.times(du[0]).plus(b.times(dv[0])),
        a.times(du[1]).plus(b.times(dv[1])),
        a.times(du[2]).plus(b.times(dv[2])),
    ];
    assert(r@ =~= combined(a, b, du@, dv@));
    r
}

// ---------------------------------------------------------------------------
// Corners that stay features
// ---------------------------------------------------------------------------
/// An edge of this sharpness stays sharp on every level.
pub open spec fn stays_sharp<S: Scalar>(s: S, options: SchemeOptions) -> bool {
    positive(s) && (options.crease_normalize || !S::finite_of(s) || (options.corner_rule
        == CornerRule::OpenSubdivDeRose && options.crease_computation == CreaseComputationMethod::Uniform
        && S::at_most_of(infinite_of(), s)))
}

/// Whether an edge of this sharpness stays sharp on every level.
pub fn persistent_sharp_edge<S: Scalar>(sharpness: S, options: &SchemeOptions) -> (r: bool)
    ensures
        r == stays_sharp(sharpness, *options),
{
    let unlimited: bool = match (options.corner_rule, options.crease_computation) {
        (CornerRule::OpenSubdivDeRose, CreaseComputationMethod::Uniform) => S::ratio(10, 1).at_most(sharpness),
        _ => false,
    };
    is_positive(sharpness) && (options.crease_normalize || !sharpness.is_finite() || unlimited)
}

/// A corner of this sharpness stays sharp on every level.
pub open spec fn stays_corner<S: Scalar>(s: S, options: SchemeOptions) -> bool {
    positive(s) && (options.corner_normalize || !S::finite_of(s) || (options.corner_rule
        == CornerRule::OpenSubdivDeRose && S::at_most_of(infinite_of(), s)))
}

fn persistent_corner<S: Scalar>(sharpness: S, options: &SchemeOptions) -> (r: bool)
    ensures
        r == stays_corner(sharpness, *options),
{
    let unlimited: bool = match options.corner_rule {
        CornerRule::OpenSubdivDeRose => S::ratio(10, 1).at_most(sharpness),
    };
    is_positive(sharpness) && (options.corner_normalize || !sharpness.is_finite() || unlimited)
}

/// Vertex `v` stays a feature however often it is refined.
pub open spec fn stays_feature<S: Scalar>(mesh: Mesh<S>, adj: Adjacency, options: SchemeOptions, v: int) -> bool {
    ||| adj.vertex_is_boundary@[v]
    ||| edges_at(adj, v).len() != 4
    ||| stays_corner(mesh.vertex_corners@[v], options)
    ||| exists|k: int|
        0 <= k < edges_at(adj, v).len() && stays_sharp(
            mesh.edge_creases@[#[trigger] edges_at(adj, v)[k] as int],
            options,
        )
}

fn persistent_feature_vertex<S: Scalar>(vi: usize, mesh: &Mesh<S>, adj: &Adjacency, options: &SchemeOptions) -> (r: bool)
    requires
        quads_ok(*mesh, *adj),
        vi < mesh.vertex_count,
    ensures
        r == stays_feature(*mesh, *adj, *options, vi as int),
{
    proof {
        reveal(quads_ok);
    }
    let edges: &[u32] = edges_slice(mesh, adj, vi);
    if adj.vertex_is_boundary[vi] || edges.len() != 4 || persistent_corner(mesh.vertex_corners[vi], options) {
        return true;
    }
    let mut k: usize = 0;
    while k < edges.len()
        invariant
            k <= edges.len(),
            edges@ == edges_at(*adj, vi as int),
            all_below(edges@, mesh.edge_creases@.len() as int),
            forall|j: int|
                0 <= j < k ==> !stays_sharp(
                    mesh.edge_creases@[#[trigger] edges_at(*adj, vi as int)[j] as int],
                    *options,
                ),
        decreases edges.len() - k,
    {
        assert(edges@[k as int] < mesh.edge_creases@.len());
        if persistent_sharp_edge(mesh.edge_creases[edges[k] as usize], options) {
            assert(stays_sharp(mesh.edge_creases@[edges_at(*adj, vi as int)[k as int] as int], *options));
            return true;
        }
        k += 1;
    }
    false
}

/// The corner whose limit is taken for a place.
pub open spec fn snap_target_of<S: Scalar, W: Wide<S>>(
    mesh: Mesh<S>,
    adj: Adjacency,
    options: SchemeOptions,
    face: u32,
    uv: (W, W),
) -> Option<int> {
    match exact_corner_of(uv) {
        Some(c) => if stays_feature(mesh, adj, options, quad_at(mesh, face as int)[c] as int) {
            Some(c)
        } else {
            None
        },
        None => None,
    }
}

fn snap_target<S: Scalar, W: Wide<S>>(
    uv: (W, W),
    face: u32,
    mesh: &Mesh<S>,
    adj: &Adjacency,
    options: &SchemeOptions,
) -> (r: Option<usize>)
    requires
        quads_ok(*mesh, *adj),
        face < mesh.face_vertex_counts@.len(),
    ensures
        match r {
            Some(c) => snap_target_of(*mesh, *adj, *options, face, uv) == Some(c as int) && c < 4,
            None => snap_target_of(*mesh, *adj, *options, face, uv) is None,
        },
{
    match exact_corner(uv) {
        Some(corner) => {
            let quad: &[u32] = quad_slice(mesh, Ghost(*adj), face as usize);
            assert(quad@[corner as int] < mesh.vertex_count);
            if persistent_feature_vertex(quad[corner] as usize, mesh, adj, options) {
                Some(corner)
            } else {
                None
            }
        },
        None => None,
    }
}

// ---------------------------------------------------------------------------
// The limit at a corner
// ---------------------------------------------------------------------------
/// Coordinate `c` of the first `k` entries of a row, applied.
pub open spec fn applied_sum<S: Scalar, W: Wide<S>>(row: Seq<(u32, S)>, positions: Seq<[S; 3]>, c: int, k: int) -> W
    decreases k,
{
    if k <= 0 {
        zero_of()
    } else {
        W::plus_of(
            applied_sum::<S, W>(row, positions, c, k - 1),
            W::times_of(W::widen_of(row[k - 1].1), W::widen_of(positions[row[k - 1].0 as int]@[c])),
        )
    }
}

pub open spec fn applied<S: Scalar, W: Wide<S>>(row: Seq<(u32, S)>, positions: Seq<[S; 3]>) -> Seq<W> {
    Seq::new(3, |c: int| applied_sum::<S, W>(row, positions, c, row.len() as int))
}

fn apply<S: Scalar, W: Wide<S>>(row: &[(u32, S)], positions: &[[S; 3]]) -> (r: [W; 3])
    requires
        row_below(row@, positions@.len()),
    ensures
        r@ == applied::<S, W>(row@, positions@),
{
    let mut x: W = zero();
    let mut y: W = zero();
    let mut z: W = zero();
    let mut k: usize = 0;
    while k < row.len()
        invariant
            k <= row.len(),
            row_below(row@, positions@.len()),
            x == applied_sum::<S, W>(row@, positions@, 0, k as int),
            y == applied_sum::<S, W>(row@, positions@, 1, k as int),
            z == applied_sum::<S, W>(row@, positions@, 2, k as int),
        decreases row.len() - k,
    {
        assert(row@[k as int].0 < positions@.len());
        let w: W = W::widen(row[k].1);
        let p: &[S; 3] = &positions[row[k].0 as usize];
        x = x.plus(w.times(W::widen(p[0])));
        y = y.plus(w.times(W::widen(p[1])));
        z = z.plus(w.times(W::widen(p[2])));
        k += 1;
    }
    let r: [W; 3] = [x, y, z];
    assert(r@ =~= applied::<S, W>(row@, positions@));
    r
}

/// A point and its two derivatives.
#[verifier::ext_equal]
pub struct SampleModel<S, W> {
    pub p: Seq<S>,
    pub du: Seq<W>,
    pub dv: Seq<W>,
}

pub type Sample<S, W> = ([S; 3], [W; 3], [W; 3]);

pub open spec fn sample_view<S, W>(s: Sample<S, W>) -> SampleModel<S, W> {
    SampleModel { p: s.0@, du: s.1@, dv: s.2@ }
}

pub open spec fn outcome_view<S, W>(r: Result<Sample<S, W>, KernelError>) -> Result<SampleModel<S, W>, KernelError> {
    match r {
        Ok(s) => Ok(sample_view(s)),
        Err(error) => Err(error),
    }
}

pub open spec fn turned_back<W: Scalar>(d: Seq<W>) -> Seq<W> {
    d.map_values(|x: W| W::negated_of(x))
}

fn turn_back<W: Scalar>(d: &[W; 3]) -> (r: [W; 3])
    ensures
        r@ == turned_back(d@),
{
    let r: [W; 3] = [d[0].negated(), d[1].negated(), d[2].negated()];
    assert(r@ =~= turned_back(d@));
    r
}

pub open spec fn narrowed<S: Scalar, W: Wide<S>>(d: Seq<W>) -> Seq<S> {
    d.map_values(|x: W| W::narrow_of(x))
}

pub(crate) fn narrow_all<S: Scalar, W: Wide<S>>(d: &[W; 3]) -> (r: [S; 3])
    ensures
        r@ == narrowed::<S, W>(d@),
{
    let r: [S; 3] = [d[0].narrow(), d[1].narrow(), d[2].narrow()];
    assert(r@ =~= narrowed::<S, W>(d@));
    r
}

pub open spec fn widened<S: Scalar, W: Wide<S>>(d: Seq<S>) -> Seq<W> {
    d.map_values(|x: S| W::widen_of(x))
}

pub(crate) fn widen_all<S: Scalar, W: Wide<S>>(d: &[S; 3]) -> (r: [W; 3])
    ensures
        r@ == widened::<S, W>(d@),
{
    let r: [W; 3] = [W::widen(d[0]), W::widen(d[1]), W::widen(d[2])];
    assert(r@ =~= widened::<S, W>(d@));
    r
}

/// The derivatives along the quad, from those along the two edges of a corner.
pub open spec fn along_quad<W: Scalar>(corner: int, d_out: Seq<W>, d_in: Seq<W>) -> (Seq<W>, Seq<W>) {
    if corner == 0 {
        (d_out, d_in)
    } else if corner == 1 {
        (turned_back(d_in), d_out)
    } else if corner == 2 {
        (turned_back(d_out), turned_back(d_in))
    } else {
        (d_in, turned_back(d_out))
    }
}

/// The sample at a corner of a quad.
pub open spec fn corner_sample<S: Scalar, W: Wide<S>>(
    mesh: Mesh<S>,
    adj: Adjacency,
    options: SchemeOptions,
    positions: Seq<[S; 3]>,
    face: u32,
    corner: int,
) -> Result<SampleModel<S, W>, KernelError> {
    match corner_sector_of::<S, W>(mesh, adj, options, face, corner) {
        Err(error) => Err(error),
        Ok((position, derivatives)) => {
            let (du, dv) = match derivatives {
                DerivativeModel::Parametric(d_out, d_in) => along_quad(
                    corner,
                    applied::<S, W>(d_out, positions),
                    applied::<S, W>(d_in, positions),
                ),
                DerivativeModel::Plane(t1, t2) => (applied::<S, W>(t1, positions), applied::<S, W>(t2, positions)),
            };
            Ok(SampleModel { p: narrowed::<S, W>(applied::<S, W>(position, positions)), du, dv })
        },
    }
}

fn snap_corner<S: Scalar, W: Wide<S>>(
    mesh: &Mesh<S>,
    adj: &Adjacency,
    options: &SchemeOptions,
    positions: &[[S; 3]],
    face: u32,
    corner: usize,
) -> (r: Result<Sample<S, W>, KernelError>)
    requires
        eval_ready(*mesh, *adj),
        face < mesh.face_vertex_counts@.len(),
        positions@.len() == mesh.vertex_count,
        corner < 4,
    ensures
        outcome_view(r) == corner_sample::<S, W>(*mesh, *adj, *options, positions@, face, corner as int),
{
    proof {
        corner_rows_fit::<S, W>(*mesh, *adj, *options, face, corner as int);
    }
    let (position, derivatives) = match corner_limit_sector::<S, W>(face, corner, mesh, adj, options) {
        Ok(sector) => sector,
        Err(error) => {
            return Err(error);
        },
    };
    let at: [W; 3] = apply::<S, W>(&position, positions);
    let p: [S; 3] = narrow_all::<S, W>(&at);
    match &derivatives {
        SectorDerivatives::Parametric { d_out, d_in } => {
            let out: [W; 3] = apply::<S, W>(d_out, positions);
            let inward: [W; 3] = apply::<S, W>(d_in, positions);
            if corner == 0 {
                Ok((p, out, inward))
            } else if corner == 1 {
                Ok((p, turn_back(&inward), out))
            } else if corner == 2 {
                Ok((p, turn_back(&out), turn_back(&inward)))
            } else {
                Ok((p, inward, turn_back(&out)))
            }
        },
        SectorDerivatives::Plane { tangent1, tangent2 } => Ok(
            (p, apply::<S, W>(tangent1, positions), apply::<S, W>(tangent2, positions)),
        ),
    }
}

// ---------------------------------------------------------------------------
// Samples
// ---------------------------------------------------------------------------
/// The sample of a regular quad.
pub open spec fn patch_sample<S: Scalar, W: Wide<S>>(
    points: Seq<u32>,
    uv: (W, W),
    positions: Seq<[S; 3]>,
) -> SampleModel<S, W> {
    let u = W::widen_of(W::narrow_of(uv.0));
    let v = W::widen_of(W::narrow_of(uv.1));
    SampleModel {
        p: tensor_of::<S, W>(points, basis_of(u), basis_of(v), positions),
        du: widened::<S, W>(tensor_of::<S, W>(points, derivative_of(u), basis_of(v), positions)),
        dv: widened::<S, W>(tensor_of::<S, W>(points, basis_of(u), derivative_of(v), positions)),
    }
}

/// The frame of quadrant `k` of a node.
pub open spec fn node_frame<S: Scalar, W: Scalar>(node: IsolationNode<S>, k: int) -> Frame<W> {
    frame_of::<W>(node.children@[k].turn as int, k)
}

/// A sample of a quadrant as a sample of the quad.
pub open spec fn in_parent<S, W: Scalar>(
    frame: Frame<W>,
    inner: Result<SampleModel<S, W>, KernelError>,
) -> Result<SampleModel<S, W>, KernelError> {
    match inner {
        Ok(s) => Ok(
            SampleModel {
                p: s.p,
                du: combined(frame.row_u.0, frame.row_v.0, s.du, s.dv),
                dv: combined(frame.row_u.1, frame.row_v.1, s.du, s.dv),
            },
        ),
        Err(error) => Err(error),
    }
}

/// `out` is the sample of quad `face` at `uv`: a regular quad is a patch, at a
/// feature corner it is the limit there, and any other quad is cut out and
/// refined, to go on in the quadrant of `uv`. After `left` such steps the nearest
/// corner stands in.
#[verifier::opaque]
pub open spec fn sampled<S: Scalar, W: Wide<S>>(
    mesh: Mesh<S>,
    adj: Adjacency,
    options: SchemeOptions,
    positions: Seq<[S; 3]>,
    face: u32,
    uv: (W, W),
    left: nat,
    out: Result<SampleModel<S, W>, KernelError>,
) -> bool
    decreases left,
{
    if regular_quad(mesh, adj, face as int) {
        out == Ok::<_, KernelError>(patch_sample::<S, W>(grid_of(mesh, adj, face as int, 4)->Ok_0, uv, positions))
    } else {
        match snap_target_of(mesh, adj, options, face, uv) {
            Some(corner) => out == corner_sample::<S, W>(mesh, adj, options, positions, face, corner),
            None => if left == 0 {
                out == corner_sample::<S, W>(mesh, adj, options, positions, face, nearest_corner_of(uv))
            } else {
                ||| out is Err && node_fails(mesh, adj, options, face, out->Err_0)
                ||| exists|node: IsolationNode<S>, inner: Result<SampleModel<S, W>, KernelError>| #[trigger]
                    is_node(mesh, adj, options, positions, face, node) && sampled::<S, W>(
                        node.refined.topology,
                        node.refined.adjacency,
                        options,
                        node.positions@,
                        node.children@[quadrant_of(uv)].face,
                        node_frame::<S, W>(node, quadrant_of(uv)).inside(uv),
                        (left - 1) as nat,
                        inner,
                    ) && out == #[trigger] in_parent(node_frame::<S, W>(node, quadrant_of(uv)), inner)
            },
        }
    }
}

/// The sample of a regular quad.
fn sample_patch<S: Scalar, W: Wide<S>>(
    mesh: &Mesh<S>,
    adj: &Adjacency,
    positions: &[[S; 3]],
    table: &PatchTable,
    face: u32,
    uv: (W, W),
) -> (r: Option<Sample<S, W>>)
    requires
        quads_ok(*mesh, *adj),
        table.of(*mesh, *adj),
        face < mesh.face_vertex_counts@.len(),
        positions@.len() == mesh.vertex_count,
    ensures
        r is Some <==> regular_quad(*mesh, *adj, face as int),
        r is Some ==> sample_view(r->Some_0) == patch_sample::<S, W>(
            grid_of(*mesh, *adj, face as int, 4)->Ok_0,
            uv,
            positions@,
        ),
{
    proof {
        patches_and_quads_agree(*mesh, *adj, face as int);
        if regular_quad(*mesh, *adj, face as int) {
            patch_of_quad(*mesh, *adj, face as int);
        }
    }
    match table.face_patch(face) {
        Some(patch) => {
            let at: [S; 2] = [uv.0.narrow(), uv.1.narrow()];
            let (p, du, dv) = table.eval_with_derivatives::<S, W>(patch as usize, at, positions);
            Some((p, widen_all::<S, W>(&du), widen_all::<S, W>(&dv)))
        },
        None => None,
    }
}

proof fn lemma_sampled_at_once<S: Scalar, W: Wide<S>>(
    mesh: Mesh<S>,
    adj: Adjacency,
    options: SchemeOptions,
    positions: Seq<[S; 3]>,
    face: u32,
    uv: (W, W),
    left: nat,
    out: Result<SampleModel<S, W>, KernelError>,
)
    requires
        if regular_quad(mesh, adj, face as int) {
            out == Ok::<_, KernelError>(
                patch_sample::<S, W>(grid_of(mesh, adj, face as int, 4)->Ok_0, uv, positions),
            )
        } else {
            match snap_target_of(mesh, adj, options, face, uv) {
                Some(corner) => out == corner_sample::<S, W>(mesh, adj, options, positions, face, corner),
                None => if left == 0 {
                    out == corner_sample::<S, W>(mesh, adj, options, positions, face, nearest_corner_of(uv))
                } else {
                    out is Err && node_fails(mesh, adj, options, face, out->Err_0)
                },
            }
        },
    ensures
        sampled::<S, W>(mesh, adj, options, positions, face, uv, left, out),
{
    reveal(sampled);
}

proof fn lemma_sampled_inside<S: Scalar, W: Wide<S>>(
    mesh: Mesh<S>,
    adj: Adjacency,
    options: SchemeOptions,
    positions: Seq<[S; 3]>,
    face: u32,
    uv: (W, W),
    left: nat,
    node: IsolationNode<S>,
    inner: Result<SampleModel<S, W>, KernelError>,
)
    requires
        !regular_quad(mesh, adj, face as int),
        snap_target_of(mesh, adj, options, face, uv) is None,
        left > 0,
        is_node(mesh, adj, options, positions, face, node),
        sampled::<S, W>(
            node.refined.topology,
            node.refined.adjacency,
            options,
            node.positions@,
            node.children@[quadrant_of(uv)].face,
            node_frame::<S, W>(node, quadrant_of(uv)).inside(uv),
            (left - 1) as nat,
            inner,
        ),
    ensures
        sampled::<S, W>(
            mesh,
            adj,
            options,
            positions,
            face,
            uv,
            left,
            in_parent(node_frame::<S, W>(node, quadrant_of(uv)), inner),
        ),
{
    reveal(sampled);
}

/// What a node offers for going on in a quadrant.
pub(crate) proof fn lemma_node_quadrant<S: Scalar>(node: IsolationNode<S>, parent_vertices: int, k: int)
    requires
        node_ok(node, parent_vertices),
        0 <= k < 4,
    ensures
        eval_ready(node.refined.topology, node.refined.adjacency),
        node.table.of(node.refined.topology, node.refined.adjacency),
        node.positions@.len() == node.refined.topology.vertex_count,
        node.children@.len() == 4,
        node.children@[k].face < node.refined.topology.face_vertex_counts@.len(),
        node.children@[k].turn < 4,
{
    reveal(node_ok);
}

fn sample<S: Scalar, W: Wide<S>>(
    mesh: &Mesh<S>,
    adj: &Adjacency,
    options: &SchemeOptions,
    positions: &[[S; 3]],
    table: &PatchTable,
    face: u32,
    uv: (W, W),
    left: u32,
) -> (r: Result<Sample<S, W>, KernelError>)
    requires
        eval_ready(*mesh, *adj),
        table.of(*mesh, *adj),
        face < mesh.face_vertex_counts@.len(),
        positions@.len() == mesh.vertex_count,
    ensures
        sampled::<S, W>(*mesh, *adj, *options, positions@, face, uv, left as nat, outcome_view(r)),
    decreases left,
{
    if let Some(found) = sample_patch::<S, W>(mesh, adj, positions, table, face, uv) {
        let r: Result<Sample<S, W>, KernelError> = Ok(found);
        proof {
            lemma_sampled_at_once::<S, W>(
                *mesh,
                *adj,
                *options,
                positions@,
                face,
                uv,
                left as nat,
                outcome_view(r),
            );
        }
        return r;
    }
    if let Some(corner) = snap_target::<S, W>(uv, face, mesh, adj, options) {
        let r: Result<Sample<S, W>, KernelError> = snap_corner::<S, W>(mesh, adj, options, positions, face, corner);
        proof {
            lemma_sampled_at_once::<S, W>(
                *mesh,
                *adj,
                *options,
                positions@,
                face,
                uv,
                left as nat,
                outcome_view(r),
            );
        }
        return r;
    }
    if left == 0 {
        let corner: usize = nearest_corner(uv);
        let r: Result<Sample<S, W>, KernelError> = snap_corner::<S, W>(mesh, adj, options, positions, face, corner);
        proof {
            lemma_sampled_at_once::<S, W>(
                *mesh,
                *adj,
                *options,
                positions@,
                face,
                uv,
                left as nat,
                outcome_view(r),
            );
        }
        return r;
    }
    let k: usize = quadrant(uv);
    match isolation_node(mesh, adj, positions, face, options) {
        Ok(node) => {
            proof {
                node_is_ok(*mesh, *adj, *options, positions@, face, node);
                lemma_node_quadrant(node, mesh.vertex_count as int, k as int);
            }
            let child: QuadrantChild = node.children[k];
            let frame: Frame<W> = frame(child.turn, k);
            let inner: Result<Sample<S, W>, KernelError> = sample::<S, W>(
                &node.refined.topology,
                &node.refined.adjacency,
                options,
                &node.positions,
                &node.table,
                child.face,
                frame.child_uv(uv),
                left - 1,
            );
            proof {
                lemma_sampled_inside::<S, W>(
                    *mesh,
                    *adj,
                    *options,
                    positions@,
                    face,
                    uv,
                    left as nat,
                    node,
                    outcome_view(inner),
                );
            }
            move_out(&frame, inner)
        },
        Err(error) => {
            let r: Result<Sample<S, W>, KernelError> = Err(error);
            proof {
                lemma_sampled_at_once::<S, W>(
                    *mesh,
                    *adj,
                    *options,
                    positions@,
                    face,
                    uv,
                    left as nat,
                    outcome_view(r),
                );
            }
            r
        },
    }
}

/// A sample of a quadrant as a sample of the quad.
fn move_out<S: Scalar, W: Scalar>(frame: &Frame<W>, inner: Result<Sample<S, W>, KernelError>) -> (r: Result<
    Sample<S, W>,
    KernelError,
>)
    ensures
        outcome_view(r) == in_parent(*frame, outcome_view(inner)),
{
    match inner {
        Ok((p, du, dv)) => Ok(
            (p, combine(frame.row_u.0, frame.row_v.0, &du, &dv), combine(frame.row_u.1, frame.row_v.1, &du, &dv)),
        ),
        Err(error) => Err(error),
    }
}

// ---------------------------------------------------------------------------
// Rows of weights
// ---------------------------------------------------------------------------
pub open spec fn keys_of<W>(row: Seq<(u32, W)>) -> Seq<u32> {
    row.map_values(|e: (u32, W)| e.0)
}

/// The sum of the weights of `key` among the first `k` entries, in order.
pub open spec fn sum_for<W: Scalar>(entries: Seq<(u32, W)>, key: u32, k: int) -> W
    decreases k,
{
    if k <= 0 {
        zero_of()
    } else if entries[k - 1].0 == key {
        W::plus_of(sum_for(entries, key, k - 1), entries[k - 1].1)
    } else {
        sum_for(entries, key, k - 1)
    }
}

pub open spec fn total_for<W: Scalar>(entries: Seq<(u32, W)>, key: u32) -> W {
    sum_for(entries, key, entries.len() as int)
}

/// `out` holds each index of `entries` once, in ascending order, with the sum of
/// its weights.
pub open spec fn collected<W: Scalar>(entries: Seq<(u32, W)>, out: Seq<(u32, W)>) -> bool {
    &&& strictly_ascending(keys_of(out))
    &&& forall|x: u32| #[trigger] keys_of(out).contains(x) <==> keys_of(entries).contains(x)
    &&& forall|i: int| 0 <= i < out.len() ==> (#[trigger] out[i]).1 == total_for(entries, out[i].0)
}

/// `out` holds each index of `entries` whose weights do not sum up to nought
/// once, in ascending order, with the rounded sum.
pub open spec fn merged_row<S: Scalar, W: Wide<S>>(entries: Seq<(u32, W)>, out: Seq<(u32, S)>) -> bool {
    &&& strictly_ascending(keys_of(out))
    &&& forall|x: u32| #[trigger]
        keys_of(out).contains(x) <==> keys_of(entries).contains(x) && !same_number(
            total_for(entries, x),
            zero_of(),
        )
    &&& forall|i: int| 0 <= i < out.len() ==> (#[trigger] out[i]).1 == W::narrow_of(total_for(entries, out[i].0))
}

/// The indices of a row, in ascending order.
fn sorted_keys<W: Scalar>(entries: &[(u32, W)]) -> (r: Vec<u32>)
    ensures
        strictly_ascending(r@),
        forall|x: u32| #[trigger] r@.contains(x) <==> keys_of(entries@).contains(x),
{
    let ghost all = keys_of(entries@);
    let mut keys: Vec<u32> = Vec::new();
    let mut k: usize = 0;
    while k < entries.len()
        invariant
            k <= entries.len(),
            all == keys_of(entries@),
            keys@ == all.take(k as int),
        decreases entries.len() - k,
    {
        keys.push(entries[k].0);
        k += 1;
        assert(keys@ =~= all.take(k as int));
    }
    assert(keys@ =~= all);
    sort_dedup(&mut keys);
    proof {
        assert forall|x: u32| #[trigger] keys@.contains(x) <==> all.contains(x) by {
            assert(keys@.to_set().contains(x) <==> all.to_set().contains(x));
        }
    }
    keys
}

fn total<W: Scalar>(entries: &[(u32, W)], key: u32) -> (r: W)
    ensures
        r == total_for(entries@, key),
{
    let mut sum: W = zero();
    let mut k: usize = 0;
    while k < entries.len()
        invariant
            k <= entries.len(),
            sum == sum_for(entries@, key, k as int),
        decreases entries.len() - k,
    {
        if entries[k].0 == key {
            sum = sum.plus(entries[k].1);
        }
        k += 1;
    }
    sum
}

fn collect<W: Scalar>(entries: &[(u32, W)]) -> (r: Vec<(u32, W)>)
    ensures
        collected(entries@, r@),
{
    let keys: Vec<u32> = sorted_keys(entries);
    let mut out: Vec<(u32, W)> = Vec::new();
    let mut k: usize = 0;
    while k < keys.len()
        invariant
            k <= keys.len(),
            keys_of(out@) == keys@.take(k as int),
            forall|i: int| 0 <= i < out@.len() ==> (#[trigger] out@[i]).1 == total_for(entries@, out@[i].0),
        decreases keys.len() - k,
    {
        let ghost before = keys_of(out@);
        out.push((keys[k], total(entries, keys[k])));
        assert(keys_of(out@) =~= before.push(keys@[k as int]));
        k += 1;
        assert(keys_of(out@) =~= keys@.take(k as int));
    }
    assert(keys@.take(k as int) =~= keys@);
    out
}

/// Sums up the weights of each index and leaves out those that cancel.
pub fn merge_row<S: Scalar, W: Wide<S>>(row: &[(u32, W)]) -> (r: Vec<(u32, S)>)
    ensures
        merged_row::<S, W>(row@, r@),
{
    let keys: Vec<u32> = sorted_keys(row);
    let mut out: Vec<(u32, S)> = Vec::new();
    let mut k: usize = 0;
    while k < keys.len()
        invariant
            k <= keys.len(),
            strictly_ascending(keys@),
            strictly_ascending(keys_of(out@)),
            out@.len() > 0 ==> k > 0 && out@.last().0 <= keys@[k - 1],
            forall|x: u32| #[trigger]
                keys_of(out@).contains(x) <==> keys@.take(k as int).contains(x) && !same_number(
                    total_for(row@, x),
                    zero_of(),
                ),
            forall|i: int|
                0 <= i < out@.len() ==> (#[trigger] out@[i]).1 == W::narrow_of(total_for(row@, out@[i].0)),
        decreases keys.len() - k,
    {
        let key: u32 = keys[k];
        let sum: W = total(row, key);
        let ghost before = keys_of(out@);
        let ghost seen = keys@.take(k as int);
        let ghost now = keys@.take(k + 1);
        let keep: bool = !is_same_number(sum, zero());
        proof {
            assert(now =~= seen.push(key));
            if k > 0 {
                assert(keys@[k - 1] < keys@[k as int]);
            }
        }
        if keep {
            assert(out@.len() > 0 ==> out@.last().0 < key);
            assert(before.len() > 0 ==> before.last() == out@.last().0);
            out.push((key, sum.narrow()));
            assert(keys_of(out@) =~= before.push(key));
        }
        proof {
            assert forall|x: u32| #[trigger] keys_of(out@).contains(x) <==> now.contains(x) && !same_number(
                total_for(row@, x),
                zero_of(),
            ) by {
                lemma_push_contains(seen, key, x);
                lemma_push_contains(before, key, x);
                assert(before.contains(x) <==> seen.contains(x) && !same_number(total_for(row@, x), zero_of()));
            }
        }
        k += 1;
    }
    assert(keys@.take(k as int) =~= keys@);
    out
}

proof fn lemma_push_contains(s: Seq<u32>, key: u32, x: u32)
    ensures
        s.push(key).contains(x) <==> s.contains(x) || x == key,
{
    if s.contains(x) {
        let q = s.index_of(x);
        assert(s.push(key)[q] == x);
    }
    assert(s.push(key)[s.len() as int] == key);
    if s.push(key).contains(x) && x != key {
        let q = s.push(key).index_of(x);
        assert(s[q] == x);
    }
}

/// The entries of the first `k` entries of a row of refined vertices, carried
/// over to the vertices of the mesh that was refined.
pub open spec fn lifted_entries<S: Scalar, W: Wide<S>>(
    row: Seq<(u32, W)>,
    rows: Seq<Seq<(u32, S)>>,
    vertices: Seq<u32>,
    k: int,
) -> Seq<(u32, W)>
    decreases k,
{
    if k <= 0 {
        Seq::empty()
    } else {
        lifted_entries(row, rows, vertices, k - 1) + rows[row[k - 1].0 as int].map_values(
            |e: (u32, S)| (vertices[e.0 as int], W::times_of(row[k - 1].1, W::widen_of(e.1))),
        )
    }
}

/// A row of the refined vertices of a node as a row of the vertices of the mesh
/// that the node was cut from.
pub open spec fn lifted<S: Scalar, W: Wide<S>>(
    node: IsolationNode<S>,
    inner: Result<Seq<(u32, W)>, KernelError>,
    out: Result<Seq<(u32, W)>, KernelError>,
) -> bool {
    match inner {
        Err(error) => out == Err::<Seq<(u32, W)>, _>(error),
        Ok(row) => out is Ok && collected(
            lifted_entries(row, node.refined.level_stencils@[0]@, node.sub_vertices@, row.len() as int),
            out->Ok_0,
        ),
    }
}

pub(crate) proof fn lemma_lifted_below<S: Scalar, W: Wide<S>>(
    row: Seq<(u32, W)>,
    rows: Seq<Seq<(u32, S)>>,
    vertices: Seq<u32>,
    k: int,
    n: int,
)
    requires
        0 <= k <= row.len(),
        row_below(row, rows.len()),
        rows_below(rows, vertices.len()),
        all_below(vertices, n),
        n >= 0,
    ensures
        row_below(lifted_entries(row, rows, vertices, k), n as nat),
    decreases k,
{
    if k > 0 {
        lemma_lifted_below(row, rows, vertices, k - 1, n);
        let part = rows[row[k - 1].0 as int];
        assert(row[k - 1].0 < rows.len());
        assert(row_below(part, vertices.len()));
        let before = lifted_entries(row, rows, vertices, k - 1);
        let all = lifted_entries(row, rows, vertices, k);
        assert forall|i: int| 0 <= i < all.len() implies (#[trigger] all[i]).0 < n by {
            if i < before.len() {
                assert(all[i] == before[i]);
            } else {
                assert(part[i - before.len()].0 < vertices.len());
                assert(vertices[part[i - before.len()].0 as int] < n);
            }
        }
    }
}

pub(crate) proof fn lemma_collected_below<W: Scalar>(entries: Seq<(u32, W)>, out: Seq<(u32, W)>, n: nat)
    requires
        collected(entries, out),
        row_below(entries, n),
    ensures
        row_below(out, n),
{
    assert forall|i: int| 0 <= i < out.len() implies (#[trigger] out[i]).0 < n by {
        assert(keys_of(out)[i] == out[i].0);
        assert(keys_of(out).contains(out[i].0));
        let q = keys_of(entries).index_of(out[i].0);
        assert(keys_of(entries)[q] == entries[q].0);
        assert(entries[q].0 < n);
    }
}

fn lift_row<S: Scalar, W: Wide<S>>(row: &[(u32, W)], node: &IsolationNode<S>, Ghost(n): Ghost<int>) -> (r: Vec<(u32, W)>)
    requires
        node_ok(*node, n),
        n >= 0,
        row_below(row@, node.refined.topology.vertex_count as nat),
    ensures
        collected(
            lifted_entries(
                row@,
                node.refined.level_stencils@[0]@,
                node.sub_vertices@,
                row@.len() as int,
            ),
            r@,
        ),
        row_below(r@, n as nat),
{
    proof {
        reveal(node_ok);
    }
    let table: &StencilTable<S> = &node.refined.level_stencils[0];
    let vertices: &Vec<u32> = &node.sub_vertices;
    let ghost rows = table@;
    let mut entries: Vec<(u32, W)> = Vec::new();
    let mut k: usize = 0;
    while k < row.len()
        invariant
            k <= row.len(),
            table.wf(),
            rows == table@,
            row_below(row@, rows.len()),
            rows_below(rows, vertices@.len()),
            entries@ == lifted_entries(row@, rows, vertices@, k as int),
        decreases row.len() - k,
    {
        assert(row@[k as int].0 < rows.len());
        let (j, w) = row[k];
        let ghost part = rows[j as int].map_values(
            |e: (u32, S)| (vertices@[e.0 as int], W::times_of(w, W::widen_of(e.1))),
        );
        let start: usize = table.offsets[j as usize] as usize;
        let count: usize = table.offsets.len();
        assert(j + 1 < count);
        let end: usize = table.offsets[j as usize + 1] as usize;
        let ghost before = entries@;
        let mut at: usize = start;
        assert(row_below(rows[j as int], vertices@.len()));
        assert(entries@ =~= before + part.take(0));
        while at < end
            invariant
                start <= at <= end,
                end - start == part.len(),
                end <= table.indices@.len(),
                end <= table.weights@.len(),
                part == rows[j as int].map_values(
                    |e: (u32, S)| (vertices@[e.0 as int], W::times_of(w, W::widen_of(e.1))),
                ),
                forall|i: int|
                    0 <= i < rows[j as int].len() ==> #[trigger] rows[j as int][i] == (
                        table.indices@[start + i],
                        table.weights@[start + i],
                    ),
                row_below(rows[j as int], vertices@.len()),
                entries@ == before + part.take(at - start),
            decreases end - at,
        {
            assert(rows[j as int][at - start].0 < vertices@.len());
            entries.push((vertices[table.indices[at] as usize], w.times(W::widen(table.weights[at]))));
            at += 1;
            assert(entries@ =~= before + part.take(at - start));
        }
        assert(part.take(end - start) =~= part);
        k += 1;
    }
    let out: Vec<(u32, W)> = collect(&entries);
    proof {
        lemma_lifted_below::<S, W>(row@, rows, vertices@, row@.len() as int, n);
        lemma_collected_below(entries@, out@, n as nat);
    }
    out
}

/// The weights of the control points of a regular quad.
pub open spec fn patch_weights<S: Scalar, W: Wide<S>>(points: Seq<u32>, uv: (W, W)) -> Seq<(u32, W)> {
    let u = basis_of(W::widen_of(W::narrow_of(uv.0)));
    let v = basis_of(W::widen_of(W::narrow_of(uv.1)));
    Seq::new(16, |k: int| (points[k], W::times_of(u[k % 4], v[k / 4])))
}

pub open spec fn widened_row<S: Scalar, W: Wide<S>>(row: Seq<(u32, S)>) -> Seq<(u32, W)> {
    row.map_values(|e: (u32, S)| (e.0, W::widen_of(e.1)))
}

/// The weights of the limit at a corner of a quad.
pub open spec fn corner_weights<S: Scalar, W: Wide<S>>(
    mesh: Mesh<S>,
    adj: Adjacency,
    options: SchemeOptions,
    face: u32,
    corner: int,
) -> Result<Seq<(u32, W)>, KernelError> {
    match corner_sector_of::<S, W>(mesh, adj, options, face, corner) {
        Ok((position, _)) => Ok(widened_row::<S, W>(position)),
        Err(error) => Err(error),
    }
}

pub open spec fn row_outcome<W>(r: Result<Vec<(u32, W)>, KernelError>) -> Result<Seq<(u32, W)>, KernelError> {
    match r {
        Ok(row) => Ok(row@),
        Err(error) => Err(error),
    }
}

fn corner_row<S: Scalar, W: Wide<S>>(
    mesh: &Mesh<S>,
    adj: &Adjacency,
    options: &SchemeOptions,
    face: u32,
    corner: usize,
) -> (r: Result<Vec<(u32, W)>, KernelError>)
    requires
        eval_ready(*mesh, *adj),
        face < mesh.face_vertex_counts@.len(),
        corner < 4,
    ensures
        row_outcome(r) == corner_weights::<S, W>(*mesh, *adj, *options, face, corner as int),
        r is Ok ==> row_below(r->Ok_0@, mesh.vertex_count as nat),
{
    proof {
        corner_rows_fit::<S, W>(*mesh, *adj, *options, face, corner as int);
    }
    let (row, _) = match corner_limit_sector::<S, W>(face, corner, mesh, adj, options) {
        Ok(sector) => sector,
        Err(error) => {
            return Err(error);
        },
    };
    let ghost all = widened_row::<S, W>(row@);
    let mut out: Vec<(u32, W)> = Vec::new();
    let mut k: usize = 0;
    while k < row.len()
        invariant
            k <= row.len(),
            all == widened_row::<S, W>(row@),
            out@ == all.take(k as int),
        decreases row.len() - k,
    {
        out.push((row[k].0, W::widen(row[k].1)));
        k += 1;
        assert(out@ =~= all.take(k as int));
    }
    assert(out@ =~= all);
    Ok(out)
}

fn patch_row<S: Scalar, W: Wide<S>>(mesh: &Mesh<S>, Ghost(adj): Ghost<Adjacency>, table: &PatchTable, face: u32, uv: (W, W)) -> (r: Option<
    Vec<(u32, W)>,
>)
    requires
        quads_ok(*mesh, adj),
        table.of(*mesh, adj),
        face < mesh.face_vertex_counts@.len(),
    ensures
        r is Some <==> regular_quad(*mesh, adj, face as int),
        r is Some ==> r->Some_0@ == patch_weights::<S, W>(grid_of(*mesh, adj, face as int, 4)->Ok_0, uv) && row_below(
            r->Some_0@,
            mesh.vertex_count as nat,
        ),
{
    proof {
        patches_and_quads_agree(*mesh, adj, face as int);
        if regular_quad(*mesh, adj, face as int) {
            patch_of_quad(*mesh, adj, face as int);
        }
    }
    match table.face_patch(face) {
        Some(patch) => {
            let at: [S; 2] = [uv.0.narrow(), uv.1.narrow()];
            let row: Vec<(u32, W)> = table.position_weights::<S, W>(patch as usize, at);
            proof {
                let points = grid_of(*mesh, adj, face as int, 4)->Ok_0;
                assert(row@ =~= patch_weights::<S, W>(points, uv));
                assert forall|k: int| 0 <= k < row@.len() implies (#[trigger] row@[k]).0 < mesh.vertex_count by {
                    assert(points[k] < mesh.vertex_count);
                }
            }
            Some(row)
        },
        None => None,
    }
}

/// `out` is the row of weights of quad `face` at `uv`, found as the sample is.
#[verifier::opaque]
pub open spec fn weighed<S: Scalar, W: Wide<S>>(
    mesh: Mesh<S>,
    adj: Adjacency,
    options: SchemeOptions,
    positions: Seq<[S; 3]>,
    face: u32,
    uv: (W, W),
    left: nat,
    out: Result<Seq<(u32, W)>, KernelError>,
) -> bool
    decreases left,
{
    if regular_quad(mesh, adj, face as int) {
        out == Ok::<_, KernelError>(patch_weights::<S, W>(grid_of(mesh, adj, face as int, 4)->Ok_0, uv))
    } else {
        match snap_target_of(mesh, adj, options, face, uv) {
            Some(corner) => out == corner_weights::<S, W>(mesh, adj, options, face, corner),
            None => if left == 0 {
                out == corner_weights::<S, W>(mesh, adj, options, face, nearest_corner_of(uv))
            } else {
                ||| out is Err && node_fails(mesh, adj, options, face, out->Err_0)
                ||| exists|node: IsolationNode<S>, inner: Result<Seq<(u32, W)>, KernelError>| #[trigger]
                    is_node(mesh, adj, options, positions, face, node) && weighed::<S, W>(
                        node.refined.topology,
                        node.refined.adjacency,
                        options,
                        node.positions@,
                        node.children@[quadrant_of(uv)].face,
                        node_frame::<S, W>(node, quadrant_of(uv)).inside(uv),
                        (left - 1) as nat,
                        inner,
                    ) && #[trigger] lifted::<S, W>(node, inner, out)
            },
        }
    }
}

proof fn lemma_weighed_at_once<S: Scalar, W: Wide<S>>(
    mesh: Mesh<S>,
    adj: Adjacency,
    options: SchemeOptions,
    positions: Seq<[S; 3]>,
    face: u32,
    uv: (W, W),
    left: nat,
    out: Result<Seq<(u32, W)>, KernelError>,
)
    requires
        if regular_quad(mesh, adj, face as int) {
            out == Ok::<_, KernelError>(patch_weights::<S, W>(grid_of(mesh, adj, face as int, 4)->Ok_0, uv))
        } else {
            match snap_target_of(mesh, adj, options, face, uv) {
                Some(corner) => out == corner_weights::<S, W>(mesh, adj, options, face, corner),
                None => if left == 0 {
                    out == corner_weights::<S, W>(mesh, adj, options, face, nearest_corner_of(uv))
                } else {
                    out is Err && node_fails(mesh, adj, options, face, out->Err_0)
                },
            }
        },
    ensures
        weighed::<S, W>(mesh, adj, options, positions, face, uv, left, out),
{
    reveal(weighed);
}

proof fn lemma_weighed_inside<S: Scalar, W: Wide<S>>(
    mesh: Mesh<S>,
    adj: Adjacency,
    options: SchemeOptions,
    positions: Seq<[S; 3]>,
    face: u32,
    uv: (W, W),
    left: nat,
    node: IsolationNode<S>,
    inner: Result<Seq<(u32, W)>, KernelError>,
    out: Result<Seq<(u32, W)>, KernelError>,
)
    requires
        !regular_quad(mesh, adj, face as int),
        snap_target_of(mesh, adj, options, face, uv) is None,
        left > 0,
        is_node(mesh, adj, options, positions, face, node),
        weighed::<S, W>(
            node.refined.topology,
            node.refined.adjacency,
            options,
            node.positions@,
            node.children@[quadrant_of(uv)].face,
            node_frame::<S, W>(node, quadrant_of(uv)).inside(uv),
            (left - 1) as nat,
            inner,
        ),
        lifted::<S, W>(node, inner, out),
    ensures
        weighed::<S, W>(mesh, adj, options, positions, face, uv, left, out),
{
    reveal(weighed);
}

fn weigh<S: Scalar, W: Wide<S>>(
    mesh: &Mesh<S>,
    adj: &Adjacency,
    options: &SchemeOptions,
    positions: &[[S; 3]],
    table: &PatchTable,
    face: u32,
    uv: (W, W),
    left: u32,
) -> (r: Result<Vec<(u32, W)>, KernelError>)
    requires
        eval_ready(*mesh, *adj),
        table.of(*mesh, *adj),
        face < mesh.face_vertex_counts@.len(),
        positions@.len() == mesh.vertex_count,
    ensures
        weighed::<S, W>(*mesh, *adj, *options, positions@, face, uv, left as nat, row_outcome(r)),
        r is Ok ==> row_below(r->Ok_0@, mesh.vertex_count as nat),
    decreases left,
{
    if let Some(row) = patch_row::<S, W>(mesh, Ghost(*adj), table, face, uv) {
        let r: Result<Vec<(u32, W)>, KernelError> = Ok(row);
        proof {
            lemma_weighed_at_once::<S, W>(*mesh, *adj, *options, positions@, face, uv, left as nat, row_outcome(r));
        }
        return r;
    }
    if let Some(corner) = snap_target::<S, W>(uv, face, mesh, adj, options) {
        let r: Result<Vec<(u32, W)>, KernelError> = corner_row::<S, W>(mesh, adj, options, face, corner);
        proof {
            lemma_weighed_at_once::<S, W>(*mesh, *adj, *options, positions@, face, uv, left as nat, row_outcome(r));
        }
        return r;
    }
    if left == 0 {
        let corner: usize = nearest_corner(uv);
        let r: Result<Vec<(u32, W)>, KernelError> = corner_row::<S, W>(mesh, adj, options, face, corner);
        proof {
            lemma_weighed_at_once::<S, W>(*mesh, *adj, *options, positions@, face, uv, left as nat, row_outcome(r));
        }
        return r;
    }
    let k: usize = quadrant(uv);
    match isolation_node(mesh, adj, positions, face, options) {
        Ok(node) => {
            proof {
                node_is_ok(*mesh, *adj, *options, positions@, face, node);
                lemma_node_quadrant(node, mesh.vertex_count as int, k as int);
            }
            let child: QuadrantChild = node.children[k];
            let frame: Frame<W> = frame(child.turn, k);
            let inner: Result<Vec<(u32, W)>, KernelError> = weigh::<S, W>(
                &node.refined.topology,
                &node.refined.adjacency,
                options,
                &node.positions,
                &node.table,
                child.face,
                frame.child_uv(uv),
                left - 1,
            );
            let ghost inside = row_outcome(inner);
            let r: Result<Vec<(u32, W)>, KernelError> = match inner {
                Ok(row) => Ok(lift_row::<S, W>(&row, &node, Ghost(mesh.vertex_count as int))),
                Err(error) => Err(error),
            };
            proof {
                assert(lifted::<S, W>(node, inside, row_outcome(r)));
                lemma_weighed_inside::<S, W>(
                    *mesh,
                    *adj,
                    *options,
                    positions@,
                    face,
                    uv,
                    left as nat,
                    node,
                    inside,
                    row_outcome(r),
                );
            }
            r
        },
        Err(error) => {
            let r: Result<Vec<(u32, W)>, KernelError> = Err(error);
            proof {
                lemma_weighed_at_once::<S, W>(
                    *mesh,
                    *adj,
                    *options,
                    positions@,
                    face,
                    uv,
                    left as nat,
                    row_outcome(r),
                );
            }
            r
        },
    }
}

// ---------------------------------------------------------------------------
// Evaluator
// ---------------------------------------------------------------------------
/// Evaluates the limit surface of a refinement.
pub struct LimitEvaluator<'a, S> {
    pub result: &'a RefinementResult<S>,
    /// The refined positions.
    pub positions: &'a [[S; 3]],
    pub table: PatchTable,
}

/// A limit point and its two derivatives.
pub type LimitSample<S> = ([S; 3], [S; 3], [S; 3]);

/// The evaluator of a refinement, or why there is none.
pub open spec fn evaluator_outcome<'a, S: Scalar>(
    result: RefinementResult<S>,
    positions: Seq<[S; 3]>,
    r: Result<LimitEvaluator<'a, S>, KernelError>,
) -> bool {
    match r {
        Err(error) => patch_outcome(result, Err(error)) || (exists|t: PatchTable| patch_outcome(result, Ok(t))
            && positions.len() != result.topology.vertex_count && error == KernelError::InvalidTopology(
            "positions length does not match the refined vertex count",
        )),
        Ok(evaluator) => *evaluator.result == result && evaluator.positions@ == positions && patch_outcome(
            result,
            Ok(evaluator.table),
        ) && evaluator.wf(),
    }
}

impl<S: Scalar> RefinementResult<S> {
    /// An evaluator of the limit surface over the refined positions.
    pub fn limit_evaluator<'a>(&'a self, positions: &'a [[S; 3]]) -> (r: Result<LimitEvaluator<'a, S>, KernelError>)
        requires
            quads_refused(*self) is None ==> eval_ready(self.topology, self.adjacency),
        ensures
            evaluator_outcome(*self, positions@, r),
    {
        let table: PatchTable = match self.patch_table() {
            Ok(table) => table,
            Err(error) => {
                return Err(error);
            },
        };
        if positions.len() != self.topology.vertex_count as usize {
            assert(patch_outcome(*self, Ok(table)));
            return Err(KernelError::InvalidTopology("positions length does not match the refined vertex count"));
        }
        Ok(LimitEvaluator { result: self, positions, table })
    }
}

/// The place that a pair of numbers is taken for.
pub open spec fn place<S: Scalar, W: Wide<S>>(uv: Seq<S>) -> (W, W) {
    (clamped(W::widen_of(uv[0])), clamped(W::widen_of(uv[1])))
}

fn clamp_place<S: Scalar, W: Wide<S>>(uv: &[S; 2]) -> (r: (W, W))
    ensures
        r == place::<S, W>(uv@),
{
    (clamp01(W::widen(uv[0])), clamp01(W::widen(uv[1])))
}

impl<'a, S: Scalar> LimitEvaluator<'a, S> {
    pub open spec fn mesh(self) -> Mesh<S> {
        self.result.topology
    }

    pub open spec fn adj(self) -> Adjacency {
        self.result.adjacency
    }

    pub open spec fn wf(self) -> bool {
        &&& eval_ready(self.mesh(), self.adj())
        &&& self.table.of(self.mesh(), self.adj())
        &&& self.positions@.len() == self.mesh().vertex_count
    }

    /// `out` is the sample at `uv` of a quad.
    pub open spec fn sample_at<W: Wide<S>>(
        self,
        face: u32,
        uv: Seq<S>,
        out: Result<SampleModel<S, W>, KernelError>,
    ) -> bool {
        sampled::<S, W>(
            self.mesh(),
            self.adj(),
            self.result.options,
            self.positions@,
            face,
            place::<S, W>(uv),
            MAX_ISOLATION_DEPTH as nat,
            out,
        )
    }

    /// Whether a quad is regular.
    pub fn quad_class(&self, face: u32) -> (r: QuadClass)
        requires
            self.wf(),
            face < self.mesh().face_vertex_counts@.len(),
        ensures
            r == (if regular_quad(self.mesh(), self.adj(), face as int) {
                QuadClass::Regular
            } else {
                QuadClass::Feature
            }),
    {
        proof {
            patches_and_quads_agree(self.mesh(), self.adj(), face as int);
        }
        self.table.quad_class(face)
    }

    /// The limit point of a quad at `uv`.
    pub fn eval<W: Wide<S>>(&self, face: u32, uv: [S; 2]) -> (r: Result<[S; 3], KernelError>)
        requires
            self.wf(),
            face < self.mesh().face_vertex_counts@.len(),
        ensures
            exists|out: Result<SampleModel<S, W>, KernelError>| #[trigger]
                self.sample_at::<W>(face, uv@, out) && match out {
                    Ok(s) => r is Ok && r->Ok_0@ == s.p,
                    Err(error) => r == Err::<[S; 3], _>(error),
                },
    {
        let at: (W, W) = clamp_place::<S, W>(&uv);
        let out: Result<Sample<S, W>, KernelError> = sample::<S, W>(
            &self.result.topology,
            &self.result.adjacency,
            &self.result.options,
            self.positions,
            &self.table,
            face,
            at,
            MAX_ISOLATION_DEPTH,
        );
        assert(self.sample_at::<W>(face, uv@, outcome_view(out)));
        match out {
            Ok((p, _, _)) => Ok(p),
            Err(error) => Err(error),
        }
    }

    /// The limit point of a quad at `uv` and its two derivatives.
    pub fn eval_with_derivatives<W: Wide<S>>(&self, face: u32, uv: [S; 2]) -> (r: Result<LimitSample<S>, KernelError>)
        requires
            self.wf(),
            face < self.mesh().face_vertex_counts@.len(),
        ensures
            exists|out: Result<SampleModel<S, W>, KernelError>| #[trigger]
                self.sample_at::<W>(face, uv@, out) && match out {
                    Ok(s) => r is Ok && r->Ok_0.0@ == s.p && r->Ok_0.1@ == narrowed::<S, W>(s.du) && r->Ok_0.2@
                        == narrowed::<S, W>(s.dv),
                    Err(error) => r == Err::<LimitSample<S>, _>(error),
                },
    {
        let at: (W, W) = clamp_place::<S, W>(&uv);
        let out: Result<Sample<S, W>, KernelError> = sample::<S, W>(
            &self.result.topology,
            &self.result.adjacency,
            &self.result.options,
            self.positions,
            &self.table,
            face,
            at,
            MAX_ISOLATION_DEPTH,
        );
        assert(self.sample_at::<W>(face, uv@, outcome_view(out)));
        match out {
            Ok((p, du, dv)) => Ok((p, narrow_all::<S, W>(&du), narrow_all::<S, W>(&dv))),
            Err(error) => Err(error),
        }
    }

    /// The weights of the refined vertices in the limit point of a quad at `uv`.
    pub fn weights_at<W: Wide<S>>(&self, face: u32, uv: [S; 2]) -> (r: Result<Vec<(u32, S)>, KernelError>)
        requires
            self.wf(),
            face < self.mesh().face_vertex_counts@.len(),
        ensures
            exists|out: Result<Seq<(u32, W)>, KernelError>| #[trigger]
                weighed::<S, W>(
                    self.mesh(),
                    self.adj(),
                    self.result.options,
                    self.positions@,
                    face,
                    place::<S, W>(uv@),
                    MAX_ISOLATION_DEPTH as nat,
                    out,
                ) && match out {
                    Ok(row) => r is Ok && merged_row::<S, W>(row, r->Ok_0@),
                    Err(error) => r == Err::<Vec<(u32, S)>, _>(error),
                },
            r is Ok ==> row_below(r->Ok_0@, self.mesh().vertex_count as nat),
    {
        let at: (W, W) = clamp_place::<S, W>(&uv);
        let out: Result<Vec<(u32, W)>, KernelError> = weigh::<S, W>(
            &self.result.topology,
            &self.result.adjacency,
            &self.result.options,
            self.positions,
            &self.table,
            face,
            at,
            MAX_ISOLATION_DEPTH,
        );
        let ghost found = row_outcome(out);
        assert(weighed::<S, W>(
            self.mesh(),
            self.adj(),
            self.result.options,
            self.positions@,
            face,
            place::<S, W>(uv@),
            MAX_ISOLATION_DEPTH as nat,
            found,
        ));
        match out {
            Ok(row) => {
                let merged: Vec<(u32, S)> = merge_row::<S, W>(&row);
                proof {
                    assert forall|i: int| 0 <= i < merged@.len() implies (#[trigger] merged@[i]).0
                        < self.mesh().vertex_count by {
                        assert(keys_of(merged@)[i] == merged@[i].0);
                        assert(keys_of(merged@).contains(merged@[i].0));
                        let q = keys_of(row@).index_of(merged@[i].0);
                        assert(keys_of(row@)[q] == row@[q].0);
                        assert(row@[q].0 < self.mesh().vertex_count);
                    }
                }
                Ok(merged)
            },
            Err(error) => Err(error),
        }
    }
}

} // verus!
