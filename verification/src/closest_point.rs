//! The point of the limit surface that is closest to a given one.

use crate::bounds::{build_index, Node, NodeKind, SearchIndex};
use crate::error::KernelError;
use crate::limit::{find_place, place_of};
use crate::limit_eval::{
    clamp01, clamped, corner_index, corner_number, corner_place, corner_uv, end_of, find_end, is_same_number,
    narrow_all, narrowed, persistent_sharp_edge, same_number, stays_sharp, widen_all, widened, LimitEvaluator,
    SampleModel,
};
use crate::metric::{
    cross, cross_of, difference, difference_of, dot, dot_of, norm2, norm2_of, nothing, nothing_of, opposite,
    opposite_of, scaled, scaled_of, sum, sum_of, unit_of, unit_or_nothing, wedge_angle, wedge_of, Metric,
};
use crate::results::quads_linked;
use crate::ring::{faces_at, faces_slice, quad_at, quad_edge, quad_slice, quads_ok};
use crate::scalar::{one, one_of, zero, zero_of, Scalar, Wide};
use crate::topology::{all_below, Adjacency, Mesh};
use vstd::prelude::*;

verus! {

// ---------------------------------------------------------------------------
// Edges of a quad
// ---------------------------------------------------------------------------
/// The place at `x` along edge `slot` of a quad, from its corner `slot` to the
/// next one.
pub open spec fn edge_place<W: Scalar>(slot: int, x: W) -> (W, W) {
    if slot == 0 {
        (x, zero_of())
    } else if slot == 1 {
        (one_of(), x)
    } else if slot == 2 {
        (W::minus_of(one_of(), x), one_of())
    } else {
        (zero_of(), W::minus_of(one_of(), x))
    }
}

/// The place at `x` along edge `slot` of a quad.
pub fn edge_uv<W: Scalar>(slot: usize, x: W) -> (r: (W, W))
    ensures
        r == edge_place(slot as int, x),
{
    match slot {
        0 => (x, zero()),
        1 => (one(), x),
        2 => (one::<W>().minus(x), one()),
        _ => (zero(), one::<W>().minus(x)),
    }
}

/// The side over which a step left the unit interval: the number was held at an
/// end that the step went beyond.
pub open spec fn crossing_of<W: Scalar>(held: W, raw: W) -> Option<bool> {
    if same_number(held, zero_of()) && W::less_of(raw, zero_of()) {
        Some(false)
    } else if same_number(held, one_of()) && W::less_of(one_of(), raw) {
        Some(true)
    } else {
        None
    }
}

/// The side over which a step left the unit interval.
pub fn pinned_crossing<W: Scalar>(held: W, raw: W) -> (r: Option<bool>)
    ensures
        r == crossing_of(held, raw),
{
    if is_same_number(held, zero()) && raw.less(zero()) {
        Some(false)
    } else if is_same_number(held, one()) && one::<W>().less(raw) {
        Some(true)
    } else {
        None
    }
}

/// The edge that a place on a side of the quad is on and where: `u` or `v` is at
/// its far end or at its near one.
pub open spec fn side_of<W: Scalar>(along_v: bool, far: bool, uv: (W, W)) -> (int, W) {
    if along_v {
        if far {
            (1, uv.1)
        } else {
            (3, W::minus_of(one_of(), uv.1))
        }
    } else {
        if far {
            (2, W::minus_of(one_of(), uv.0))
        } else {
            (0, uv.0)
        }
    }
}

fn find_side<W: Scalar>(along_v: bool, far: bool, uv: (W, W)) -> (r: (usize, W))
    ensures
        (r.0 as int, r.1) == side_of(along_v, far, uv),
        r.0 < 4,
{
    if along_v {
        if far {
            (1, uv.1)
        } else {
            (3, one::<W>().minus(uv.1))
        }
    } else {
        if far {
            (2, one::<W>().minus(uv.0))
        } else {
            (0, uv.0)
        }
    }
}

// ---------------------------------------------------------------------------
// Steps
// ---------------------------------------------------------------------------
/// The step that would bring a plane patch closest: it solves the normal
/// equations, or goes down the gradient where they have no firm solution.
pub open spec fn newton_step_of<W: Metric>(d: Seq<W>, du: Seq<W>, dv: Seq<W>) -> (W, W) {
    let a = dot_of(du, du);
    let b = dot_of(dv, dv);
    let c = dot_of(du, dv);
    let gu = dot_of(d, du);
    let gv = dot_of(d, dv);
    let det = W::minus_of(W::times_of(a, b), W::times_of(c, c));
    if W::less_of(W::times_of(W::times_of(W::tiny_of(12), a), b), det) {
        (
            W::over_of(W::minus_of(W::times_of(c, gv), W::times_of(b, gu)), det),
            W::over_of(W::minus_of(W::times_of(c, gu), W::times_of(a, gv)), det),
        )
    } else {
        let scale = W::larger_of(W::plus_of(a, b), W::tiny_of(30));
        (W::over_of(W::negated_of(gu), scale), W::over_of(W::negated_of(gv), scale))
    }
}

fn gauss_newton_step<W: Metric>(d: &[W; 3], du: &[W; 3], dv: &[W; 3]) -> (r: (W, W))
    ensures
        r == newton_step_of(d@, du@, dv@),
{
    let a: W = dot(du, du);
    let b: W = dot(dv, dv);
    let c: W = dot(du, dv);
    let gu: W = dot(d, du);
    let gv: W = dot(d, dv);
    let det: W = a.times(b).minus(c.times(c));
    if W::tiny(12).times(a).times(b).less(det) {
        (c.times(gv).minus(b.times(gu)).over(det), c.times(gu).minus(a.times(gv)).over(det))
    } else {
        let scale: W = a.plus(b).larger(W::tiny(30));
        (gu.negated().over(scale), gv.negated().over(scale))
    }
}

/// A step from an end of the unit interval leads out of it.
pub open spec fn leads_out<W: Scalar>(t: W, step: W) -> bool {
    (same_number(t, zero_of()) && W::less_of(step, zero_of())) || (same_number(t, one_of()) && W::less_of(
        zero_of(),
        step,
    ))
}

fn check_leads_out<W: Scalar>(t: W, step: W) -> (r: bool)
    ensures
        r == leads_out(t, step),
{
    (is_same_number(t, zero()) && step.less(zero())) || (is_same_number(t, one()) && zero::<W>().less(step))
}

/// The step along one direction that brings a line closest.
pub open spec fn line_step_of<W: Metric>(d: Seq<W>, tangent: Seq<W>) -> Option<W> {
    let scale = dot_of(tangent, tangent);
    if W::less_of(W::tiny_of(30), scale) {
        Some(W::over_of(W::negated_of(dot_of(d, tangent)), scale))
    } else {
        None
    }
}

fn line_step<W: Metric>(d: &[W; 3], tangent: &[W; 3]) -> (r: Option<W>)
    ensures
        r == line_step_of(d@, tangent@),
{
    let scale: W = dot(tangent, tangent);
    if W::tiny(30).less(scale) {
        Some(dot(d, tangent).negated().over(scale))
    } else {
        None
    }
}

/// The step along the free direction, where the full step leads out of the quad
/// in the other one only.
pub open spec fn reduced_step_of<W: Metric>(
    uv: (W, W),
    full: (W, W),
    d: Seq<W>,
    du: Seq<W>,
    dv: Seq<W>,
) -> Option<(W, W)> {
    let out_u = leads_out(uv.0, full.0);
    let out_v = leads_out(uv.1, full.1);
    if out_u && !out_v {
        match line_step_of(d, dv) {
            Some(s) => Some((zero_of(), s)),
            None => None,
        }
    } else if out_v && !out_u {
        match line_step_of(d, du) {
            Some(s) => Some((s, zero_of())),
            None => None,
        }
    } else {
        None
    }
}

fn reduced_step<W: Metric>(uv: (W, W), full: (W, W), d: &[W; 3], du: &[W; 3], dv: &[W; 3]) -> (r: Option<(W, W)>)
    ensures
        r == reduced_step_of(uv, full, d@, du@, dv@),
{
    let out_u: bool = check_leads_out(uv.0, full.0);
    let out_v: bool = check_leads_out(uv.1, full.1);
    if out_u && !out_v {
        match line_step(d, dv) {
            Some(s) => Some((zero(), s)),
            None => None,
        }
    } else if out_v && !out_u {
        match line_step(d, du) {
            Some(s) => Some((s, zero())),
            None => None,
        }
    } else {
        None
    }
}

// ---------------------------------------------------------------------------
// The surface
// ---------------------------------------------------------------------------
pub open spec fn in_wide<S: Scalar, W: Wide<S>>(s: Result<SampleModel<S, W>, KernelError>) -> Result<
    SampleModel<W, W>,
    KernelError,
> {
    match s {
        Ok(s) => Ok(
            SampleModel {
                p: widened::<S, W>(s.p),
                du: widened::<S, W>(narrowed::<S, W>(s.du)),
                dv: widened::<S, W>(narrowed::<S, W>(s.dv)),
            },
        ),
        Err(error) => Err(error),
    }
}

pub open spec fn rounded<S: Scalar, W: Wide<S>>(uv: (W, W)) -> Seq<S> {
    seq![W::narrow_of(uv.0), W::narrow_of(uv.1)]
}

/// `out` is the limit of a quad at `uv`, with places and results rounded as
/// those of an evaluation are.
#[verifier::opaque]
pub open spec fn seen<'a, S: Metric, W: Wide<S> + Metric>(
    ev: LimitEvaluator<'a, S>,
    face: u32,
    uv: (W, W),
    out: Result<SampleModel<W, W>, KernelError>,
) -> bool {
    exists|inner: Result<SampleModel<S, W>, KernelError>| #[trigger]
        ev.sample_at::<W>(face, rounded::<S, W>(uv), inner) && out == in_wide::<S, W>(inner)
}

/// A point of the surface with its two derivatives.
pub struct Spot<W> {
    pub p: [W; 3],
    pub du: [W; 3],
    pub dv: [W; 3],
}

impl<W> Spot<W> {
    pub open spec fn view(self) -> SampleModel<W, W> {
        SampleModel { p: self.p@, du: self.du@, dv: self.dv@ }
    }
}

pub open spec fn spot_outcome<W>(r: Result<Spot<W>, KernelError>) -> Result<SampleModel<W, W>, KernelError> {
    match r {
        Ok(s) => Ok(s@),
        Err(error) => Err(error),
    }
}

/// A vector or an error.
pub open spec fn vector_outcome<W>(r: Result<[W; 3], KernelError>) -> Result<Seq<W>, KernelError> {
    match r {
        Ok(v) => Ok(v@),
        Err(error) => Err(error),
    }
}

fn look<'a, S: Metric, W: Wide<S> + Metric>(ev: &LimitEvaluator<'a, S>, face: u32, uv: (W, W)) -> (r: Result<
    Spot<W>,
    KernelError,
>)
    requires
        ev.wf(),
        face < ev.mesh().face_vertex_counts@.len(),
    ensures
        seen::<S, W>(*ev, face, uv, spot_outcome(r)),
{
    reveal(seen);
    let at: [S; 2] = [uv.0.narrow(), uv.1.narrow()];
    assert(at@ =~= rounded::<S, W>(uv));
    match ev.eval_with_derivatives::<W>(face, at) {
        Ok((p, du, dv)) => {
            let r = Spot {
                p: widen_all::<S, W>(&p),
                du: widen_all::<S, W>(&du),
                dv: widen_all::<S, W>(&dv),
            };
            let ghost inner = choose|out: Result<SampleModel<S, W>, KernelError>| #[trigger]
                ev.sample_at::<W>(face, at@, out) && match out {
                    Ok(s) => p@ == s.p && du@ == narrowed::<S, W>(s.du) && dv@ == narrowed::<S, W>(s.dv),
                    Err(_) => false,
                };
            assert(in_wide::<S, W>(inner) == Ok::<_, KernelError>(r@));
            Ok(r)
        },
        Err(error) => {
            let ghost inner = choose|out: Result<SampleModel<S, W>, KernelError>| #[trigger]
                ev.sample_at::<W>(face, at@, out) && out is Err && out->Err_0 == error;
            assert(in_wide::<S, W>(inner) == Err::<SampleModel<W, W>, _>(error));
            Err(error)
        },
    }
}

/// Edge `slot` of a quad is a boundary or stays sharp for good.
pub open spec fn feature_line_of<'a, S: Metric>(ev: LimitEvaluator<'a, S>, face: u32, slot: int) -> bool {
    let edge = ev.adj().face_edges@[4 * face + slot] as int;
    ev.adj().edge_is_boundary@[edge] || stays_sharp(ev.mesh().edge_creases@[edge], ev.result.options)
}

fn feature_line<'a, S: Metric>(ev: &LimitEvaluator<'a, S>, face: u32, slot: usize) -> (r: bool)
    requires
        ev.wf(),
        face < ev.mesh().face_vertex_counts@.len(),
        slot < 4,
    ensures
        r == feature_line_of(*ev, face, slot as int),
{
    let edge: u32 = quad_edge::<S>(Ghost(ev.mesh()), &ev.result.adjacency, face as usize, slot);
    proof {
        reveal(quads_ok);
    }
    ev.result.adjacency.edge_is_boundary[edge as usize] || persistent_sharp_edge(
        ev.result.topology.edge_creases[edge as usize],
        &ev.result.options,
    )
}

/// The quad on the other side of edge `slot`, and where `x` along the edge is on
/// it.
pub open spec fn across_of<'a, S: Metric, W: Scalar>(
    ev: LimitEvaluator<'a, S>,
    face: u32,
    slot: int,
    x: W,
) -> Option<(u32, (W, W))> {
    let edge = ev.adj().face_edges@[4 * face + slot];
    let ends = ev.adj().edge_faces@[edge as int]@;
    let other = if ends[0] == face {
        ends[1]
    } else {
        ends[0]
    };
    if other == u32::MAX {
        None
    } else {
        match place_of(ev.adj().face_edges@.subrange(4 * other, 4 * other + 4), edge) {
            Some(t) => Some((other, edge_place(t, W::minus_of(one_of(), x)))),
            None => None,
        }
    }
}

fn across_edge<'a, S: Metric, W: Scalar>(ev: &LimitEvaluator<'a, S>, face: u32, slot: usize, x: W) -> (r: Option<
    (u32, (W, W)),
>)
    requires
        ev.wf(),
        face < ev.mesh().face_vertex_counts@.len(),
        slot < 4,
    ensures
        r == across_of::<S, W>(*ev, face, slot as int, x),
        r is Some ==> r->Some_0.0 < ev.mesh().face_vertex_counts@.len(),
{
    let adj: &Adjacency = &ev.result.adjacency;
    let edge: u32 = quad_edge::<S>(Ghost(ev.mesh()), adj, face as usize, slot);
    let ghost nf = ev.mesh().face_vertex_counts@.len();
    assert(adj.face_edges@.len() == 4 * nf && edge < adj.edge_faces@.len()) by {
        reveal(quads_ok);
        reveal(quads_linked);
    }
    let a: u32 = adj.edge_faces[edge as usize][0];
    let b: u32 = adj.edge_faces[edge as usize][1];
    let other: u32 = if a == face {
        b
    } else {
        a
    };
    if other == u32::MAX {
        return None;
    }
    assert(other < nf) by {
        reveal(quads_linked);
        assert(crate::connectivity::pairs(adj.edge_faces@)[edge as int] == (a, b));
    }
    let total: usize = adj.face_edges.len();
    let start: usize = 4 * (other as usize);
    let list: &[u32] = vstd::slice::slice_subrange(adj.face_edges.as_slice(), start, start + 4);
    match find_place(list, edge) {
        Some(t) => Some((other, edge_uv(t, one::<W>().minus(x)))),
        None => None,
    }
}

// ---------------------------------------------------------------------------
// Normals
// ---------------------------------------------------------------------------
pub open spec fn normal_of<W: Metric>(s: SampleModel<W, W>) -> Seq<W> {
    unit_of(cross_of(s.du, s.dv))
}

/// `out` is the normal of a quad at `uv`.
pub open spec fn face_normal_is<'a, S: Metric, W: Wide<S> + Metric>(
    ev: LimitEvaluator<'a, S>,
    face: u32,
    uv: (W, W),
    out: Result<Seq<W>, KernelError>,
) -> bool {
    exists|s: Result<SampleModel<W, W>, KernelError>| #[trigger]
        seen::<S, W>(ev, face, uv, s) && out == (match s {
            Ok(s) => Ok(normal_of(s)),
            Err(error) => Err(error),
        })
}

fn face_normal<'a, S: Metric, W: Wide<S> + Metric>(ev: &LimitEvaluator<'a, S>, face: u32, uv: (W, W)) -> (r: Result<
    [W; 3],
    KernelError,
>)
    requires
        ev.wf(),
        face < ev.mesh().face_vertex_counts@.len(),
    ensures
        face_normal_is::<S, W>(*ev, face, uv, vector_outcome(r)),
{
    let s: Result<Spot<W>, KernelError> = look(ev, face, uv);
    assert(seen::<S, W>(*ev, face, uv, spot_outcome(s)));
    match s {
        Ok(spot) => Ok(unit_or_nothing(&cross(&spot.du, &spot.dv))),
        Err(error) => Err(error),
    }
}

/// The directions along the two edges of corner `k`: to the next corner and to
/// the one before.
pub open spec fn corner_directions<W: Scalar>(k: int, du: Seq<W>, dv: Seq<W>) -> (Seq<W>, Seq<W>) {
    if k == 0 {
        (du, dv)
    } else if k == 1 {
        (dv, opposite_of(du))
    } else if k == 2 {
        (opposite_of(du), opposite_of(dv))
    } else {
        (opposite_of(dv), du)
    }
}

/// The normal of a quad at corner `k`, weighted by the angle there.
pub open spec fn wedge_normal_of<W: Metric>(k: int, s: SampleModel<W, W>) -> Seq<W> {
    let (next, previous) = corner_directions(k, s.du, s.dv);
    scaled_of(normal_of(s), wedge_of(next, previous))
}

fn wedge_normal<W: Metric>(k: usize, s: &Spot<W>) -> (r: [W; 3])
    ensures
        r@ == wedge_normal_of(k as int, s@),
{
    let angle: W = match k {
        0 => wedge_angle(&s.du, &s.dv),
        1 => wedge_angle(&s.dv, &opposite(&s.du)),
        2 => wedge_angle(&opposite(&s.du), &opposite(&s.dv)),
        _ => wedge_angle(&opposite(&s.dv), &s.du),
    };
    scaled(&unit_or_nothing(&cross(&s.du, &s.dv)), angle)
}

/// `out` is a vector with the weighted normal of a quad at corner `k` added.
pub open spec fn wedge_added<'a, S: Metric, W: Wide<S> + Metric>(
    ev: LimitEvaluator<'a, S>,
    face: u32,
    k: int,
    acc: Seq<W>,
    out: Result<Seq<W>, KernelError>,
) -> bool {
    exists|s: Result<SampleModel<W, W>, KernelError>| #[trigger]
        seen::<S, W>(ev, face, corner_place::<W>(k), s) && out == (match s {
            Ok(s) => Ok(sum_of(acc, wedge_normal_of(k, s))),
            Err(error) => Err(error),
        })
}

fn add_wedge<'a, S: Metric, W: Wide<S> + Metric>(ev: &LimitEvaluator<'a, S>, face: u32, k: usize, acc: &[W; 3]) -> (r: Result<
    [W; 3],
    KernelError,
>)
    requires
        ev.wf(),
        face < ev.mesh().face_vertex_counts@.len(),
    ensures
        wedge_added::<S, W>(*ev, face, k as int, acc@, vector_outcome(r)),
{
    let s: Result<Spot<W>, KernelError> = look(ev, face, corner_uv(k));
    assert(seen::<S, W>(*ev, face, corner_place::<W>(k as int), spot_outcome(s)));
    match s {
        Ok(spot) => Ok(sum(acc, &wedge_normal(k, &spot))),
        Err(error) => Err(error),
    }
}

/// Any value will do; it is the rest of a statement that restricts it.
pub open spec fn supposed<T>(value: T) -> bool {
    true
}

/// `out` is the sum of the weighted normals of the first `m` faces round vertex
/// `v`.
pub open spec fn fan_normal_is<'a, S: Metric, W: Wide<S> + Metric>(
    ev: LimitEvaluator<'a, S>,
    v: u32,
    m: int,
    out: Result<Seq<W>, KernelError>,
) -> bool
    decreases m,
{
    if m <= 0 {
        out == Ok::<_, KernelError>(nothing_of::<W>())
    } else {
        let f = faces_at(ev.adj(), v as int)[m - 1];
        exists|before: Result<Seq<W>, KernelError>| #[trigger]
            supposed(before) && fan_normal_is::<S, W>(ev, v, m - 1, before) && match before {
                Err(error) => out == Err::<Seq<W>, _>(error),
                Ok(acc) => match place_of(quad_at(ev.mesh(), f as int), v) {
                    None => out == Err::<Seq<W>, _>(
                        KernelError::InvalidTopology("vertex fan face does not contain the fan vertex"),
                    ),
                    Some(k) => wedge_added::<S, W>(ev, f, k, acc, out),
                },
            }
    }
}

proof fn lemma_fan_fault<'a, S: Metric, W: Wide<S> + Metric>(
    ev: LimitEvaluator<'a, S>,
    v: u32,
    j: int,
    m: int,
    error: KernelError,
)
    requires
        0 <= j <= m,
        fan_normal_is::<S, W>(ev, v, j, Err(error)),
    ensures
        fan_normal_is::<S, W>(ev, v, m, Err(error)),
    decreases m,
{
    if j < m {
        lemma_fan_fault::<S, W>(ev, v, j, m - 1, error);
        let before: Result<Seq<W>, KernelError> = Err(error);
        assert(supposed(before));
    }
}

/// The sum of the weighted normals round a vertex.
fn fan_normal<'a, S: Metric, W: Wide<S> + Metric>(ev: &LimitEvaluator<'a, S>, v: u32) -> (r: Result<
    [W; 3],
    KernelError,
>)
    requires
        ev.wf(),
        v < ev.mesh().vertex_count,
    ensures
        fan_normal_is::<S, W>(*ev, v, faces_at(ev.adj(), v as int).len() as int, vector_outcome(r)),
{
    let mesh: &Mesh<S> = &ev.result.topology;
    let adj: &Adjacency = &ev.result.adjacency;
    let list: &[u32] = faces_slice(mesh, adj, v as usize);
    let mut acc: [W; 3] = nothing();
    let mut m: usize = 0;
    while m < list.len()
        invariant
            m <= list.len(),
            ev.wf(),
            *mesh == ev.mesh(),
            *adj == ev.adj(),
            v < mesh.vertex_count,
            list@ == faces_at(*adj, v as int),
            all_below(list@, mesh.face_vertex_counts@.len() as int),
            fan_normal_is::<S, W>(*ev, v, m as int, Ok(acc@)),
        decreases list.len() - m,
    {
        assert(list@[m as int] < mesh.face_vertex_counts@.len());
        let f: u32 = list[m];
        let quad: &[u32] = quad_slice(mesh, Ghost(*adj), f as usize);
        let ghost before: Result<Seq<W>, KernelError> = Ok(acc@);
        match find_place(quad, v) {
            None => {
                let error: KernelError = KernelError::InvalidTopology(
                    "vertex fan face does not contain the fan vertex",
                );
                proof {
                    assert(supposed(before));
                    assert(fan_normal_is::<S, W>(*ev, v, m + 1, Err(error)));
                    lemma_fan_fault::<S, W>(*ev, v, m + 1, list@.len() as int, error);
                }
                return Err(error);
            },
            Some(k) => {
                let next: Result<[W; 3], KernelError> = add_wedge(ev, f, k, &acc);
                proof {
                    assert(supposed(before));
                    assert(fan_normal_is::<S, W>(*ev, v, m + 1, vector_outcome(next)));
                }
                match next {
                    Err(error) => {
                        proof {
                            lemma_fan_fault::<S, W>(*ev, v, m + 1, list@.len() as int, error);
                        }
                        return Err(error);
                    },
                    Ok(more) => {
                        acc = more;
                    },
                }
            },
        }
        m += 1;
    }
    Ok(acc)
}

/// The end of the unit interval that a number is at or next to.
pub open spec fn near_end_of<W: Metric>(t: W) -> Option<bool> {
    if W::at_most_of(t, W::tiny_of(4)) {
        Some(false)
    } else if W::at_most_of(W::minus_of(one_of(), W::tiny_of(4)), t) {
        Some(true)
    } else {
        None
    }
}

fn near_end<W: Metric>(t: W) -> (r: Option<bool>)
    ensures
        r == near_end_of(t),
{
    if t.at_most(W::tiny(4)) {
        Some(false)
    } else if one::<W>().minus(W::tiny(4)).at_most(t) {
        Some(true)
    } else {
        None
    }
}

/// `out` is the sum of the normals on both sides of edge `slot` at `x`.
pub open spec fn edge_normal_is<'a, S: Metric, W: Wide<S> + Metric>(
    ev: LimitEvaluator<'a, S>,
    face: u32,
    slot: int,
    x: W,
    out: Result<Seq<W>, KernelError>,
) -> bool {
    exists|own: Result<Seq<W>, KernelError>| #[trigger]
        face_normal_is::<S, W>(ev, face, edge_place(slot, x), own) && match own {
            Err(error) => out == Err::<Seq<W>, _>(error),
            Ok(n) => match across_of::<S, W>(ev, face, slot, x) {
                None => out == Ok::<_, KernelError>(sum_of(n, nothing_of::<W>())),
                Some((other, at)) => exists|next: Result<Seq<W>, KernelError>| #[trigger]
                    face_normal_is::<S, W>(ev, other, at, next) && out == (match next {
                        Ok(t) => Ok(sum_of(n, t)),
                        Err(error) => Err(error),
                    }),
            },
        }
}

fn edge_normal<'a, S: Metric, W: Wide<S> + Metric>(ev: &LimitEvaluator<'a, S>, face: u32, slot: usize, x: W) -> (r: Result<
    [W; 3],
    KernelError,
>)
    requires
        ev.wf(),
        face < ev.mesh().face_vertex_counts@.len(),
        slot < 4,
    ensures
        edge_normal_is::<S, W>(*ev, face, slot as int, x, vector_outcome(r)),
{
    let own: Result<[W; 3], KernelError> = face_normal(ev, face, edge_uv(slot, x));
    assert(face_normal_is::<S, W>(*ev, face, edge_place(slot as int, x), vector_outcome(own)));
    match own {
        Err(error) => Err(error),
        Ok(n) => match across_edge::<S, W>(ev, face, slot, x) {
            None => Ok(sum(&n, &nothing())),
            Some((other, at)) => {
                let next: Result<[W; 3], KernelError> = face_normal(ev, other, at);
                assert(face_normal_is::<S, W>(*ev, other, at, vector_outcome(next)));
                match next {
                    Ok(t) => Ok(sum(&n, &t)),
                    Err(error) => Err(error),
                }
            },
        },
    }
}

/// `out` is the direction away from the surface: the normal inside a quad, the
/// sum of two on an edge and that of all, by their angles, on a corner.
pub open spec fn pseudonormal_is<'a, S: Metric, W: Wide<S> + Metric>(
    ev: LimitEvaluator<'a, S>,
    face: u32,
    uv: (W, W),
    out: Result<Seq<W>, KernelError>,
) -> bool {
    match (near_end_of(uv.0), near_end_of(uv.1)) {
        (None, None) => face_normal_is::<S, W>(ev, face, uv, out),
        (Some(a), Some(b)) => {
            let v = quad_at(ev.mesh(), face as int)[corner_number(a, b)];
            fan_normal_is::<S, W>(ev, v, faces_at(ev.adj(), v as int).len() as int, out)
        },
        (Some(far), None) => {
            let (slot, x) = side_of(true, far, uv);
            edge_normal_is::<S, W>(ev, face, slot, x, out)
        },
        (None, Some(far)) => {
            let (slot, x) = side_of(false, far, uv);
            edge_normal_is::<S, W>(ev, face, slot, x, out)
        },
    }
}

fn pseudonormal<'a, S: Metric, W: Wide<S> + Metric>(ev: &LimitEvaluator<'a, S>, face: u32, uv: (W, W)) -> (r: Result<
    [W; 3],
    KernelError,
>)
    requires
        ev.wf(),
        face < ev.mesh().face_vertex_counts@.len(),
    ensures
        pseudonormal_is::<S, W>(*ev, face, uv, vector_outcome(r)),
{
    match (near_end(uv.0), near_end(uv.1)) {
        (None, None) => face_normal(ev, face, uv),
        (Some(a), Some(b)) => {
            let quad: &[u32] = quad_slice(&ev.result.topology, Ghost(ev.adj()), face as usize);
            let k: usize = corner_index(a, b);
            assert(quad@[k as int] < ev.mesh().vertex_count);
            fan_normal(ev, quad[k])
        },
        (Some(far), None) => {
            let (slot, x) = find_side(true, far, uv);
            edge_normal(ev, face, slot, x)
        },
        (None, Some(far)) => {
            let (slot, x) = find_side(false, far, uv);
            edge_normal(ev, face, slot, x)
        },
    }
}

// ---------------------------------------------------------------------------
// Offers
// ---------------------------------------------------------------------------
/// A point of the surface that was looked at, and the square of its distance.
#[verifier::ext_equal]
pub struct Offer<W> {
    pub face: u32,
    pub uv: (W, W),
    pub position: Seq<W>,
    pub dist2: W,
}

/// The offer of a sample.
pub open spec fn offer_of<W: Scalar>(q: Seq<W>, face: u32, uv: (W, W), s: SampleModel<W, W>) -> Offer<W> {
    Offer { face, uv, position: s.p, dist2: norm2_of(difference_of(s.p, q)) }
}

/// An offer is a point of the surface with its distance from `q`.
#[verifier::opaque]
pub open spec fn honest<'a, S: Metric, W: Wide<S> + Metric>(
    ev: LimitEvaluator<'a, S>,
    q: Seq<W>,
    o: Offer<W>,
) -> bool {
    &&& o.face < ev.mesh().face_vertex_counts@.len()
    &&& exists|s: SampleModel<W, W>| #[trigger] seen::<S, W>(ev, o.face, o.uv, Ok(s)) && o == offer_of(q, o.face, o.uv, s)
}

proof fn lemma_honest<'a, S: Metric, W: Wide<S> + Metric>(
    ev: LimitEvaluator<'a, S>,
    q: Seq<W>,
    face: u32,
    uv: (W, W),
    s: SampleModel<W, W>,
)
    requires
        face < ev.mesh().face_vertex_counts@.len(),
        seen::<S, W>(ev, face, uv, Ok(s)),
    ensures
        honest::<S, W>(ev, q, offer_of(q, face, uv, s)),
{
    reveal(honest);
    let o = offer_of(q, face, uv, s);
    assert(seen::<S, W>(ev, o.face, o.uv, Ok(s)));
}

/// What a search starts with: nothing, infinitely far away.
pub open spec fn no_offer<W: Metric>() -> Offer<W> {
    Offer { face: 0, uv: (zero_of(), zero_of()), position: nothing_of::<W>(), dist2: W::infinity_of() }
}

/// The first of the closest offers.
pub open spec fn best_of<W: Metric>(log: Seq<Offer<W>>) -> Offer<W>
    decreases log.len(),
{
    if log.len() == 0 {
        no_offer()
    } else {
        let before = best_of(log.drop_last());
        if W::less_of(log.last().dist2, before.dist2) {
            log.last()
        } else {
            before
        }
    }
}

/// The best offer so far.
pub struct Best<W> {
    pub dist2: W,
    pub face: u32,
    pub uv: (W, W),
    pub position: [W; 3],
}

impl<W> Best<W> {
    pub open spec fn view(self) -> Offer<W> {
        Offer { face: self.face, uv: self.uv, position: self.position@, dist2: self.dist2 }
    }
}

// ---------------------------------------------------------------------------
// Result
// ---------------------------------------------------------------------------
/// A point of the surface that is closest to a query.
#[derive(Debug, Clone, Copy, PartialEq)]
pub struct ClosestPoint<S> {
    pub position: [S; 3],
    pub face: u32,
    /// Where on the quad the point is.
    pub uv: [S; 2],
    pub distance: S,
    /// The distance, negative inside; only for a surface without boundary.
    pub signed_distance: Option<S>,
    /// The normal at the point, or the mean of normals on an edge or a corner.
    pub normal: [S; 3],
}

/// The point is the best offer, with its direction and sign.
pub open spec fn reports<S: Metric, W: Wide<S> + Metric>(
    point: ClosestPoint<S>,
    q: Seq<W>,
    closed: bool,
    best: Offer<W>,
    pseudo: Seq<W>,
) -> bool {
    let distance = W::narrow_of(W::sqrt_of(best.dist2));
    let normal = unit_of(pseudo);
    &&& point.position@ == narrowed::<S, W>(best.position)
    &&& point.face == best.face
    &&& point.uv@ == rounded::<S, W>(best.uv)
    &&& point.distance == distance
    &&& point.normal@ == narrowed::<S, W>(normal)
    &&& point.signed_distance == (if !closed {
        None
    } else if W::less_of(dot_of(difference_of(q, best.position), normal), zero_of()) {
        Some(S::negated_of(distance))
    } else {
        Some(distance)
    })
}

/// What the best offer comes to.
pub open spec fn finished<'a, S: Metric, W: Wide<S> + Metric>(
    ev: LimitEvaluator<'a, S>,
    q: Seq<W>,
    closed: bool,
    best: Offer<W>,
    r: Result<ClosestPoint<S>, KernelError>,
) -> bool {
    exists|pseudo: Result<Seq<W>, KernelError>| #[trigger]
        pseudonormal_is::<S, W>(ev, best.face, best.uv, pseudo) && match pseudo {
            Ok(n) => r is Ok && reports::<S, W>(r->Ok_0, q, closed, best, n),
            Err(error) => r == Err::<ClosestPoint<S>, _>(error),
        }
}

fn finish<'a, S: Metric, W: Wide<S> + Metric>(
    ev: &LimitEvaluator<'a, S>,
    q: &[W; 3],
    closed: bool,
    best: &Best<W>,
) -> (r: Result<ClosestPoint<S>, KernelError>)
    requires
        ev.wf(),
        best.face < ev.mesh().face_vertex_counts@.len(),
    ensures
        finished::<S, W>(*ev, q@, closed, best@, r),
{
    let distance: S = best.dist2.sqrt().narrow();
    let pseudo: Result<[W; 3], KernelError> = pseudonormal(ev, best.face, best.uv);
    assert(pseudonormal_is::<S, W>(*ev, best@.face, best@.uv, vector_outcome(pseudo)));
    match pseudo {
        Err(error) => Err(error),
        Ok(n) => {
            let normal: [W; 3] = unit_or_nothing(&n);
            let signed_distance: Option<S> = if !closed {
                None
            } else if dot(&difference(q, &best.position), &normal).less(zero()) {
                Some(distance.negated())
            } else {
                Some(distance)
            };
            let uv: [S; 2] = [best.uv.0.narrow(), best.uv.1.narrow()];
            assert(uv@ =~= rounded::<S, W>(best.uv));
            Ok(
                ClosestPoint {
                    position: narrow_all::<S, W>(&best.position),
                    face: best.face,
                    uv,
                    distance,
                    signed_distance,
                    normal: narrow_all::<S, W>(&normal),
                },
            )
        },
    }
}

// ---------------------------------------------------------------------------
// Seeds
// ---------------------------------------------------------------------------
/// Most places from which a search on a quad starts.
pub const MAX_SEEDS: usize = 24;

pub type Seed<W> = (u32, (W, W));

/// Two seeds are the same place of the same quad, down to the last bit.
pub open spec fn same_seed<W: Metric>(a: Seed<W>, b: Seed<W>) -> bool {
    &&& a.0 == b.0
    &&& W::order_of(a.1.0) == W::order_of(b.1.0)
    &&& W::order_of(a.1.1) == W::order_of(b.1.1)
}

/// The seeds with one more, unless it is there already or they are too many.
pub open spec fn queued<W: Metric>(seeds: Seq<Seed<W>>, seed: Seed<W>) -> Seq<Seed<W>> {
    if seeds.len() < MAX_SEEDS && !(exists|i: int| 0 <= i < seeds.len() && same_seed(#[trigger] seeds[i], seed)) {
        seeds.push(seed)
    } else {
        seeds
    }
}

fn enqueue<W: Metric>(seeds: &mut Vec<Seed<W>>, seed: Seed<W>)
    ensures
        final(seeds)@ == queued(old(seeds)@, seed),
{
    if seeds.len() >= MAX_SEEDS {
        return;
    }
    let u: i64 = seed.1.0.order();
    let v: i64 = seed.1.1.order();
    let mut i: usize = 0;
    while i < seeds.len()
        invariant
            i <= seeds.len(),
            seeds@ == old(seeds)@,
            u == W::order_of(seed.1.0),
            v == W::order_of(seed.1.1),
            forall|j: int| 0 <= j < i ==> !same_seed(#[trigger] seeds@[j], seed),
        decreases seeds.len() - i,
    {
        let other: Seed<W> = seeds[i];
        if other.0 == seed.0 && other.1.0.order() == u && other.1.1.order() == v {
            assert(same_seed(seeds@[i as int], seed));
            return;
        }
        i += 1;
    }
    seeds.push(seed);
}

pub open spec fn seeds_below<W>(seeds: Seq<Seed<W>>, n: int) -> bool {
    forall|i: int| 0 <= i < seeds.len() ==> (#[trigger] seeds[i]).0 < n
}

/// The seeds with the corner at vertex `v` of the first `m` faces round it.
pub open spec fn fan_queued<'a, S: Metric, W: Metric>(
    ev: LimitEvaluator<'a, S>,
    v: u32,
    seeds: Seq<Seed<W>>,
    m: int,
) -> Seq<Seed<W>>
    decreases m,
{
    if m <= 0 {
        seeds
    } else {
        let f = faces_at(ev.adj(), v as int)[m - 1];
        let before = fan_queued(ev, v, seeds, m - 1);
        match place_of(quad_at(ev.mesh(), f as int), v) {
            Some(k) => queued(before, (f, corner_place::<W>(k))),
            None => before,
        }
    }
}

/// The corner that a place at the ends of both intervals is.
pub open spec fn far_corner<W: Scalar>(uv: (W, W)) -> int {
    corner_number(same_number(uv.0, one_of()), same_number(uv.1, one_of()))
}

/// What is still to be searched from, and which vertices and edges are done.
#[verifier::ext_equal]
pub struct Agenda<W> {
    pub seeds: Seq<Seed<W>>,
    pub fanned: Seq<u32>,
    pub polished: Seq<u32>,
}

/// The agenda with the faces round a corner, once for each vertex.
pub open spec fn fanned_out<'a, S: Metric, W: Metric>(
    ev: LimitEvaluator<'a, S>,
    a: Agenda<W>,
    face: u32,
    uv: (W, W),
) -> Agenda<W> {
    let v = quad_at(ev.mesh(), face as int)[far_corner(uv)];
    if a.fanned.contains(v) {
        a
    } else {
        Agenda {
            seeds: fan_queued(ev, v, a.seeds, faces_at(ev.adj(), v as int).len() as int),
            fanned: a.fanned.push(v),
            polished: a.polished,
        }
    }
}

/// The agenda with the other side of an edge, unless a feature runs along it.
pub open spec fn crossed_over<'a, S: Metric, W: Metric>(
    ev: LimitEvaluator<'a, S>,
    a: Agenda<W>,
    face: u32,
    side: (int, W),
) -> Agenda<W> {
    if feature_line_of(ev, face, side.0) {
        a
    } else {
        match across_of::<S, W>(ev, face, side.0, side.1) {
            Some((f, at)) => Agenda { seeds: queued(a.seeds, (f, at)), fanned: a.fanned, polished: a.polished },
            None => a,
        }
    }
}

/// The agenda with what lies beyond a place on an edge or a corner.
pub open spec fn beyond<'a, S: Metric, W: Metric>(
    ev: LimitEvaluator<'a, S>,
    a: Agenda<W>,
    face: u32,
    uv: (W, W),
) -> Agenda<W> {
    match (end_of(uv.0), end_of(uv.1)) {
        (Some(_), Some(_)) => fanned_out(ev, a, face, uv),
        (Some(far), None) => crossed_over(ev, a, face, side_of(true, far, uv)),
        (None, Some(far)) => crossed_over(ev, a, face, side_of(false, far, uv)),
        (None, None) => a,
    }
}

// ---------------------------------------------------------------------------
// Line search
// ---------------------------------------------------------------------------
/// How often a step is halved before it is given up.
pub const MAX_HALVINGS: u32 = 12;

/// One, halved `j` times.
pub open spec fn share_of<W: Scalar>(j: nat) -> W
    decreases j,
{
    if j == 0 {
        one_of()
    } else {
        W::times_of(share_of((j - 1) as nat), W::ratio_of(1, 2))
    }
}

pub open spec fn moved_by<W: Scalar>(uv: (W, W), step: (W, W), share: W) -> (W, W) {
    (W::plus_of(uv.0, W::times_of(share, step.0)), W::plus_of(uv.1, W::times_of(share, step.1)))
}

pub open spec fn held_inside<W: Scalar>(uv: (W, W)) -> (W, W) {
    (clamped(uv.0), clamped(uv.1))
}

pub open spec fn same_place<W: Scalar>(a: (W, W), b: (W, W)) -> bool {
    same_number(a.0, b.0) && same_number(a.1, b.1)
}

/// A place on a quad with the surface there.
#[verifier::ext_equal]
pub struct Stand<W> {
    pub face: u32,
    pub uv: (W, W),
    pub s: SampleModel<W, W>,
    pub dist2: W,
}

/// A step that brings the surface closer: the place before it is held inside the
/// quad, and the stand there.
#[verifier::ext_equal]
pub struct StepModel<W> {
    pub raw: (W, W),
    pub to: Stand<W>,
}

/// The step, halved `j` times, does not bring the surface closer.
pub open spec fn rejected<'a, S: Metric, W: Wide<S> + Metric>(
    ev: LimitEvaluator<'a, S>,
    q: Seq<W>,
    from: Stand<W>,
    step: (W, W),
    j: nat,
) -> bool {
    let to = held_inside(moved_by(from.uv, step, share_of(j)));
    same_place(to, from.uv) || exists|s: SampleModel<W, W>| #[trigger]
        seen::<S, W>(ev, from.face, to, Ok(s)) && !W::less_of(norm2_of(difference_of(s.p, q)), from.dist2)
}

/// The step, halved `j` times, brings the surface closer.
pub open spec fn improved<'a, S: Metric, W: Wide<S> + Metric>(
    ev: LimitEvaluator<'a, S>,
    q: Seq<W>,
    from: Stand<W>,
    step: (W, W),
    j: nat,
    out: StepModel<W>,
) -> bool {
    let raw = moved_by(from.uv, step, share_of(j));
    let to = held_inside(raw);
    &&& !same_place(to, from.uv)
    &&& out.raw == raw
    &&& out.to.face == from.face
    &&& out.to.uv == to
    &&& seen::<S, W>(ev, from.face, to, Ok(out.to.s))
    &&& out.to.dist2 == norm2_of(difference_of(out.to.s.p, q))
    &&& W::less_of(out.to.dist2, from.dist2)
}

/// The step, halved `j` times, is the first that brings the surface closer.
pub open spec fn first_improved<'a, S: Metric, W: Wide<S> + Metric>(
    ev: LimitEvaluator<'a, S>,
    q: Seq<W>,
    from: Stand<W>,
    step: (W, W),
    j: nat,
    out: StepModel<W>,
) -> bool {
    &&& j < MAX_HALVINGS
    &&& improved::<S, W>(ev, q, from, step, j, out)
    &&& forall|i: nat| i < j ==> #[trigger] rejected::<S, W>(ev, q, from, step, i)
}

/// The first halving of a step that brings the surface closer.
#[verifier::opaque]
pub open spec fn line_searched<'a, S: Metric, W: Wide<S> + Metric>(
    ev: LimitEvaluator<'a, S>,
    q: Seq<W>,
    from: Stand<W>,
    step: (W, W),
    out: Option<StepModel<W>>,
) -> bool {
    match out {
        None => forall|j: nat| j < MAX_HALVINGS ==> #[trigger] rejected::<S, W>(ev, q, from, step, j),
        Some(a) => exists|j: nat| #[trigger] first_improved::<S, W>(ev, q, from, step, j, a),
    }
}

/// A stand in executable form.
pub struct Place<W> {
    pub face: u32,
    pub uv: (W, W),
    pub spot: Spot<W>,
    pub dist2: W,
}

impl<W> Place<W> {
    pub open spec fn view(self) -> Stand<W> {
        Stand { face: self.face, uv: self.uv, s: self.spot@, dist2: self.dist2 }
    }
}

/// A step in executable form.
pub struct Accepted<W> {
    pub raw: (W, W),
    pub to: Place<W>,
}

impl<W> Accepted<W> {
    pub open spec fn view(self) -> StepModel<W> {
        StepModel { raw: self.raw, to: self.to@ }
    }
}

pub open spec fn step_view<W>(a: Option<Accepted<W>>) -> Option<StepModel<W>> {
    match a {
        Some(a) => Some(a@),
        None => None,
    }
}

/// The step, halved `j` times, is the first that leads to a place at which the
/// surface cannot be evaluated.
pub open spec fn first_failed<'a, S: Metric, W: Wide<S> + Metric>(
    ev: LimitEvaluator<'a, S>,
    q: Seq<W>,
    from: Stand<W>,
    step: (W, W),
    j: nat,
    error: KernelError,
) -> bool {
    let to = held_inside(moved_by(from.uv, step, share_of(j)));
    &&& j < MAX_HALVINGS
    &&& !same_place(to, from.uv)
    &&& seen::<S, W>(ev, from.face, to, Err(error))
    &&& forall|i: nat| i < j ==> #[trigger] rejected::<S, W>(ev, q, from, step, i)
}

/// The search along a step comes to a place at which the surface cannot be
/// evaluated.
#[verifier::opaque]
pub open spec fn line_fails<'a, S: Metric, W: Wide<S> + Metric>(
    ev: LimitEvaluator<'a, S>,
    q: Seq<W>,
    from: Stand<W>,
    step: (W, W),
    error: KernelError,
) -> bool {
    exists|j: nat| #[trigger] first_failed::<S, W>(ev, q, from, step, j, error)
}

fn line_search<'a, S: Metric, W: Wide<S> + Metric>(
    ev: &LimitEvaluator<'a, S>,
    q: &[W; 3],
    from: &Place<W>,
    step: (W, W),
) -> (r: Result<Option<Accepted<W>>, KernelError>)
    requires
        ev.wf(),
        from.face < ev.mesh().face_vertex_counts@.len(),
    ensures
        match r {
            Ok(out) => line_searched::<S, W>(*ev, q@, from@, step, step_view(out)) && (out is Some
                ==> out->Some_0.to.face == from.face),
            Err(error) => line_fails::<S, W>(*ev, q@, from@, step, error),
        },
{
    let mut share: W = one();
    let mut j: u32 = 0;
    while j < MAX_HALVINGS
        invariant
            j <= MAX_HALVINGS,
            ev.wf(),
            from.face < ev.mesh().face_vertex_counts@.len(),
            share == share_of::<W>(j as nat),
            forall|i: nat| i < j ==> #[trigger] rejected::<S, W>(*ev, q@, from@, step, i),
        decreases MAX_HALVINGS - j,
    {
        let raw: (W, W) = (from.uv.0.plus(share.times(step.0)), from.uv.1.plus(share.times(step.1)));
        let to: (W, W) = (clamp01(raw.0), clamp01(raw.1));
        if !(is_same_number(to.0, from.uv.0) && is_same_number(to.1, from.uv.1)) {
            let found: Result<Spot<W>, KernelError> = look(ev, from.face, to);
            assert(seen::<S, W>(*ev, from.face, to, spot_outcome(found)));
            match found {
                Err(error) => {
                    proof {
                        reveal(line_fails);
                        assert(first_failed::<S, W>(*ev, q@, from@, step, j as nat, error));
                    }
                    return Err(error);
                },
                Ok(spot) => {
                    let dist2: W = norm2(&difference(&spot.p, q));
                    if dist2.less(from.dist2) {
                        let out = Accepted { raw, to: Place { face: from.face, uv: to, spot, dist2 } };
                        proof {
                            reveal(line_searched);
                            assert(improved::<S, W>(*ev, q@, from@, step, j as nat, out@));
                            assert(first_improved::<S, W>(*ev, q@, from@, step, j as nat, out@));
                            assert(exists|j: nat| #[trigger] first_improved::<S, W>(*ev, q@, from@, step, j, out@));
                            let taken = Some(out@);
                            assert(taken->Some_0 == out@);
                            assert(line_searched::<S, W>(*ev, q@, from@, step, taken));
                        }
                        return Ok(Some(out));
                    }
                    assert(seen::<S, W>(*ev, from@.face, to, Ok(spot@)));
                },
            }
        }
        assert(rejected::<S, W>(*ev, q@, from@, step, j as nat));
        share = share.times(W::ratio(1, 2));
        j += 1;
    }
    proof {
        reveal(line_searched);
    }
    Ok(None)
}

/// The step taken from a stand: the full one, or the one along the free
/// direction.
pub open spec fn step_taken<'a, S: Metric, W: Wide<S> + Metric>(
    ev: LimitEvaluator<'a, S>,
    q: Seq<W>,
    from: Stand<W>,
    out: Option<StepModel<W>>,
) -> bool {
    let d = difference_of(from.s.p, q);
    let full = newton_step_of(d, from.s.du, from.s.dv);
    exists|first: Option<StepModel<W>>| #[trigger]
        line_searched::<S, W>(ev, q, from, full, first) && match first {
            Some(_) => out == first,
            None => match reduced_step_of(from.uv, full, d, from.s.du, from.s.dv) {
                Some(reduced) => line_searched::<S, W>(ev, q, from, reduced, out),
                None => out is None,
            },
        }
}

/// The step from a stand cannot be found.
pub open spec fn step_fails<'a, S: Metric, W: Wide<S> + Metric>(
    ev: LimitEvaluator<'a, S>,
    q: Seq<W>,
    from: Stand<W>,
    error: KernelError,
) -> bool {
    let d = difference_of(from.s.p, q);
    let full = newton_step_of(d, from.s.du, from.s.dv);
    ||| line_fails::<S, W>(ev, q, from, full, error)
    ||| line_searched::<S, W>(ev, q, from, full, None) && match reduced_step_of(
        from.uv,
        full,
        d,
        from.s.du,
        from.s.dv,
    ) {
        Some(reduced) => line_fails::<S, W>(ev, q, from, reduced, error),
        None => false,
    }
}

fn take_step<'a, S: Metric, W: Wide<S> + Metric>(ev: &LimitEvaluator<'a, S>, q: &[W; 3], from: &Place<W>) -> (r: Result<
    Option<Accepted<W>>,
    KernelError,
>)
    requires
        ev.wf(),
        from.face < ev.mesh().face_vertex_counts@.len(),
    ensures
        match r {
            Ok(out) => step_taken::<S, W>(*ev, q@, from@, step_view(out)) && (out is Some ==> out->Some_0.to.face
                == from.face),
            Err(error) => step_fails::<S, W>(*ev, q@, from@, error),
        },
{
    let d: [W; 3] = difference(&from.spot.p, q);
    let full: (W, W) = gauss_newton_step(&d, &from.spot.du, &from.spot.dv);
    let first: Option<Accepted<W>> = match line_search(ev, q, from, full) {
        Ok(first) => first,
        Err(error) => {
            return Err(error);
        },
    };
    assert(line_searched::<S, W>(*ev, q@, from@, full, step_view(first)));
    match first {
        Some(a) => Ok(Some(a)),
        None => match reduced_step(from.uv, full, &d, &from.spot.du, &from.spot.dv) {
            Some(reduced) => line_search(ev, q, from, reduced),
            None => Ok(None),
        },
    }
}

// ---------------------------------------------------------------------------
// Walks
// ---------------------------------------------------------------------------
/// Most steps of a walk.
pub const MAX_NEWTON_ITERATIONS: u32 = 32;

/// Most quads that a walk goes on to.
pub const MAX_SEAM_HOPS: u32 = 8;

/// How a walk ends.
pub enum WalkEnd<W> {
    /// No step brings the surface closer, or only by a trifle.
    Rest(u32, (W, W)),
    /// A step left the quad over a corner.
    Corner(u32, (W, W)),
    /// A step came to a feature along an edge.
    Feature(u32, usize),
    /// The walk was given up.
    Stop,
}

/// Where a step left the quad.
pub enum Crossing<W> {
    Inside,
    Corner,
    Side(usize, W),
}

pub open spec fn step_crossing<W: Scalar>(a: StepModel<W>) -> Crossing<W> {
    match (crossing_of(a.to.uv.0, a.raw.0), crossing_of(a.to.uv.1, a.raw.1)) {
        (Some(_), Some(_)) => Crossing::Corner,
        (Some(far), None) => Crossing::Side(side_of(true, far, a.to.uv).0 as usize, side_of(true, far, a.to.uv).1),
        (None, Some(far)) => Crossing::Side(side_of(false, far, a.to.uv).0 as usize, side_of(false, far, a.to.uv).1),
        (None, None) => Crossing::Inside,
    }
}

fn find_crossing<W: Scalar>(a: &Accepted<W>) -> (r: Crossing<W>)
    ensures
        r == step_crossing(a@),
        r is Side ==> r->Side_0 < 4,
{
    match (pinned_crossing(a.to.uv.0, a.raw.0), pinned_crossing(a.to.uv.1, a.raw.1)) {
        (Some(_), Some(_)) => Crossing::Corner,
        (Some(far), None) => {
            let (slot, x) = find_side(true, far, a.to.uv);
            Crossing::Side(slot, x)
        },
        (None, Some(far)) => {
            let (slot, x) = find_side(false, far, a.to.uv);
            Crossing::Side(slot, x)
        },
        (None, None) => Crossing::Inside,
    }
}

pub open spec fn stand_offer<W>(s: Stand<W>) -> Offer<W> {
    Offer { face: s.face, uv: s.uv, position: s.s.p, dist2: s.dist2 }
}

/// A walk from a stand, with `left` steps to go, offers `seg` and ends so: each
/// step brings the surface closer, and one that leaves the quad over an edge
/// goes on in the quad beyond.
pub open spec fn walked<'a, S: Metric, W: Wide<S> + Metric>(
    ev: LimitEvaluator<'a, S>,
    q: Seq<W>,
    tolerance: W,
    from: Stand<W>,
    hops: nat,
    left: nat,
    seg: Seq<Offer<W>>,
    end: WalkEnd<W>,
) -> bool
    decreases left,
{
    if left == 0 {
        seg.len() == 0 && end is Stop
    } else {
        exists|step: Option<StepModel<W>>| #[trigger]
            step_taken::<S, W>(ev, q, from, step) && match step {
                None => seg.len() == 0 && end == WalkEnd::Rest(from.face, from.uv),
                Some(a) => {
                    &&& seg.len() > 0
                    &&& seg[0] == stand_offer(a.to)
                    &&& if W::at_most_of(
                        norm2_of(difference_of(a.to.s.p, from.s.p)),
                        W::times_of(tolerance, tolerance),
                    ) {
                        seg.len() == 1 && end == WalkEnd::Rest(from.face, a.to.uv)
                    } else {
                        match step_crossing(a) {
                            Crossing::Corner => seg.len() == 1 && end == WalkEnd::Corner(from.face, a.to.uv),
                            Crossing::Inside => walked::<S, W>(
                                ev,
                                q,
                                tolerance,
                                a.to,
                                hops,
                                (left - 1) as nat,
                                seg.skip(1),
                                end,
                            ),
                            Crossing::Side(slot, x) => if feature_line_of(ev, from.face, slot as int) {
                                seg.len() == 1 && end == WalkEnd::<W>::Feature(from.face, slot)
                            } else if hops + 1 > MAX_SEAM_HOPS {
                                seg.len() == 1 && end is Stop
                            } else {
                                match across_of::<S, W>(ev, from.face, slot as int, x) {
                                    None => seg.len() == 1 && end is Stop,
                                    Some((f, at)) => exists|s: SampleModel<W, W>| #[trigger]
                                        seen::<S, W>(ev, f, at, Ok(s)) && seg.len() > 1 && seg[1] == offer_of(
                                            q,
                                            f,
                                            at,
                                            s,
                                        ) && walked::<S, W>(
                                            ev,
                                            q,
                                            tolerance,
                                            Stand { face: f, uv: at, s, dist2: offer_of(q, f, at, s).dist2 },
                                            hops + 1,
                                            (left - 1) as nat,
                                            seg.skip(2),
                                            end,
                                        ),
                                }
                            },
                        }
                    }
                },
            }
    }
}

/// A walk offers `seg` and then comes to a place at which the surface cannot be
/// evaluated.
pub open spec fn walk_fails<'a, S: Metric, W: Wide<S> + Metric>(
    ev: LimitEvaluator<'a, S>,
    q: Seq<W>,
    tolerance: W,
    from: Stand<W>,
    hops: nat,
    left: nat,
    seg: Seq<Offer<W>>,
    error: KernelError,
) -> bool
    decreases left,
{
    if left == 0 {
        false
    } else {
        ||| seg.len() == 0 && step_fails::<S, W>(ev, q, from, error)
        ||| exists|step: Option<StepModel<W>>| #[trigger]
            step_taken::<S, W>(ev, q, from, step) && match step {
                None => false,
                Some(a) => {
                    &&& seg.len() > 0
                    &&& seg[0] == stand_offer(a.to)
                    &&& !W::at_most_of(
                        norm2_of(difference_of(a.to.s.p, from.s.p)),
                        W::times_of(tolerance, tolerance),
                    )
                    &&& match step_crossing(a) {
                        Crossing::Corner => false,
                        Crossing::Inside => walk_fails::<S, W>(
                            ev,
                            q,
                            tolerance,
                            a.to,
                            hops,
                            (left - 1) as nat,
                            seg.skip(1),
                            error,
                        ),
                        Crossing::Side(slot, x) => !feature_line_of(ev, from.face, slot as int) && hops + 1
                            <= MAX_SEAM_HOPS && match across_of::<S, W>(ev, from.face, slot as int, x) {
                            None => false,
                            Some((f, at)) => {
                                ||| seg.len() == 1 && seen::<S, W>(ev, f, at, Err(error))
                                ||| exists|s: SampleModel<W, W>| #[trigger]
                                    seen::<S, W>(ev, f, at, Ok(s)) && seg.len() > 1 && seg[1] == offer_of(q, f, at, s)
                                        && walk_fails::<S, W>(
                                        ev,
                                        q,
                                        tolerance,
                                        Stand { face: f, uv: at, s, dist2: offer_of(q, f, at, s).dist2 },
                                        hops + 1,
                                        (left - 1) as nat,
                                        seg.skip(2),
                                        error,
                                    )
                            },
                        },
                    }
                },
            }
    }
}

// ---------------------------------------------------------------------------
// Feature edges
// ---------------------------------------------------------------------------
/// An offer at `x` along an edge.
pub open spec fn edge_offer<'a, S: Metric, W: Wide<S> + Metric>(
    ev: LimitEvaluator<'a, S>,
    q: Seq<W>,
    face: u32,
    slot: int,
    x: W,
    o: Offer<W>,
) -> bool {
    &&& o.face == face
    &&& o.uv == edge_place(slot, x)
    &&& honest::<S, W>(ev, q, o)
}

/// The closer of a distance and place along an edge and another.
pub open spec fn closer<W: Scalar>(best: (W, W), dist2: W, x: W) -> (W, W) {
    if W::less_of(dist2, best.0) {
        (dist2, x)
    } else {
        best
    }
}

/// The nine places at which an edge is looked at first.
pub open spec fn coarse_place<W: Scalar>(k: int) -> W {
    W::times_of(W::ratio_of(k as u32, 1), W::ratio_of(1, 8))
}

/// The closest of the first `k` of the nine places.
pub open spec fn coarse_best<W: Metric>(seg: Seq<Offer<W>>, k: int) -> (W, W)
    decreases k,
{
    if k <= 0 {
        (W::infinity_of(), zero_of())
    } else {
        closer(coarse_best(seg, k - 1), seg[k - 1].dist2, coarse_place(k - 1))
    }
}

pub open spec fn in_unit<W: Scalar>(x: W) -> bool {
    W::at_most_of(zero_of(), x) && W::at_most_of(x, one_of())
}

/// An edge is looked at on both sides of the best place, at half the distance
/// each time, where that is still on the edge.
pub open spec fn narrowed_down<'a, S: Metric, W: Wide<S> + Metric>(
    ev: LimitEvaluator<'a, S>,
    q: Seq<W>,
    face: u32,
    slot: int,
    left: nat,
    step: W,
    best: (W, W),
    seg: Seq<Offer<W>>,
    out: (W, W),
) -> bool
    decreases left,
{
    if left == 0 {
        seg.len() == 0 && out == best
    } else {
        let half = W::times_of(step, W::ratio_of(1, 2));
        let low = W::minus_of(best.1, half);
        let high = W::plus_of(best.1, half);
        let n: int = if in_unit(low) {
            1
        } else {
            0
        };
        let m: int = if in_unit(high) {
            n + 1
        } else {
            n
        };
        let first = if in_unit(low) {
            closer(best, seg[0].dist2, low)
        } else {
            best
        };
        let second = if in_unit(high) {
            closer(first, seg[n].dist2, high)
        } else {
            first
        };
        &&& seg.len() >= m
        &&& in_unit(low) ==> edge_offer::<S, W>(ev, q, face, slot, low, seg[0])
        &&& in_unit(high) ==> edge_offer::<S, W>(ev, q, face, slot, high, seg[n])
        &&& narrowed_down::<S, W>(ev, q, face, slot, (left - 1) as nat, half, second, seg.skip(m), out)
    }
}

/// To look ever closer to the best place of an edge leads to a place at which the
/// surface cannot be evaluated.
pub open spec fn narrowing_fails<'a, S: Metric, W: Wide<S> + Metric>(
    ev: LimitEvaluator<'a, S>,
    q: Seq<W>,
    face: u32,
    slot: int,
    left: nat,
    step: W,
    best: (W, W),
    seg: Seq<Offer<W>>,
    error: KernelError,
) -> bool
    decreases left,
{
    if left == 0 {
        false
    } else {
        let half = W::times_of(step, W::ratio_of(1, 2));
        let low = W::minus_of(best.1, half);
        let high = W::plus_of(best.1, half);
        let n: int = if in_unit(low) {
            1
        } else {
            0
        };
        let m: int = if in_unit(high) {
            n + 1
        } else {
            n
        };
        let first = if in_unit(low) {
            closer(best, seg[0].dist2, low)
        } else {
            best
        };
        let second = if in_unit(high) {
            closer(first, seg[n].dist2, high)
        } else {
            first
        };
        ||| in_unit(low) && seg.len() == 0 && seen::<S, W>(ev, face, edge_place(slot, low), Err(error))
        ||| in_unit(high) && seg.len() == n && (in_unit(low) ==> edge_offer::<S, W>(ev, q, face, slot, low, seg[0]))
            && seen::<S, W>(ev, face, edge_place(slot, high), Err(error))
        ||| seg.len() >= m && (in_unit(low) ==> edge_offer::<S, W>(ev, q, face, slot, low, seg[0])) && (in_unit(high)
            ==> edge_offer::<S, W>(ev, q, face, slot, high, seg[n])) && narrowing_fails::<S, W>(
            ev,
            q,
            face,
            slot,
            (left - 1) as nat,
            half,
            second,
            seg.skip(m),
            error,
        )
    }
}

/// How often the distance is halved.
pub const EDGE_ROUNDS: u32 = 15;

/// An edge is looked at in nine places and then ever closer to the best one.
pub open spec fn swept<'a, S: Metric, W: Wide<S> + Metric>(
    ev: LimitEvaluator<'a, S>,
    q: Seq<W>,
    face: u32,
    slot: int,
    seg: Seq<Offer<W>>,
    out: (W, W),
) -> bool {
    &&& seg.len() >= 9
    &&& forall|k: int| 0 <= k < 9 ==> edge_offer::<S, W>(ev, q, face, slot, coarse_place(k), #[trigger] seg[k])
    &&& narrowed_down::<S, W>(
        ev,
        q,
        face,
        slot,
        EDGE_ROUNDS as nat,
        W::ratio_of(1, 8),
        coarse_best(seg, 9),
        seg.skip(9),
        out,
    )
}

/// The sweep of an edge comes to a place at which the surface cannot be evaluated.
pub open spec fn sweep_fails<'a, S: Metric, W: Wide<S> + Metric>(
    ev: LimitEvaluator<'a, S>,
    q: Seq<W>,
    face: u32,
    slot: int,
    seg: Seq<Offer<W>>,
    error: KernelError,
) -> bool {
    &&& forall|k: int|
        0 <= k < 9 && k < seg.len() ==> edge_offer::<S, W>(ev, q, face, slot, coarse_place(k), #[trigger] seg[k])
    &&& if seg.len() < 9 {
        seen::<S, W>(ev, face, edge_place(slot, coarse_place(seg.len() as int)), Err(error))
    } else {
        narrowing_fails::<S, W>(
            ev,
            q,
            face,
            slot,
            EDGE_ROUNDS as nat,
            W::ratio_of(1, 8),
            coarse_best(seg, 9),
            seg.skip(9),
            error,
        )
    }
}

/// The agenda after an edge was swept: where the best place is next to an end,
/// the faces round that corner are added.
pub open spec fn edge_done<'a, S: Metric, W: Metric>(
    ev: LimitEvaluator<'a, S>,
    a: Agenda<W>,
    face: u32,
    slot: int,
    best: (W, W),
) -> Agenda<W> {
    let edge = ev.adj().face_edges@[4 * face + slot];
    let done = Agenda { seeds: a.seeds, fanned: a.fanned, polished: a.polished.push(edge) };
    if W::at_most_of(best.1, W::tiny_of(3)) {
        fanned_out(ev, done, face, edge_place(slot, zero_of()))
    } else if W::at_most_of(W::minus_of(one_of(), W::tiny_of(3)), best.1) {
        fanned_out(ev, done, face, edge_place(slot, one_of()))
    } else {
        done
    }
}

/// An edge is swept, once.
#[verifier::opaque]
pub open spec fn edge_polished<'a, S: Metric, W: Wide<S> + Metric>(
    ev: LimitEvaluator<'a, S>,
    q: Seq<W>,
    a: Agenda<W>,
    face: u32,
    slot: int,
    seg: Seq<Offer<W>>,
    b: Agenda<W>,
) -> bool {
    if a.polished.contains(ev.adj().face_edges@[4 * face + slot]) {
        seg.len() == 0 && b == a
    } else {
        exists|best: (W, W)| #[trigger]
            swept::<S, W>(ev, q, face, slot, seg, best) && b == edge_done(ev, a, face, slot, best)
    }
}

/// An edge that was not swept before cannot be swept to the end.
#[verifier::opaque]
pub open spec fn edge_fails<'a, S: Metric, W: Wide<S> + Metric>(
    ev: LimitEvaluator<'a, S>,
    q: Seq<W>,
    a: Agenda<W>,
    face: u32,
    slot: int,
    seg: Seq<Offer<W>>,
    error: KernelError,
) -> bool {
    !a.polished.contains(ev.adj().face_edges@[4 * face + slot]) && sweep_fails::<S, W>(ev, q, face, slot, seg, error)
}

/// The edges that a place is on.
pub open spec fn edges_through<W: Scalar>(uv: (W, W)) -> Seq<int> {
    match (end_of(uv.0), end_of(uv.1)) {
        (Some(false), Some(false)) => seq![3, 0],
        (Some(true), Some(false)) => seq![0, 1],
        (Some(true), Some(true)) => seq![1, 2],
        (Some(false), Some(true)) => seq![2, 3],
        (Some(false), None) => seq![3],
        (Some(true), None) => seq![1],
        (None, Some(false)) => seq![0],
        (None, Some(true)) => seq![2],
        (None, None) => Seq::empty(),
    }
}

fn find_edges_through<W: Scalar>(uv: (W, W)) -> (r: Vec<usize>)
    ensures
        r@.map_values(|s: usize| s as int) == edges_through(uv),
        forall|k: int| 0 <= k < r@.len() ==> (#[trigger] r@[k]) < 4,
{
    let r: Vec<usize> = match (find_end(uv.0), find_end(uv.1)) {
        (Some(false), Some(false)) => vec![3, 0],
        (Some(true), Some(false)) => vec![0, 1],
        (Some(true), Some(true)) => vec![1, 2],
        (Some(false), Some(true)) => vec![2, 3],
        (Some(false), None) => vec![3],
        (Some(true), None) => vec![1],
        (None, Some(false)) => vec![0],
        (None, Some(true)) => vec![2],
        (None, None) => Vec::new(),
    };
    assert(r@.map_values(|s: usize| s as int) =~= edges_through(uv));
    r
}

/// The first `m` edges through a place that are features are swept.
pub open spec fn features_polished<'a, S: Metric, W: Wide<S> + Metric>(
    ev: LimitEvaluator<'a, S>,
    q: Seq<W>,
    a: Agenda<W>,
    face: u32,
    slots: Seq<int>,
    seg: Seq<Offer<W>>,
    b: Agenda<W>,
) -> bool
    decreases slots.len(),
{
    if slots.len() == 0 {
        seg.len() == 0 && b == a
    } else if !feature_line_of(ev, face, slots[0]) {
        features_polished::<S, W>(ev, q, a, face, slots.skip(1), seg, b)
    } else {
        exists|k: int, mid: Agenda<W>|
            0 <= k <= seg.len() && #[trigger] edge_polished::<S, W>(ev, q, a, face, slots[0], seg.take(k), mid)
                && features_polished::<S, W>(ev, q, mid, face, slots.skip(1), seg.skip(k), b)
    }
}

/// One of the edges through a place that are features cannot be swept to the end.
pub open spec fn features_fail<'a, S: Metric, W: Wide<S> + Metric>(
    ev: LimitEvaluator<'a, S>,
    q: Seq<W>,
    a: Agenda<W>,
    face: u32,
    slots: Seq<int>,
    seg: Seq<Offer<W>>,
    error: KernelError,
) -> bool
    decreases slots.len(),
{
    if slots.len() == 0 {
        false
    } else if !feature_line_of(ev, face, slots[0]) {
        features_fail::<S, W>(ev, q, a, face, slots.skip(1), seg, error)
    } else {
        ||| edge_fails::<S, W>(ev, q, a, face, slots[0], seg, error)
        ||| exists|k: int, mid: Agenda<W>|
            0 <= k <= seg.len() && #[trigger] edge_polished::<S, W>(ev, q, a, face, slots[0], seg.take(k), mid)
                && features_fail::<S, W>(ev, q, mid, face, slots.skip(1), seg.skip(k), error)
    }
}

/// What follows a walk.
pub open spec fn walk_closed<'a, S: Metric, W: Wide<S> + Metric>(
    ev: LimitEvaluator<'a, S>,
    q: Seq<W>,
    a: Agenda<W>,
    end: WalkEnd<W>,
    seg: Seq<Offer<W>>,
    b: Agenda<W>,
) -> bool {
    match end {
        WalkEnd::Rest(face, uv) => exists|mid: Agenda<W>| #[trigger]
            features_polished::<S, W>(ev, q, a, face, edges_through(uv), seg, mid) && b == beyond(ev, mid, face, uv),
        WalkEnd::Corner(face, uv) => seg.len() == 0 && b == fanned_out(ev, a, face, uv),
        WalkEnd::Feature(face, slot) => edge_polished::<S, W>(ev, q, a, face, slot as int, seg, b),
        WalkEnd::Stop => seg.len() == 0 && b == a,
    }
}

/// What follows a walk comes to a place at which the surface cannot be evaluated.
pub open spec fn closing_fails<'a, S: Metric, W: Wide<S> + Metric>(
    ev: LimitEvaluator<'a, S>,
    q: Seq<W>,
    a: Agenda<W>,
    end: WalkEnd<W>,
    seg: Seq<Offer<W>>,
    error: KernelError,
) -> bool {
    match end {
        WalkEnd::Rest(face, uv) => features_fail::<S, W>(ev, q, a, face, edges_through(uv), seg, error),
        WalkEnd::Feature(face, slot) => edge_fails::<S, W>(ev, q, a, face, slot as int, seg, error),
        _ => false,
    }
}

/// A run from a seed: the place itself, the walk from it and what follows.
pub open spec fn ran<'a, S: Metric, W: Wide<S> + Metric>(
    ev: LimitEvaluator<'a, S>,
    q: Seq<W>,
    tolerance: W,
    a: Agenda<W>,
    seed: Seed<W>,
    seg: Seq<Offer<W>>,
    b: Agenda<W>,
) -> bool {
    exists|s: SampleModel<W, W>, end: WalkEnd<W>, k: int|
        #![trigger seen::<S, W>(ev, seed.0, seed.1, Ok(s)), walk_closed::<S, W>(ev, q, a, end, seg.skip(k), b)]
        1 <= k <= seg.len() && seen::<S, W>(ev, seed.0, seed.1, Ok(s)) && seg[0] == offer_of(q, seed.0, seed.1, s)
            && walked::<S, W>(
            ev,
            q,
            tolerance,
            Stand { face: seed.0, uv: seed.1, s, dist2: offer_of(q, seed.0, seed.1, s).dist2 },
            0,
            MAX_NEWTON_ITERATIONS as nat,
            seg.subrange(1, k),
            end,
        ) && walk_closed::<S, W>(ev, q, a, end, seg.skip(k), b)
}

/// A run from a seed comes to a place at which the surface cannot be evaluated.
pub open spec fn run_fails<'a, S: Metric, W: Wide<S> + Metric>(
    ev: LimitEvaluator<'a, S>,
    q: Seq<W>,
    tolerance: W,
    a: Agenda<W>,
    seed: Seed<W>,
    seg: Seq<Offer<W>>,
    error: KernelError,
) -> bool {
    ||| seg.len() == 0 && seen::<S, W>(ev, seed.0, seed.1, Err(error))
    ||| exists|s: SampleModel<W, W>| #[trigger]
        seen::<S, W>(ev, seed.0, seed.1, Ok(s)) && seg.len() > 0 && seg[0] == offer_of(q, seed.0, seed.1, s)
            && started_run_fails::<S, W>(
            ev,
            q,
            tolerance,
            a,
            Stand { face: seed.0, uv: seed.1, s, dist2: offer_of(q, seed.0, seed.1, s).dist2 },
            seg,
            error,
        )
}

/// The walk from a stand, or what follows it, cannot be brought to an end.
pub open spec fn started_run_fails<'a, S: Metric, W: Wide<S> + Metric>(
    ev: LimitEvaluator<'a, S>,
    q: Seq<W>,
    tolerance: W,
    a: Agenda<W>,
    from: Stand<W>,
    seg: Seq<Offer<W>>,
    error: KernelError,
) -> bool {
    ||| walk_fails::<S, W>(ev, q, tolerance, from, 0, MAX_NEWTON_ITERATIONS as nat, seg.skip(1), error)
    ||| exists|end: WalkEnd<W>, k: int|
        1 <= k <= seg.len() && walked::<S, W>(
            ev,
            q,
            tolerance,
            from,
            0,
            MAX_NEWTON_ITERATIONS as nat,
            seg.subrange(1, k),
            end,
        ) && #[trigger] closing_fails::<S, W>(ev, q, a, end, seg.skip(k), error)
}

// ---------------------------------------------------------------------------
// Quads
// ---------------------------------------------------------------------------
/// The runs from all seeds, from the `next`th on; runs may add seeds.
pub open spec fn seeds_run<'a, S: Metric, W: Wide<S> + Metric>(
    ev: LimitEvaluator<'a, S>,
    q: Seq<W>,
    tolerance: W,
    a: Agenda<W>,
    next: int,
    seg: Seq<Offer<W>>,
    b: Agenda<W>,
) -> bool
    decreases MAX_SEEDS - next,
{
    if next >= a.seeds.len() || next >= MAX_SEEDS {
        seg.len() == 0 && b == a
    } else {
        exists|k: int, mid: Agenda<W>|
            0 <= k <= seg.len() && #[trigger] ran::<S, W>(ev, q, tolerance, a, a.seeds[next], seg.take(k), mid)
                && seeds_run::<S, W>(ev, q, tolerance, mid, next + 1, seg.skip(k), b)
    }
}

/// One of the runs from the `next`th seed on cannot be brought to an end.
pub open spec fn seeds_fail<'a, S: Metric, W: Wide<S> + Metric>(
    ev: LimitEvaluator<'a, S>,
    q: Seq<W>,
    tolerance: W,
    a: Agenda<W>,
    next: int,
    seg: Seq<Offer<W>>,
    error: KernelError,
) -> bool
    decreases MAX_SEEDS - next,
{
    if next >= a.seeds.len() || next >= MAX_SEEDS {
        false
    } else {
        ||| run_fails::<S, W>(ev, q, tolerance, a, a.seeds[next], seg, error)
        ||| exists|k: int, mid: Agenda<W>|
            0 <= k <= seg.len() && #[trigger] ran::<S, W>(ev, q, tolerance, a, a.seeds[next], seg.take(k), mid)
                && seeds_fail::<S, W>(ev, q, tolerance, mid, next + 1, seg.skip(k), error)
    }
}

/// An agenda and the vertices from which runs were started.
#[verifier::ext_equal]
pub struct Progress<W> {
    pub agenda: Agenda<W>,
    pub corner_runs: Seq<u32>,
}

/// The corners of a quad, from corner `from` on: a run will start from each
/// vertex once, and is replaced by a look after that.
pub open spec fn corners_started<'a, S: Metric, W: Wide<S> + Metric>(
    ev: LimitEvaluator<'a, S>,
    q: Seq<W>,
    face: u32,
    from: int,
    a: Progress<W>,
    seg: Seq<Offer<W>>,
    b: Progress<W>,
) -> bool
    decreases 4 - from,
{
    if from >= 4 {
        seg.len() == 0 && b == a
    } else {
        let v = quad_at(ev.mesh(), face as int)[from];
        let at = corner_place::<W>(from);
        if a.corner_runs.contains(v) {
            exists|s: SampleModel<W, W>| #[trigger]
                seen::<S, W>(ev, face, at, Ok(s)) && seg.len() > 0 && seg[0] == offer_of(q, face, at, s)
                    && corners_started::<S, W>(ev, q, face, from + 1, a, seg.skip(1), b)
        } else {
            corners_started::<S, W>(
                ev,
                q,
                face,
                from + 1,
                Progress {
                    agenda: Agenda {
                        seeds: queued(a.agenda.seeds, (face, at)),
                        fanned: a.agenda.fanned,
                        polished: a.agenda.polished,
                    },
                    corner_runs: a.corner_runs.push(v),
                },
                seg,
                b,
            )
        }
    }
}

/// One of the corners from corner `from` on cannot be looked at.
pub open spec fn corners_fail<'a, S: Metric, W: Wide<S> + Metric>(
    ev: LimitEvaluator<'a, S>,
    q: Seq<W>,
    face: u32,
    from: int,
    a: Progress<W>,
    seg: Seq<Offer<W>>,
    error: KernelError,
) -> bool
    decreases 4 - from,
{
    if from >= 4 {
        false
    } else {
        let v = quad_at(ev.mesh(), face as int)[from];
        let at = corner_place::<W>(from);
        if a.corner_runs.contains(v) {
            ||| seg.len() == 0 && seen::<S, W>(ev, face, at, Err(error))
            ||| exists|s: SampleModel<W, W>| #[trigger]
                seen::<S, W>(ev, face, at, Ok(s)) && seg.len() > 0 && seg[0] == offer_of(q, face, at, s)
                    && corners_fail::<S, W>(ev, q, face, from + 1, a, seg.skip(1), error)
        } else {
            corners_fail::<S, W>(
                ev,
                q,
                face,
                from + 1,
                Progress {
                    agenda: Agenda {
                        seeds: queued(a.agenda.seeds, (face, at)),
                        fanned: a.agenda.fanned,
                        polished: a.agenda.polished,
                    },
                    corner_runs: a.corner_runs.push(v),
                },
                seg,
                error,
            )
        }
    }
}

/// The centre of a quad.
pub open spec fn centre_of<W: Scalar>() -> (W, W) {
    (W::ratio_of(1, 2), W::ratio_of(1, 2))
}

/// What the search of a quad starts with.
pub open spec fn quad_start<W: Metric>(a: Progress<W>, face: u32) -> Progress<W> {
    Progress {
        agenda: Agenda {
            seeds: seq![(face, centre_of::<W>())],
            fanned: a.agenda.fanned,
            polished: a.agenda.polished,
        },
        corner_runs: a.corner_runs,
    }
}

/// A quad is searched: from its centre, from its corners and from all that the
/// runs come upon.
#[verifier::opaque]
pub open spec fn quad_searched<'a, S: Metric, W: Wide<S> + Metric>(
    ev: LimitEvaluator<'a, S>,
    q: Seq<W>,
    tolerance: W,
    a: Progress<W>,
    face: u32,
    seg: Seq<Offer<W>>,
    b: Progress<W>,
) -> bool {
    exists|k: int, mid: Progress<W>|
        0 <= k <= seg.len() && #[trigger] corners_started::<S, W>(
            ev,
            q,
            face,
            0,
            quad_start(a, face),
            seg.take(k),
            mid,
        ) && seeds_run::<S, W>(ev, q, tolerance, mid.agenda, 0, seg.skip(k), b.agenda) && b.corner_runs
            == mid.corner_runs
}

/// The search of a quad offers `seg` and then comes to a place at which the surface
/// cannot be evaluated.
#[verifier::opaque]
pub open spec fn quad_fails<'a, S: Metric, W: Wide<S> + Metric>(
    ev: LimitEvaluator<'a, S>,
    q: Seq<W>,
    tolerance: W,
    a: Progress<W>,
    face: u32,
    seg: Seq<Offer<W>>,
    error: KernelError,
) -> bool {
    ||| corners_fail::<S, W>(ev, q, face, 0, quad_start(a, face), seg, error)
    ||| exists|k: int, mid: Progress<W>|
        0 <= k <= seg.len() && #[trigger] corners_started::<S, W>(
            ev,
            q,
            face,
            0,
            quad_start(a, face),
            seg.take(k),
            mid,
        ) && seeds_fail::<S, W>(ev, q, tolerance, mid.agenda, 0, seg.skip(k), error)
}

// ---------------------------------------------------------------------------
// Search
// ---------------------------------------------------------------------------
/// A search for the closest point.
pub struct Minimizer<'e, 'a, S, W> {
    pub evaluator: &'e LimitEvaluator<'a, S>,
    pub q: [W; 3],
    /// A step that moves the point by less ends a walk.
    pub tolerance: W,
    pub best: Best<W>,
    pub seeds: Vec<Seed<W>>,
    /// Vertices from which a run was started.
    pub corner_runs: Vec<u32>,
    /// Vertices whose faces were added to the seeds.
    pub fanned: Vec<u32>,
    /// Edges that were swept.
    pub polished: Vec<u32>,
    /// All points that were looked at.
    pub log: Ghost<Seq<Offer<W>>>,
}

fn has(list: &[u32], x: u32) -> (r: bool)
    ensures
        r == list@.contains(x),
{
    crate::connectivity::has_item(list, x)
}

impl<'e, 'a, S: Metric, W: Wide<S> + Metric> Minimizer<'e, 'a, S, W> {
    pub open spec fn nf(self) -> nat {
        self.evaluator.mesh().face_vertex_counts@.len()
    }

    /// All offers are honest, the best of them is kept, and the seeds are on the
    /// surface.
    pub open spec fn wf(self) -> bool {
        &&& self.evaluator.wf()
        &&& self.nf() > 0
        &&& self.best@ == best_of(self.log@)
        &&& forall|i: int|
            0 <= i < self.log@.len() ==> honest::<S, W>(*self.evaluator, self.q@, #[trigger] self.log@[i])
        &&& seeds_below(self.seeds@, self.nf() as int)
        &&& self.seeds@.len() <= MAX_SEEDS
    }

    pub open spec fn agenda(self) -> Agenda<W> {
        Agenda { seeds: self.seeds@, fanned: self.fanned@, polished: self.polished@ }
    }

    /// The same search, further on.
    pub open spec fn continues(self, before: Self) -> bool {
        &&& self.evaluator == before.evaluator
        &&& self.q == before.q
        &&& self.tolerance == before.tolerance
        &&& starts_as(self.log@, before.log@)
        &&& starts_as(self.seeds@, before.seeds@)
    }

    /// What was looked at since.
    pub open spec fn since(self, before: Self) -> Seq<Offer<W>> {
        self.log@.skip(before.log@.len() as int)
    }

    fn offer(&mut self, face: u32, uv: (W, W), position: [W; 3], dist2: W)
        requires
            old(self).wf(),
            honest::<S, W>(
                *old(self).evaluator,
                old(self).q@,
                (Offer { face, uv, position: position@, dist2 }),
            ),
        ensures
            final(self).wf(),
            final(self).continues(*old(self)),
            final(self).log@ == old(self).log@.push(Offer { face, uv, position: position@, dist2 }),
            final(self).agenda() == old(self).agenda(),
            final(self).corner_runs == old(self).corner_runs,
    {
        let ghost o = Offer { face, uv, position: position@, dist2 };
        let ghost before = self.log@;
        if dist2.less(self.best.dist2) {
            self.best = Best { dist2, face, uv, position };
        }
        self.log = Ghost(self.log@.push(o));
        proof {
            assert(self.log@.drop_last() =~= before);
            assert forall|i: int| 0 <= i < self.log@.len() implies honest::<S, W>(
                *self.evaluator,
                self.q@,
                #[trigger] self.log@[i],
            ) by {
                if i < before.len() {
                    assert(self.log@[i] == before[i]);
                }
            }
        }
    }

    /// Looks at a place and offers it.
    fn visit(&mut self, face: u32, uv: (W, W)) -> (r: Result<Place<W>, KernelError>)
        requires
            old(self).wf(),
            face < old(self).nf(),
        ensures
            final(self).wf(),
            final(self).continues(*old(self)),
            final(self).agenda() == old(self).agenda(),
            final(self).corner_runs == old(self).corner_runs,
            match r {
                Ok(place) => {
                    &&& place.face == face
                    &&& place.uv == uv
                    &&& seen::<S, W>(*old(self).evaluator, face, uv, Ok(place.spot@))
                    &&& place.dist2 == offer_of(old(self).q@, face, uv, place.spot@).dist2
                    &&& final(self).log@ == old(self).log@.push(offer_of(old(self).q@, face, uv, place.spot@))
                },
                Err(error) => seen::<S, W>(*old(self).evaluator, face, uv, Err(error)) && final(self).log@
                    == old(self).log@,
            },
    {
        match look(self.evaluator, face, uv) {
            Err(error) => {
                proof {
                    assert(seen::<S, W>(*self.evaluator, face, uv, Err(error)));
                }
                Err(error)
            },
            Ok(spot) => {
                let dist2: W = norm2(&difference(&spot.p, &self.q));
                proof {
                    lemma_honest::<S, W>(*self.evaluator, self.q@, face, uv, spot@);
                    assert(offer_of(self.q@, face, uv, spot@) == Offer { face, uv, position: spot.p@, dist2 });
                }
                self.offer(face, uv, spot.p, dist2);
                Ok(Place { face, uv, spot, dist2 })
            },
        }
    }

    /// Adds the faces round a corner to the seeds, once for each vertex.
    fn enqueue_corner_fan(&mut self, face: u32, uv: (W, W))
        requires
            old(self).wf(),
            face < old(self).nf(),
        ensures
            final(self).wf(),
            final(self).continues(*old(self)),
            final(self).log == old(self).log,
            final(self).corner_runs == old(self).corner_runs,
            final(self).agenda() == fanned_out(*old(self).evaluator, old(self).agenda(), face, uv),
    {
        let ev: &LimitEvaluator<'a, S> = self.evaluator;
        let mesh: &Mesh<S> = &ev.result.topology;
        let adj: &Adjacency = &ev.result.adjacency;
        let corner: usize = corner_index(is_same_number(uv.0, one()), is_same_number(uv.1, one()));
        let quad: &[u32] = quad_slice(mesh, Ghost(*adj), face as usize);
        let v: u32 = quad[corner];
        assert(quad@[corner as int] < mesh.vertex_count);
        if has(&self.fanned, v) {
            return;
        }
        self.fanned.push(v);
        let list: &[u32] = faces_slice(mesh, adj, v as usize);
        let ghost start = self.seeds@;
        let mut m: usize = 0;
        while m < list.len()
            invariant
                m <= list.len(),
                ev.wf(),
                self.evaluator == ev,
                self.wf(),
                *mesh == ev.mesh(),
                *adj == ev.adj(),
                list@ == faces_at(*adj, v as int),
                all_below(list@, mesh.face_vertex_counts@.len() as int),
                start == old(self).seeds@,
                self.seeds@ == fan_queued(*ev, v, start, m as int),
                starts_as(self.seeds@, start),
                self.fanned@ == old(self).fanned@.push(v),
                self.polished == old(self).polished,
                self.log == old(self).log,
                self.q == old(self).q,
                self.tolerance == old(self).tolerance,
                self.best == old(self).best,
                self.corner_runs == old(self).corner_runs,
                self.evaluator == old(self).evaluator,
            decreases list.len() - m,
        {
            assert(list@[m as int] < mesh.face_vertex_counts@.len());
            let f: u32 = list[m];
            let corners: &[u32] = quad_slice(mesh, Ghost(*adj), f as usize);
            if let Some(k) = find_place(corners, v) {
                let ghost before = self.seeds@;
                enqueue(&mut self.seeds, (f, corner_uv(k)));
                proof {
                    lemma_queued(before, (f, corner_place::<W>(k as int)), self.nf() as int);
                }
            }
            m += 1;
        }
    }

    /// Adds what lies beyond a place on an edge or a corner to the seeds.
    fn enqueue_pinned(&mut self, face: u32, uv: (W, W))
        requires
            old(self).wf(),
            face < old(self).nf(),
        ensures
            final(self).wf(),
            final(self).continues(*old(self)),
            final(self).log == old(self).log,
            final(self).corner_runs == old(self).corner_runs,
            final(self).agenda() == beyond(*old(self).evaluator, old(self).agenda(), face, uv),
    {
        let (slot, x): (usize, W) = match (find_end(uv.0), find_end(uv.1)) {
            (Some(_), Some(_)) => {
                self.enqueue_corner_fan(face, uv);
                return;
            },
            (Some(far), None) => find_side(true, far, uv),
            (None, Some(far)) => find_side(false, far, uv),
            (None, None) => {
                return;
            },
        };
        if feature_line(self.evaluator, face, slot) {
            return;
        }
        if let Some((f, at)) = across_edge::<S, W>(self.evaluator, face, slot, x) {
            let ghost before = self.seeds@;
            enqueue(&mut self.seeds, (f, at));
            proof {
                lemma_queued(before, (f, at), self.nf() as int);
            }
        }
    }
}

impl<'e, 'a, S: Metric, W: Wide<S> + Metric> Minimizer<'e, 'a, S, W> {
    /// Looks at a place along an edge.
    fn edge_distance2(&mut self, face: u32, slot: usize, x: W) -> (r: Result<W, KernelError>)
        requires
            old(self).wf(),
            face < old(self).nf(),
            slot < 4,
        ensures
            final(self).wf(),
            final(self).continues(*old(self)),
            final(self).agenda() == old(self).agenda(),
            final(self).corner_runs == old(self).corner_runs,
            match r {
                Ok(dist2) => {
                    &&& final(self).log@.len() == old(self).log@.len() + 1
                    &&& final(self).log@.last().dist2 == dist2
                    &&& edge_offer::<S, W>(
                        *old(self).evaluator,
                        old(self).q@,
                        face,
                        slot as int,
                        x,
                        final(self).log@.last(),
                    )
                },
                Err(error) => seen::<S, W>(
                    *old(self).evaluator,
                    face,
                    edge_place(slot as int, x),
                    Err(error),
                ) && final(self).log@ == old(self).log@,
            },
    {
        let uv: (W, W) = edge_uv(slot, x);
        match self.visit(face, uv) {
            Ok(place) => {
                proof {
                    lemma_honest::<S, W>(*self.evaluator, self.q@, face, uv, place.spot@);
                }
                Ok(place.dist2)
            },
            Err(error) => Err(error),
        }
    }

    /// Looks at an edge ever closer to the best place.
    #[verifier::rlimit(60)]
    fn narrow_down(&mut self, face: u32, slot: usize, left: u32, step: W, best: (W, W)) -> (r: Result<
        (W, W),
        KernelError,
    >)
        requires
            old(self).wf(),
            face < old(self).nf(),
            slot < 4,
        ensures
            final(self).wf(),
            final(self).continues(*old(self)),
            final(self).agenda() == old(self).agenda(),
            final(self).corner_runs == old(self).corner_runs,
            match r {
                Ok(out) => narrowed_down::<S, W>(
                    *old(self).evaluator,
                    old(self).q@,
                    face,
                    slot as int,
                    left as nat,
                    step,
                    best,
                    final(self).since(*old(self)),
                    out,
                ),
                Err(error) => narrowing_fails::<S, W>(
                    *old(self).evaluator,
                    old(self).q@,
                    face,
                    slot as int,
                    left as nat,
                    step,
                    best,
                    final(self).since(*old(self)),
                    error,
                ),
            },
        decreases left,
    {
        if left == 0 {
            return Ok(best);
        }
        let half: W = step.times(W::ratio(1, 2));
        let low: W = best.1.minus(half);
        let high: W = best.1.plus(half);
        let ghost log0 = self.log@;
        let mut first: (W, W) = best;
        let low_in: bool = zero::<W>().at_most(low) && low.at_most(one());
        if low_in {
            match self.edge_distance2(face, slot, low) {
                Ok(dist2) => {
                    if dist2.less(first.0) {
                        first = (dist2, low);
                    }
                },
                Err(error) => {
                    return Err(error);
                },
            }
        }
        let ghost log1 = self.log@;
        let mut second: (W, W) = first;
        let high_in: bool = zero::<W>().at_most(high) && high.at_most(one());
        if high_in {
            match self.edge_distance2(face, slot, high) {
                Ok(dist2) => {
                    if dist2.less(second.0) {
                        second = (dist2, high);
                    }
                },
                Err(error) => {
                    proof {
                        let seg = self.log@.skip(log0.len() as int);
                        assert(low_in ==> log1.last() == log1[log0.len() as int]);
                        assert(low_in ==> seg[0] == log1[log0.len() as int]);
                    }
                    return Err(error);
                },
            }
        }
        let ghost log2 = self.log@;
        let r: Result<(W, W), KernelError> = self.narrow_down(face, slot, left - 1, half, second);
        proof {
            let seg = self.log@.skip(log0.len() as int);
            assert(low_in ==> log1.last() == log1[log0.len() as int]);
            assert(high_in ==> log2.last() == log2[log1.len() as int]);
            assert(low_in ==> seg[0] == self.log@[log0.len() as int]);
            assert(high_in ==> seg[log1.len() - log0.len()] == self.log@[log1.len() as int]);
            assert(seg.skip(log2.len() - log0.len()) =~= self.log@.skip(log2.len() as int));
        }
        r
    }

    /// Sweeps an edge, once.
    #[verifier::rlimit(60)]
    fn polish_feature_edge(&mut self, face: u32, slot: usize) -> (r: Result<(), KernelError>)
        requires
            old(self).wf(),
            face < old(self).nf(),
            slot < 4,
        ensures
            final(self).wf(),
            final(self).continues(*old(self)),
            final(self).corner_runs == old(self).corner_runs,
            match r {
                Ok(_) => edge_polished::<S, W>(
                    *old(self).evaluator,
                    old(self).q@,
                    old(self).agenda(),
                    face,
                    slot as int,
                    final(self).since(*old(self)),
                    final(self).agenda(),
                ),
                Err(error) => edge_fails::<S, W>(
                    *old(self).evaluator,
                    old(self).q@,
                    old(self).agenda(),
                    face,
                    slot as int,
                    final(self).since(*old(self)),
                    error,
                ),
            },
    {
        let ghost ev = *self.evaluator;
        let ghost q = self.q@;
        let ghost before = *self;
        let edge: u32 = quad_edge::<S>(Ghost(ev.mesh()), &self.evaluator.result.adjacency, face as usize, slot);
        if has(&self.polished, edge) {
            proof {
                reveal(edge_polished);
            }
            return Ok(());
        }
        self.polished.push(edge);
        let ghost log0 = self.log@;
        let mut best: (W, W) = (W::infinity(), zero());
        let step: W = W::ratio(1, 8);
        let mut k: u32 = 0;
        while k < 9
            invariant
                k <= 9,
                before == *old(self),
                ev == *before.evaluator,
                self.wf(),
                *self.evaluator == ev,
                self.q@ == q,
                face < self.nf(),
                slot < 4,
                edge == ev.adj().face_edges@[4 * face + slot],
                !before.polished@.contains(edge),
                step == W::ratio_of(1, 8),
                self.continues(before),
                self.seeds@ == before.seeds@,
                self.fanned@ == before.fanned@,
                self.polished@ == before.polished@.push(edge),
                self.corner_runs == before.corner_runs,
                log0 == before.log@,
                self.log@.len() == log0.len() + k,
                forall|j: int|
                    0 <= j < k ==> edge_offer::<S, W>(
                        ev,
                        q,
                        face,
                        slot as int,
                        coarse_place(j),
                        #[trigger] self.log@.skip(log0.len() as int)[j],
                    ),
                best == coarse_best(self.log@.skip(log0.len() as int), k as int),
            decreases 9 - k,
        {
            let x: W = W::ratio(k, 1).times(step);
            let ghost log1 = self.log@;
            let ghost seg1 = log1.skip(log0.len() as int);
            match self.edge_distance2(face, slot, x) {
                Ok(dist2) => {
                    if dist2.less(best.0) {
                        best = (dist2, x);
                    }
                },
                Err(error) => {
                    proof {
                        reveal(edge_fails);
                        let seg = self.log@.skip(log0.len() as int);
                        assert(seg =~= seg1);
                        assert(sweep_fails::<S, W>(ev, q, face, slot as int, seg, error));
                    }
                    return Err(error);
                },
            }
            proof {
                let seg = self.log@.skip(log0.len() as int);
                assert(self.log@.last() == self.log@[log1.len() as int]);
                assert(seg[k as int] == self.log@.last());
                assert forall|j: int| 0 <= j < k implies seg[j] == seg1[j] by {
                    assert(self.log@[log0.len() + j] == log1[log0.len() + j]);
                }
                lemma_coarse_prefix(seg1, seg, k as int);
            }
            k += 1;
        }
        let ghost log9 = self.log@;
        let ghost seg9 = log9.skip(log0.len() as int);
        let found: (W, W) = match self.narrow_down(face, slot, EDGE_ROUNDS, step, best) {
            Ok(found) => found,
            Err(error) => {
                proof {
                    reveal(edge_fails);
                    let seg = self.log@.skip(log0.len() as int);
                    assert(seg.skip(9) =~= self.log@.skip(log9.len() as int));
                    assert forall|j: int| 0 <= j < 9 implies #[trigger] seg[j] == seg9[j] by {
                        assert(self.log@[log0.len() + j] == log9[log0.len() + j]);
                    }
                    lemma_coarse_prefix(seg9, seg, 9);
                    assert(sweep_fails::<S, W>(ev, q, face, slot as int, seg, error));
                }
                return Err(error);
            },
        };
        proof {
            let seg = self.log@.skip(log0.len() as int);
            assert(seg.skip(9) =~= self.log@.skip(log9.len() as int));
            assert forall|j: int| 0 <= j < 9 implies #[trigger] seg[j] == seg9[j] by {
                assert(self.log@[log0.len() + j] == log9[log0.len() + j]);
            }
            lemma_coarse_prefix(seg9, seg, 9);
            assert(swept::<S, W>(ev, q, face, slot as int, seg, found));
        }
        let ghost done = self.agenda();
        if found.1.at_most(W::tiny(3)) {
            self.enqueue_corner_fan(face, edge_uv(slot, zero()));
        } else if one::<W>().minus(W::tiny(3)).at_most(found.1) {
            self.enqueue_corner_fan(face, edge_uv(slot, one()));
        }
        proof {
            reveal(edge_polished);
            let a = before.agenda();
            assert(done =~= Agenda { seeds: a.seeds, fanned: a.fanned, polished: a.polished.push(edge) });
            assert(self.agenda() == edge_done(ev, a, face, slot as int, found));
        }
        Ok(())
    }
}

impl<'e, 'a, S: Metric, W: Wide<S> + Metric> Minimizer<'e, 'a, S, W> {
    /// Sweeps the edges from the `from`th on, as far as they are features.
    #[verifier::rlimit(60)]
    fn polish_features(&mut self, face: u32, slots: &[usize], from: usize) -> (r: Result<(), KernelError>)
        requires
            old(self).wf(),
            face < old(self).nf(),
            from <= slots@.len(),
            forall|k: int| 0 <= k < slots@.len() ==> (#[trigger] slots@[k]) < 4,
        ensures
            final(self).wf(),
            final(self).continues(*old(self)),
            final(self).corner_runs == old(self).corner_runs,
            match r {
                Ok(_) => features_polished::<S, W>(
                    *old(self).evaluator,
                    old(self).q@,
                    old(self).agenda(),
                    face,
                    slots@.map_values(|s: usize| s as int).skip(from as int),
                    final(self).since(*old(self)),
                    final(self).agenda(),
                ),
                Err(error) => features_fail::<S, W>(
                    *old(self).evaluator,
                    old(self).q@,
                    old(self).agenda(),
                    face,
                    slots@.map_values(|s: usize| s as int).skip(from as int),
                    final(self).since(*old(self)),
                    error,
                ),
            },
        decreases slots@.len() - from,
    {
        let ghost all = slots@.map_values(|s: usize| s as int);
        let ghost rest = all.skip(from as int);
        if from == slots.len() {
            return Ok(());
        }
        proof {
            assert(rest[0] == slots@[from as int] as int);
            assert(rest.skip(1) =~= all.skip(from + 1));
        }
        let ghost log0 = self.log@;
        let ghost agenda0 = self.agenda();
        if !feature_line(self.evaluator, face, slots[from]) {
            return self.polish_features(face, slots, from + 1);
        }
        match self.polish_feature_edge(face, slots[from]) {
            Ok(_) => {},
            Err(error) => {
                return Err(error);
            },
        }
        let ghost log1 = self.log@;
        let ghost mid = self.agenda();
        match self.polish_features(face, slots, from + 1) {
            Ok(_) => {},
            Err(error) => {
                proof {
                    let seg = self.log@.skip(log0.len() as int);
                    let k = log1.len() - log0.len();
                    assert(seg.take(k) =~= log1.skip(log0.len() as int));
                    assert(seg.skip(k) =~= self.log@.skip(log1.len() as int));
                    assert(edge_polished::<S, W>(*self.evaluator, self.q@, agenda0, face, rest[0], seg.take(k), mid));
                }
                return Err(error);
            },
        }
        proof {
            let seg = self.log@.skip(log0.len() as int);
            let k = log1.len() - log0.len();
            assert(seg.take(k) =~= log1.skip(log0.len() as int));
            assert(seg.skip(k) =~= self.log@.skip(log1.len() as int));
            assert(edge_polished::<S, W>(*self.evaluator, self.q@, agenda0, face, rest[0], seg.take(k), mid));
        }
        Ok(())
    }

    /// Walks from a place as long as steps bring the surface closer.
    #[verifier::rlimit(80)]
    fn walk(&mut self, from: Place<W>, hops: u32, left: u32) -> (r: Result<WalkEnd<W>, KernelError>)
        requires
            old(self).wf(),
            from.face < old(self).nf(),
            hops <= MAX_SEAM_HOPS,
        ensures
            final(self).wf(),
            final(self).continues(*old(self)),
            final(self).agenda() == old(self).agenda(),
            final(self).corner_runs == old(self).corner_runs,
            match r {
                Ok(end) => walked::<S, W>(
                    *old(self).evaluator,
                    old(self).q@,
                    old(self).tolerance,
                    from@,
                    hops as nat,
                    left as nat,
                    final(self).since(*old(self)),
                    end,
                ) && match end {
                    WalkEnd::Rest(face, _) => face < old(self).nf(),
                    WalkEnd::Corner(face, _) => face < old(self).nf(),
                    WalkEnd::Feature(face, slot) => face < old(self).nf() && slot < 4,
                    WalkEnd::Stop => true,
                },
                Err(error) => walk_fails::<S, W>(
                    *old(self).evaluator,
                    old(self).q@,
                    old(self).tolerance,
                    from@,
                    hops as nat,
                    left as nat,
                    final(self).since(*old(self)),
                    error,
                ),
            },
        decreases left,
    {
        if left == 0 {
            return Ok(WalkEnd::Stop);
        }
        let ghost log0 = self.log@;
        let ghost ev = *self.evaluator;
        let ghost q = self.q@;
        let taken: Option<Accepted<W>> = match take_step(self.evaluator, &self.q, &from) {
            Ok(taken) => taken,
            Err(error) => {
                return Err(error);
            },
        };
        let ghost step = step_view(taken);
        assert(step_taken::<S, W>(ev, q, from@, step));
        let a: Accepted<W> = match taken {
            Some(a) => a,
            None => {
                return Ok(WalkEnd::Rest(from.face, from.uv));
            },
        };
        proof {
            lemma_step_honest::<S, W>(ev, q, from@, a@);
        }
        self.offer(a.to.face, a.to.uv, a.to.spot.p, a.to.dist2);
        let ghost log1 = self.log@;
        proof {
            let seg = self.log@.skip(log0.len() as int);
            assert(seg.len() == 1);
            assert(seg[0] == stand_offer(a.to@));
        }
        let moved2: W = norm2(&difference(&a.to.spot.p, &from.spot.p));
        if moved2.at_most(self.tolerance.times(self.tolerance)) {
            return Ok(WalkEnd::Rest(from.face, a.to.uv));
        }
        match find_crossing(&a) {
            Crossing::Corner => Ok(WalkEnd::Corner(from.face, a.to.uv)),
            Crossing::Inside => {
                let r: Result<WalkEnd<W>, KernelError> = self.walk(a.to, hops, left - 1);
                proof {
                    let seg = self.log@.skip(log0.len() as int);
                    assert(seg.skip(1) =~= self.log@.skip(log1.len() as int));
                    assert(seg[0] == self.log@[log0.len() as int]);
                    assert(seg[0] == log1[log0.len() as int]);
                }
                r
            },
            Crossing::Side(slot, x) => {
                if feature_line(self.evaluator, from.face, slot) {
                    return Ok(WalkEnd::Feature(from.face, slot));
                }
                if hops >= MAX_SEAM_HOPS {
                    return Ok(WalkEnd::Stop);
                }
                match across_edge::<S, W>(self.evaluator, from.face, slot, x) {
                    None => Ok(WalkEnd::Stop),
                    Some((f, at)) => {
                        let next: Place<W> = match self.visit(f, at) {
                            Ok(next) => next,
                            Err(error) => {
                                proof {
                                    let seg = self.log@.skip(log0.len() as int);
                                    assert(seg.len() == 1);
                                    assert(seg[0] == log1[log0.len() as int]);
                                }
                                return Err(error);
                            },
                        };
                        let ghost log2 = self.log@;
                        let ghost s = next.spot@;
                        assert(seen::<S, W>(ev, f, at, Ok(s)));
                        let r: Result<WalkEnd<W>, KernelError> = self.walk(next, hops + 1, left - 1);
                        proof {
                            let seg = self.log@.skip(log0.len() as int);
                            assert(seg.skip(2) =~= self.log@.skip(log2.len() as int));
                            assert(seg[0] == self.log@[log0.len() as int]);
                            assert(log2[log0.len() as int] == log1[log0.len() as int]);
                            assert(seg[1] == self.log@[log1.len() as int]);
                            assert(log2[log1.len() as int] == offer_of(q, f, at, s));
                        }
                        r
                    },
                }
            },
        }
    }

    /// Does what follows a walk.
    fn close_walk(&mut self, end: WalkEnd<W>) -> (r: Result<(), KernelError>)
        requires
            old(self).wf(),
            match end {
                WalkEnd::Rest(face, _) => face < old(self).nf(),
                WalkEnd::Corner(face, _) => face < old(self).nf(),
                WalkEnd::Feature(face, slot) => face < old(self).nf() && slot < 4,
                WalkEnd::Stop => true,
            },
        ensures
            final(self).wf(),
            final(self).continues(*old(self)),
            final(self).corner_runs == old(self).corner_runs,
            match r {
                Ok(_) => walk_closed::<S, W>(
                    *old(self).evaluator,
                    old(self).q@,
                    old(self).agenda(),
                    end,
                    final(self).since(*old(self)),
                    final(self).agenda(),
                ),
                Err(error) => closing_fails::<S, W>(
                    *old(self).evaluator,
                    old(self).q@,
                    old(self).agenda(),
                    end,
                    final(self).since(*old(self)),
                    error,
                ),
            },
    {
        match end {
            WalkEnd::Rest(face, uv) => {
                let slots: Vec<usize> = find_edges_through(uv);
                let ghost agenda0 = self.agenda();
                let ghost log0 = self.log@;
                match self.polish_features(face, &slots, 0) {
                    Ok(_) => {},
                    Err(error) => {
                        proof {
                            assert(slots@.map_values(|s: usize| s as int).skip(0) =~= edges_through(uv));
                        }
                        return Err(error);
                    },
                }
                proof {
                    assert(slots@.map_values(|s: usize| s as int).skip(0) =~= edges_through(uv));
                    assert(features_polished::<S, W>(
                        *self.evaluator,
                        self.q@,
                        agenda0,
                        face,
                        edges_through(uv),
                        self.log@.skip(log0.len() as int),
                        self.agenda(),
                    ));
                }
                self.enqueue_pinned(face, uv);
                Ok(())
            },
            WalkEnd::Corner(face, uv) => {
                self.enqueue_corner_fan(face, uv);
                Ok(())
            },
            WalkEnd::Feature(face, slot) => self.polish_feature_edge(face, slot),
            WalkEnd::Stop => Ok(()),
        }
    }

    /// Runs from a seed.
    #[verifier::rlimit(60)]
    fn run(&mut self, face: u32, uv: (W, W)) -> (r: Result<(), KernelError>)
        requires
            old(self).wf(),
            face < old(self).nf(),
        ensures
            final(self).wf(),
            final(self).continues(*old(self)),
            final(self).corner_runs == old(self).corner_runs,
            match r {
                Ok(_) => ran::<S, W>(
                    *old(self).evaluator,
                    old(self).q@,
                    old(self).tolerance,
                    old(self).agenda(),
                    (face, uv),
                    final(self).since(*old(self)),
                    final(self).agenda(),
                ),
                Err(error) => run_fails::<S, W>(
                    *old(self).evaluator,
                    old(self).q@,
                    old(self).tolerance,
                    old(self).agenda(),
                    (face, uv),
                    final(self).since(*old(self)),
                    error,
                ),
            },
    {
        let ghost ev = *self.evaluator;
        let ghost q = self.q@;
        let ghost log0 = self.log@;
        let ghost agenda0 = self.agenda();
        let start: Place<W> = match self.visit(face, uv) {
            Ok(start) => start,
            Err(error) => {
                return Err(error);
            },
        };
        let ghost log1 = self.log@;
        let ghost s = start.spot@;
        let ghost stand = start@;
        let end: WalkEnd<W> = match self.walk(start, 0, MAX_NEWTON_ITERATIONS) {
            Ok(end) => end,
            Err(error) => {
                proof {
                    let seg = self.log@.skip(log0.len() as int);
                    let seed = (face, uv);
                    assert(seg.skip(1) =~= self.log@.skip(log1.len() as int));
                    assert(self.log@[log0.len() as int] == log1[log0.len() as int]);
                    assert(seg[0] == offer_of(q, face, uv, s));
                    assert(seen::<S, W>(ev, seed.0, seed.1, Ok(s)));
                    assert(started_run_fails::<S, W>(ev, q, self.tolerance, agenda0, stand, seg, error));
                }
                return Err(error);
            },
        };
        let ghost log2 = self.log@;
        let ghost gend = end;
        match self.close_walk(end) {
            Ok(_) => {},
            Err(error) => {
                proof {
                    let seg = self.log@.skip(log0.len() as int);
                    let k = log2.len() - log0.len();
                    let seed = (face, uv);
                    assert(seg.skip(k) =~= self.log@.skip(log2.len() as int));
                    assert(seg.subrange(1, k) =~= log2.skip(log1.len() as int));
                    assert(log2[log0.len() as int] == log1[log0.len() as int]);
                    assert(seg[0] == offer_of(q, face, uv, s));
                    assert(seen::<S, W>(ev, seed.0, seed.1, Ok(s)));
                    assert(closing_fails::<S, W>(ev, q, agenda0, gend, seg.skip(k), error));
                    assert(started_run_fails::<S, W>(ev, q, self.tolerance, agenda0, stand, seg, error));
                }
                return Err(error);
            },
        }
        proof {
            let seg = self.log@.skip(log0.len() as int);
            let k = log2.len() - log0.len();
            let seed = (face, uv);
            assert(seg.skip(k) =~= self.log@.skip(log2.len() as int));
            assert(seg.subrange(1, k) =~= log2.skip(log1.len() as int));
            assert(log2[log0.len() as int] == log1[log0.len() as int]);
            assert(seg[0] == offer_of(q, face, uv, s));
            assert(seen::<S, W>(ev, seed.0, seed.1, Ok(s)));
            assert(walk_closed::<S, W>(ev, q, agenda0, gend, seg.skip(k), self.agenda()));
        }
        Ok(())
    }
}

impl<'e, 'a, S: Metric, W: Wide<S> + Metric> Minimizer<'e, 'a, S, W> {
    pub open spec fn progress(self) -> Progress<W> {
        Progress { agenda: self.agenda(), corner_runs: self.corner_runs@ }
    }

    /// The same search, further on, with other seeds perhaps.
    pub open spec fn goes_on(self, before: Self) -> bool {
        &&& self.evaluator == before.evaluator
        &&& self.q == before.q
        &&& self.tolerance == before.tolerance
        &&& starts_as(self.log@, before.log@)
    }

    /// Runs from all seeds, from the `next`th on.
    #[verifier::rlimit(60)]
    fn run_seeds(&mut self, next: usize) -> (r: Result<(), KernelError>)
        requires
            old(self).wf(),
        ensures
            final(self).wf(),
            final(self).continues(*old(self)),
            final(self).corner_runs == old(self).corner_runs,
            match r {
                Ok(_) => seeds_run::<S, W>(
                    *old(self).evaluator,
                    old(self).q@,
                    old(self).tolerance,
                    old(self).agenda(),
                    next as int,
                    final(self).since(*old(self)),
                    final(self).agenda(),
                ),
                Err(error) => seeds_fail::<S, W>(
                    *old(self).evaluator,
                    old(self).q@,
                    old(self).tolerance,
                    old(self).agenda(),
                    next as int,
                    final(self).since(*old(self)),
                    error,
                ),
            },
        decreases MAX_SEEDS - next,
    {
        if next >= self.seeds.len() || next >= MAX_SEEDS {
            return Ok(());
        }
        let ghost ev = *self.evaluator;
        let ghost agenda0 = self.agenda();
        let ghost log0 = self.log@;
        assert(self.seeds@[next as int].0 < self.nf());
        let (face, uv): Seed<W> = self.seeds[next];
        match self.run(face, uv) {
            Ok(_) => {},
            Err(error) => {
                return Err(error);
            },
        }
        let ghost log1 = self.log@;
        let ghost mid = self.agenda();
        match self.run_seeds(next + 1) {
            Ok(_) => {},
            Err(error) => {
                proof {
                    let seg = self.log@.skip(log0.len() as int);
                    let k = log1.len() - log0.len();
                    assert(seg.take(k) =~= log1.skip(log0.len() as int));
                    assert(seg.skip(k) =~= self.log@.skip(log1.len() as int));
                    assert(ran::<S, W>(ev, self.q@, self.tolerance, agenda0, agenda0.seeds[next as int], seg.take(k), mid));
                }
                return Err(error);
            },
        }
        proof {
            let seg = self.log@.skip(log0.len() as int);
            let k = log1.len() - log0.len();
            assert(seg.take(k) =~= log1.skip(log0.len() as int));
            assert(seg.skip(k) =~= self.log@.skip(log1.len() as int));
            assert(ran::<S, W>(
                ev,
                self.q@,
                self.tolerance,
                agenda0,
                agenda0.seeds[next as int],
                seg.take(k),
                mid,
            ));
        }
        Ok(())
    }

    /// Starts from the corners of a quad, from corner `from` on.
    #[verifier::rlimit(60)]
    fn start_corners(&mut self, face: u32, from: usize) -> (r: Result<(), KernelError>)
        requires
            old(self).wf(),
            face < old(self).nf(),
            from <= 4,
        ensures
            final(self).wf(),
            final(self).continues(*old(self)),
            match r {
                Ok(_) => corners_started::<S, W>(
                    *old(self).evaluator,
                    old(self).q@,
                    face,
                    from as int,
                    old(self).progress(),
                    final(self).since(*old(self)),
                    final(self).progress(),
                ),
                Err(error) => corners_fail::<S, W>(
                    *old(self).evaluator,
                    old(self).q@,
                    face,
                    from as int,
                    old(self).progress(),
                    final(self).since(*old(self)),
                    error,
                ),
            },
        decreases 4 - from,
    {
        if from >= 4 {
            return Ok(());
        }
        let ghost ev = *self.evaluator;
        let ghost before = self.progress();
        let ghost log0 = self.log@;
        let quad: &[u32] = quad_slice(&self.evaluator.result.topology, Ghost(ev.adj()), face as usize);
        let v: u32 = quad[from];
        let at: (W, W) = corner_uv(from);
        if has(&self.corner_runs, v) {
            let place: Place<W> = match self.visit(face, at) {
                Ok(place) => place,
                Err(error) => {
                    return Err(error);
                },
            };
            let ghost log1 = self.log@;
            let ghost s = place.spot@;
            let r: Result<(), KernelError> = self.start_corners(face, from + 1);
            proof {
                let seg = self.log@.skip(log0.len() as int);
                assert(seg.skip(1) =~= self.log@.skip(log1.len() as int));
                assert(seg[0] == self.log@[log0.len() as int]);
                assert(log1[log0.len() as int] == offer_of(self.q@, face, at, s));
                assert(seen::<S, W>(ev, face, at, Ok(s)));
            }
            r
        } else {
            self.corner_runs.push(v);
            let ghost seeds0 = self.seeds@;
            enqueue(&mut self.seeds, (face, at));
            proof {
                lemma_queued(seeds0, (face, at), self.nf() as int);
                assert(self.progress() =~= Progress {
                    agenda: Agenda {
                        seeds: queued(before.agenda.seeds, (face, at)),
                        fanned: before.agenda.fanned,
                        polished: before.agenda.polished,
                    },
                    corner_runs: before.corner_runs.push(v),
                });
            }
            self.start_corners(face, from + 1)
        }
    }

    /// Searches a quad.
    #[verifier::rlimit(60)]
    fn search_quad(&mut self, face: u32) -> (r: Result<(), KernelError>)
        requires
            old(self).wf(),
            face < old(self).nf(),
        ensures
            final(self).wf(),
            final(self).goes_on(*old(self)),
            match r {
                Ok(_) => quad_searched::<S, W>(
                    *old(self).evaluator,
                    old(self).q@,
                    old(self).tolerance,
                    old(self).progress(),
                    face,
                    final(self).since(*old(self)),
                    final(self).progress(),
                ),
                Err(error) => quad_fails::<S, W>(
                    *old(self).evaluator,
                    old(self).q@,
                    old(self).tolerance,
                    old(self).progress(),
                    face,
                    final(self).since(*old(self)),
                    error,
                ),
            },
    {
        let ghost ev = *self.evaluator;
        let ghost before = self.progress();
        let ghost log0 = self.log@;
        let half: W = W::ratio(1, 2);
        self.seeds = Vec::new();
        self.seeds.push((face, (half, half)));
        assert(self.progress() =~= quad_start(before, face));
        match self.start_corners(face, 0) {
            Ok(_) => {},
            Err(error) => {
                proof {
                    reveal(quad_fails);
                }
                return Err(error);
            },
        }
        let ghost log1 = self.log@;
        let ghost mid = self.progress();
        match self.run_seeds(0) {
            Ok(_) => {},
            Err(error) => {
                proof {
                    reveal(quad_fails);
                    let seg = self.log@.skip(log0.len() as int);
                    let k = log1.len() - log0.len();
                    assert(seg.take(k) =~= log1.skip(log0.len() as int));
                    assert(seg.skip(k) =~= self.log@.skip(log1.len() as int));
                    assert(corners_started::<S, W>(ev, self.q@, face, 0, quad_start(before, face), seg.take(k), mid));
                }
                return Err(error);
            },
        }
        proof {
            reveal(quad_searched);
            let seg = self.log@.skip(log0.len() as int);
            let k = log1.len() - log0.len();
            assert(seg.take(k) =~= log1.skip(log0.len() as int));
            assert(seg.skip(k) =~= self.log@.skip(log1.len() as int));
            assert(corners_started::<S, W>(ev, self.q@, face, 0, quad_start(before, face), seg.take(k), mid));
        }
        Ok(())
    }
}

/// A step comes to an honest offer.
proof fn lemma_step_honest<'a, S: Metric, W: Wide<S> + Metric>(
    ev: LimitEvaluator<'a, S>,
    q: Seq<W>,
    from: Stand<W>,
    a: StepModel<W>,
)
    requires
        step_taken::<S, W>(ev, q, from, Some(a)),
        from.face < ev.mesh().face_vertex_counts@.len(),
    ensures
        a.to.face == from.face,
        honest::<S, W>(ev, q, stand_offer(a.to)),
{
    let d = difference_of(from.s.p, q);
    let full = newton_step_of(d, from.s.du, from.s.dv);
    let step = if line_searched::<S, W>(ev, q, from, full, Some(a)) {
        full
    } else {
        reduced_step_of(from.uv, full, d, from.s.du, from.s.dv)->Some_0
    };
    assert(line_searched::<S, W>(ev, q, from, step, Some(a)));
    reveal(line_searched);
    let j = choose|j: nat| #[trigger] first_improved::<S, W>(ev, q, from, step, j, a);
    assert(first_improved::<S, W>(ev, q, from, step, j, a));
    lemma_honest::<S, W>(ev, q, from.face, a.to.uv, a.to.s);
    assert(stand_offer(a.to) == offer_of(q, from.face, a.to.uv, a.to.s));
}

proof fn lemma_coarse_prefix<W: Metric>(a: Seq<Offer<W>>, b: Seq<Offer<W>>, k: int)
    requires
        0 <= k <= a.len(),
        k <= b.len(),
        forall|j: int| 0 <= j < k ==> b[j] == a[j],
    ensures
        coarse_best(a, k) == coarse_best(b, k),
    decreases k,
{
    if k > 0 {
        lemma_coarse_prefix(a, b, k - 1);
    }
}

/// A list goes on from a shorter one.
pub open spec fn starts_as<A>(long: Seq<A>, short: Seq<A>) -> bool {
    &&& short.len() <= long.len()
    &&& forall|i: int| 0 <= i < short.len() ==> #[trigger] long[i] == short[i]
}

proof fn lemma_queued<W: Metric>(seeds: Seq<Seed<W>>, seed: Seed<W>, n: int)
    requires
        seeds_below(seeds, n),
        seed.0 < n,
        seeds.len() <= MAX_SEEDS,
    ensures
        seeds_below(queued(seeds, seed), n),
        queued(seeds, seed).len() <= MAX_SEEDS,
        starts_as(queued(seeds, seed), seeds),
{
}

// ---------------------------------------------------------------------------
// The whole surface
// ---------------------------------------------------------------------------
/// The quads that were searched, in turn. The search of the `k`th of them made the
/// offers from `cuts[k]` to `cuts[k + 1]` and took what was done from `stages[k]`
/// to `stages[k + 1]`.
#[verifier::ext_equal]
pub struct Trail<W> {
    pub faces: Seq<u32>,
    pub cuts: Seq<int>,
    pub stages: Seq<Progress<W>>,
}

/// Nothing to search from, and nothing done.
pub open spec fn no_progress<W>() -> Progress<W> {
    Progress {
        agenda: Agenda { seeds: Seq::empty(), fanned: Seq::empty(), polished: Seq::empty() },
        corner_runs: Seq::empty(),
    }
}

/// No quad has been searched.
pub open spec fn no_trail<W>() -> Trail<W> {
    Trail { faces: Seq::empty(), cuts: seq![0], stages: seq![no_progress::<W>()] }
}

impl<W> Trail<W> {
    /// The trail with one more quad, after `made` offers in all.
    pub open spec fn then_searched(self, face: u32, made: int, stage: Progress<W>) -> Self {
        Trail { faces: self.faces.push(face), cuts: self.cuts.push(made), stages: self.stages.push(stage) }
    }
}

/// The `k`th quad of a trail was searched, as its box was closer than the best of
/// the offers before.
pub open spec fn searched_in_turn<'a, S: Metric, W: Wide<S> + Metric>(
    ev: LimitEvaluator<'a, S>,
    q: Seq<W>,
    index: SearchIndex<S, W>,
    log: Seq<Offer<W>>,
    trail: Trail<W>,
    k: int,
) -> bool {
    &&& 0 <= trail.cuts[k] <= trail.cuts[k + 1] <= log.len()
    &&& W::less_of(
        index.boxes@[trail.faces[k] as int]@.distance2::<W>(q),
        best_of(log.take(trail.cuts[k])).dist2,
    )
    &&& quad_searched::<S, W>(
        ev,
        q,
        W::times_of(W::tiny_of(6), index.diag),
        trail.stages[k],
        trail.faces[k],
        log.subrange(trail.cuts[k], trail.cuts[k + 1]),
        trail.stages[k + 1],
    )
}

/// The offers are those of the searches of a trail's quads, one after the other,
/// from where nothing was done.
pub open spec fn followed<'a, S: Metric, W: Wide<S> + Metric>(
    ev: LimitEvaluator<'a, S>,
    q: Seq<W>,
    index: SearchIndex<S, W>,
    log: Seq<Offer<W>>,
    trail: Trail<W>,
) -> bool {
    &&& trail.cuts.len() == trail.faces.len() + 1
    &&& trail.stages.len() == trail.faces.len() + 1
    &&& trail.cuts[0] == 0
    &&& trail.stages[0] == no_progress::<W>()
    &&& trail.cuts.last() == log.len()
    &&& forall|k: int|
        0 <= k < trail.faces.len() ==> #[trigger] searched_in_turn::<S, W>(ev, q, index, log, trail, k)
}

/// A box at distance `d` is no closer than the best offer: it is not less far,
/// or comes in order after the box of a node that is at least as far.
pub open spec fn beaten<S: Metric, W: Wide<S> + Metric>(
    index: SearchIndex<S, W>,
    q: Seq<W>,
    d: W,
    best: W,
) -> bool {
    ||| !W::less_of(d, best)
    ||| exists|i: int|
        0 <= i < index.nodes@.len() && W::order_of((#[trigger] index.nodes@[i]).aabb@.distance2::<W>(q))
            <= W::order_of(d) && W::at_most_of(best, index.nodes@[i].aabb@.distance2::<W>(q))
}

/// The distance of the box of a face, or of a node with the face below it.
pub open spec fn box_distance<S: Metric, W: Wide<S> + Metric>(
    index: SearchIndex<S, W>,
    q: Seq<W>,
    face: u32,
    d: W,
) -> bool {
    ||| d == index.boxes@[face as int]@.distance2::<W>(q)
    ||| exists|i: int|
        crate::bounds::tree_ok(index.nodes@, index.order@, index.boxes@, i) && #[trigger] index.faces_under(
            i,
        ).contains(face) && d == index.nodes@[i].aabb@.distance2::<W>(q)
}

/// A box of the face was found to be no closer than the best of the offers that
/// the first searches made.
pub open spec fn ruled_out<S: Metric, W: Wide<S> + Metric>(
    index: SearchIndex<S, W>,
    q: Seq<W>,
    log: Seq<Offer<W>>,
    trail: Trail<W>,
    face: u32,
) -> bool {
    exists|d: W, k: int|
        #![trigger box_distance(index, q, face, d), log.take(trail.cuts[k])]
        0 <= k < trail.cuts.len() && box_distance(index, q, face, d) && beaten(
            index,
            q,
            d,
            best_of(log.take(trail.cuts[k])).dist2,
        )
}

/// A quad was searched or ruled out.
pub open spec fn settled<S: Metric, W: Wide<S> + Metric>(
    index: SearchIndex<S, W>,
    q: Seq<W>,
    log: Seq<Offer<W>>,
    trail: Trail<W>,
    face: u32,
) -> bool {
    trail.faces.contains(face) || ruled_out(index, q, log, trail, face)
}

/// A node that is still to be looked into.
pub struct Pending<W> {
    pub d2: W,
    pub node: u32,
}

/// Entry `m` comes first among those that wait: by the distance of its box, then by
/// its number.
pub open spec fn comes_first<W: Metric>(heap: Seq<Pending<W>>, m: int) -> bool {
    &&& 0 <= m < heap.len()
    &&& forall|i: int|
        0 <= i < heap.len() ==> W::order_of(heap[m].d2) < W::order_of((#[trigger] heap[i]).d2) || (W::order_of(
            heap[m].d2,
        ) == W::order_of(heap[i].d2) && heap[m].node <= heap[i].node)
}

/// A node with the distance of its box.
pub open spec fn pending_of<S: Metric, W: Wide<S> + Metric>(
    index: SearchIndex<S, W>,
    q: Seq<W>,
    node: u32,
) -> Pending<W> {
    Pending { d2: index.nodes@[node as int].aabb@.distance2::<W>(q), node }
}

/// The entries that wait, with a node among them if its box is closer than `best`.
pub open spec fn with_node<S: Metric, W: Wide<S> + Metric>(
    index: SearchIndex<S, W>,
    q: Seq<W>,
    best: W,
    heap: Seq<Pending<W>>,
    node: u32,
) -> Seq<Pending<W>> {
    if W::less_of(pending_of::<S, W>(index, q, node).d2, best) {
        heap.push(pending_of::<S, W>(index, q, node))
    } else {
        heap
    }
}

/// What waits after entry `m` was looked into.
pub open spec fn after_visit<S: Metric, W: Wide<S> + Metric>(
    index: SearchIndex<S, W>,
    q: Seq<W>,
    best: W,
    heap: Seq<Pending<W>>,
    m: int,
) -> Seq<Pending<W>> {
    match index.nodes@[heap[m].node as int].kind {
        NodeKind::Leaf { start, len } => heap.remove(m),
        NodeKind::Internal { left, right } => with_node::<S, W>(
            index,
            q,
            best,
            with_node::<S, W>(index, q, best, heap.remove(m), left),
            right,
        ),
    }
}

/// The nodes that were looked into. At the `k`th visit `heaps[k]` waited, entry
/// `picks[k]` of it was taken, and `ends[k]` quads had been searched.
#[verifier::ext_equal]
pub struct Visits<W> {
    pub heaps: Seq<Seq<Pending<W>>>,
    pub picks: Seq<int>,
    pub ends: Seq<int>,
}

/// No node has been looked into; the root waits.
pub open spec fn no_visits<S: Metric, W: Wide<S> + Metric>(index: SearchIndex<S, W>, q: Seq<W>) -> Visits<W> {
    Visits { heaps: seq![seq![pending_of::<S, W>(index, q, index.root)]], picks: Seq::empty(), ends: seq![0] }
}

impl<W> Visits<W> {
    /// The visits with one more, after `end` quads in all.
    pub open spec fn then_visited(self, m: int, heap: Seq<Pending<W>>, end: int) -> Self {
        Visits { heaps: self.heaps.push(heap), picks: self.picks.push(m), ends: self.ends.push(end) }
    }
}

/// The best distance after the first `t` quads of a trail.
pub open spec fn best_after<W: Metric>(log: Seq<Offer<W>>, trail: Trail<W>, t: int) -> W {
    best_of(log.take(trail.cuts[t])).dist2
}

/// Of the first `j` faces of a leaf those were searched whose box was closer than the
/// best offer then, in their order: quads `a` to `b` of the trail.
pub open spec fn leaf_searched<S: Metric, W: Wide<S> + Metric>(
    index: SearchIndex<S, W>,
    q: Seq<W>,
    log: Seq<Offer<W>>,
    trail: Trail<W>,
    list: Seq<u32>,
    a: int,
    j: int,
    b: int,
) -> bool
    decreases j,
{
    if j <= 0 {
        a == b
    } else {
        let d = index.boxes@[list[j - 1] as int]@.distance2::<W>(q);
        ||| a < b && leaf_searched::<S, W>(index, q, log, trail, list, a, j - 1, b - 1) && trail.faces[b - 1]
            == list[j - 1] && W::less_of(d, best_after(log, trail, b - 1))
        ||| leaf_searched::<S, W>(index, q, log, trail, list, a, j - 1, b) && !W::less_of(
            d,
            best_after(log, trail, b),
        )
    }
}

/// The `k`th visit: the entry that comes first is taken, its box is closer than the
/// best offer, and its children wait or its faces are searched.
pub open spec fn visited_in_turn<S: Metric, W: Wide<S> + Metric>(
    index: SearchIndex<S, W>,
    q: Seq<W>,
    log: Seq<Offer<W>>,
    trail: Trail<W>,
    visits: Visits<W>,
    k: int,
) -> bool {
    let heap = visits.heaps[k];
    let m = visits.picks[k];
    let a = visits.ends[k];
    let b = visits.ends[k + 1];
    let best = best_after(log, trail, a);
    &&& 0 <= a <= b < trail.cuts.len()
    &&& comes_first(heap, m)
    &&& !W::at_most_of(best, heap[m].d2)
    &&& visits.heaps[k + 1] == after_visit::<S, W>(index, q, best, heap, m)
    &&& match index.nodes@[heap[m].node as int].kind {
        NodeKind::Leaf { start, len } => leaf_searched::<S, W>(
            index,
            q,
            log,
            trail,
            index.faces_under(heap[m].node as int),
            a,
            len as int,
            b,
        ),
        NodeKind::Internal { left, right } => a == b,
    }
}

/// The quads of a trail were come upon by visits from the root on, the nearest box
/// first.
pub open spec fn visited<S: Metric, W: Wide<S> + Metric>(
    index: SearchIndex<S, W>,
    q: Seq<W>,
    log: Seq<Offer<W>>,
    trail: Trail<W>,
    visits: Visits<W>,
) -> bool {
    &&& visits.heaps.len() == visits.picks.len() + 1
    &&& visits.ends.len() == visits.picks.len() + 1
    &&& visits.heaps[0] == no_visits::<S, W>(index, q).heaps[0]
    &&& visits.ends[0] == 0
    &&& 0 <= visits.ends.last() < trail.cuts.len()
    &&& forall|k: int|
        0 <= k < visits.picks.len() ==> #[trigger] visited_in_turn::<S, W>(index, q, log, trail, visits, k)
}

/// Nothing waits any more, or nothing that is closer than the best offer.
pub open spec fn nothing_closer_waits<W: Metric>(heap: Seq<Pending<W>>, best: W) -> bool {
    heap.len() == 0 || exists|m: int| #[trigger] comes_first(heap, m) && W::at_most_of(best, heap[m].d2)
}

/// The search stands before face `face` of the leaf that comes first.
pub open spec fn stands_before<S: Metric, W: Wide<S> + Metric>(
    index: SearchIndex<S, W>,
    q: Seq<W>,
    log: Seq<Offer<W>>,
    trail: Trail<W>,
    visits: Visits<W>,
    face: u32,
) -> bool {
    exists|m: int, j: int|
        #![trigger comes_first(visits.heaps.last(), m), index.faces_under(visits.heaps.last()[m].node as int)[j]]
        {
            let heap = visits.heaps.last();
            let list = index.faces_under(heap[m].node as int);
            &&& comes_first(heap, m)
            &&& !W::at_most_of(best_after(log, trail, visits.ends.last()), heap[m].d2)
            &&& index.nodes@[heap[m].node as int].kind is Leaf
            &&& 0 <= j < list.len()
            &&& list[j] == face
            &&& leaf_searched::<S, W>(
                index,
                q,
                log,
                trail,
                list,
                visits.ends.last(),
                j,
                trail.faces.len() as int,
            )
        }
}

/// What was searched before stays as it was when more quads are searched.
pub open spec fn goes_further<W>(
    log: Seq<Offer<W>>,
    trail: Trail<W>,
    more: Seq<Offer<W>>,
    longer: Trail<W>,
) -> bool {
    &&& starts_as(more, log)
    &&& trail.cuts.len() == trail.faces.len() + 1
    &&& longer.cuts.len() >= trail.cuts.len()
    &&& forall|i: int| 0 <= i < trail.cuts.len() ==> 0 <= #[trigger] trail.cuts[i] <= log.len()
    &&& forall|i: int| 0 <= i < trail.cuts.len() ==> longer.cuts[i] == #[trigger] trail.cuts[i]
    &&& forall|i: int| 0 <= i < trail.faces.len() ==> longer.faces[i] == #[trigger] trail.faces[i]
}

proof fn lemma_best_after_stays<W: Metric>(
    log: Seq<Offer<W>>,
    trail: Trail<W>,
    more: Seq<Offer<W>>,
    longer: Trail<W>,
    t: int,
)
    requires
        goes_further(log, trail, more, longer),
        0 <= t < trail.cuts.len(),
    ensures
        best_after(more, longer, t) == best_after(log, trail, t),
{
    let n = trail.cuts[t];
    assert(longer.cuts[t] == n);
    assert(more.take(n) =~= log.take(n));
}

proof fn lemma_leaf_stays<S: Metric, W: Wide<S> + Metric>(
    index: SearchIndex<S, W>,
    q: Seq<W>,
    log: Seq<Offer<W>>,
    trail: Trail<W>,
    more: Seq<Offer<W>>,
    longer: Trail<W>,
    list: Seq<u32>,
    a: int,
    j: int,
    b: int,
)
    requires
        goes_further(log, trail, more, longer),
        0 <= a,
        b < trail.cuts.len(),
        leaf_searched::<S, W>(index, q, log, trail, list, a, j, b),
    ensures
        a <= b,
        leaf_searched::<S, W>(index, q, more, longer, list, a, j, b),
    decreases j,
{
    if j > 0 {
        let d = index.boxes@[list[j - 1] as int]@.distance2::<W>(q);
        if a < b && leaf_searched::<S, W>(index, q, log, trail, list, a, j - 1, b - 1) && trail.faces[b - 1] == list[j
            - 1] && W::less_of(d, best_after(log, trail, b - 1)) {
            lemma_leaf_stays::<S, W>(index, q, log, trail, more, longer, list, a, j - 1, b - 1);
            lemma_best_after_stays(log, trail, more, longer, b - 1);
            assert(longer.faces[b - 1] == trail.faces[b - 1]);
        } else {
            lemma_leaf_stays::<S, W>(index, q, log, trail, more, longer, list, a, j - 1, b);
            lemma_best_after_stays(log, trail, more, longer, b);
        }
    }
}

/// Visits stay as they were when more quads are searched.
proof fn lemma_visits_stay<S: Metric, W: Wide<S> + Metric>(
    index: SearchIndex<S, W>,
    q: Seq<W>,
    log: Seq<Offer<W>>,
    trail: Trail<W>,
    more: Seq<Offer<W>>,
    longer: Trail<W>,
    visits: Visits<W>,
)
    requires
        goes_further(log, trail, more, longer),
        visited::<S, W>(index, q, log, trail, visits),
    ensures
        visited::<S, W>(index, q, more, longer, visits),
{
    assert forall|k: int| 0 <= k < visits.picks.len() implies #[trigger] visited_in_turn::<S, W>(
        index,
        q,
        more,
        longer,
        visits,
        k,
    ) by {
        assert(visited_in_turn::<S, W>(index, q, log, trail, visits, k));
        let heap = visits.heaps[k];
        let m = visits.picks[k];
        let a = visits.ends[k];
        let b = visits.ends[k + 1];
        lemma_best_after_stays(log, trail, more, longer, a);
        if let NodeKind::Leaf { start, len } = index.nodes@[heap[m].node as int].kind {
            let list = index.faces_under(heap[m].node as int);
            lemma_leaf_stays::<S, W>(index, q, log, trail, more, longer, list, a, len as int, b);
        }
    }
}

/// One more visit.
proof fn lemma_visits_grow<S: Metric, W: Wide<S> + Metric>(
    index: SearchIndex<S, W>,
    q: Seq<W>,
    log: Seq<Offer<W>>,
    trail: Trail<W>,
    visits: Visits<W>,
    m: int,
    next: Seq<Pending<W>>,
    end: int,
)
    requires
        visited::<S, W>(index, q, log, trail, visits),
        ({
            let more = visits.then_visited(m, next, end);
            visited_in_turn::<S, W>(index, q, log, trail, more, visits.picks.len() as int)
        }),
    ensures
        visited::<S, W>(index, q, log, trail, visits.then_visited(m, next, end)),
{
    let more = visits.then_visited(m, next, end);
    assert forall|k: int| 0 <= k < more.picks.len() implies #[trigger] visited_in_turn::<S, W>(
        index,
        q,
        log,
        trail,
        more,
        k,
    ) by {
        if k < visits.picks.len() {
            assert(visited_in_turn::<S, W>(index, q, log, trail, visits, k));
            assert(more.heaps[k] == visits.heaps[k] && more.heaps[k + 1] == visits.heaps[k + 1]);
            assert(more.ends[k] == visits.ends[k] && more.ends[k + 1] == visits.ends[k + 1]);
            assert(more.picks[k] == visits.picks[k]);
        }
    }
}

/// A search goes on with one more quad.
proof fn lemma_trail_grows<'a, S: Metric, W: Wide<S> + Metric>(
    ev: LimitEvaluator<'a, S>,
    q: Seq<W>,
    index: SearchIndex<S, W>,
    log: Seq<Offer<W>>,
    trail: Trail<W>,
    more: Seq<Offer<W>>,
    face: u32,
    stage: Progress<W>,
)
    requires
        followed::<S, W>(ev, q, index, log, trail),
        starts_as(more, log),
        W::less_of(index.boxes@[face as int]@.distance2::<W>(q), best_of(log).dist2),
        quad_searched::<S, W>(
            ev,
            q,
            W::times_of(W::tiny_of(6), index.diag),
            trail.stages.last(),
            face,
            more.skip(log.len() as int),
            stage,
        ),
    ensures
        ({
            let longer = trail.then_searched(face, more.len() as int, stage);
            &&& followed::<S, W>(ev, q, index, more, longer)
            &&& settled(index, q, more, longer, face)
            &&& forall|f: u32| settled(index, q, log, trail, f) ==> #[trigger] settled(index, q, more, longer, f)
        }),
{
    let longer = trail.then_searched(face, more.len() as int, stage);
    let n = trail.faces.len() as int;
    assert forall|k: int| 0 <= k < longer.faces.len() implies #[trigger] searched_in_turn::<S, W>(
        ev,
        q,
        index,
        more,
        longer,
        k,
    ) by {
        if k < n {
            assert(searched_in_turn::<S, W>(ev, q, index, log, trail, k));
            assert(longer.cuts[k] == trail.cuts[k]);
            assert(longer.cuts[k + 1] == trail.cuts[k + 1]);
            assert(longer.stages[k] == trail.stages[k]);
            assert(longer.stages[k + 1] == trail.stages[k + 1]);
            assert(more.take(trail.cuts[k]) =~= log.take(trail.cuts[k]));
            assert(more.subrange(trail.cuts[k], trail.cuts[k + 1]) =~= log.subrange(
                trail.cuts[k],
                trail.cuts[k + 1],
            ));
        } else {
            assert(longer.cuts[n] == trail.cuts.last());
            assert(longer.stages[n] == trail.stages.last());
            assert(longer.cuts[n + 1] == more.len());
            assert(longer.stages[n + 1] == stage);
            assert(more.take(log.len() as int) =~= log);
            assert(more.subrange(log.len() as int, more.len() as int) =~= more.skip(log.len() as int));
        }
    }
    assert(longer.faces[n] == face);
    assert forall|f: u32| settled(index, q, log, trail, f) implies #[trigger] settled(
        index,
        q,
        more,
        longer,
        f,
    ) by {
        if trail.faces.contains(f) {
            let k = trail.faces.index_of(f);
            assert(longer.faces[k] == f);
        } else {
            let (d, k) = choose|d: W, k: int|
                #![trigger box_distance(index, q, f, d), log.take(trail.cuts[k])]
                0 <= k < trail.cuts.len() && box_distance(index, q, f, d) && beaten(
                    index,
                    q,
                    d,
                    best_of(log.take(trail.cuts[k])).dist2,
                );
            assert(longer.cuts[k] == trail.cuts[k]);
            if k < n {
                assert(searched_in_turn::<S, W>(ev, q, index, log, trail, k));
            }
            assert(more.take(longer.cuts[k]) =~= log.take(trail.cuts[k]));
            assert(box_distance(index, q, f, d));
            assert(ruled_out(index, q, more, longer, f));
        }
    }
}

/// A face is ruled out by a box that is no closer than the best offer now.
proof fn lemma_ruled_out<S: Metric, W: Wide<S> + Metric>(
    index: SearchIndex<S, W>,
    q: Seq<W>,
    log: Seq<Offer<W>>,
    trail: Trail<W>,
    face: u32,
    d: W,
)
    requires
        box_distance(index, q, face, d),
        trail.cuts.len() > 0,
        trail.cuts.last() == log.len(),
        beaten(index, q, d, best_of(log).dist2),
    ensures
        settled(index, q, log, trail, face),
{
    let k = trail.cuts.len() - 1;
    assert(trail.cuts[k] == log.len());
    assert(log.take(trail.cuts[k]) =~= log);
    assert(box_distance(index, q, face, d));
}

/// Number of nodes of a tree.
spec fn tree_size<S>(nodes: Seq<Node<S>>, i: int) -> nat
    decreases i,
{
    if i < 0 {
        0
    } else {
        match nodes[i].kind {
            NodeKind::Leaf { start, len } => 1,
            NodeKind::Internal { left, right } => if left < i && right < i {
                1 + tree_size(nodes, left as int) + tree_size(nodes, right as int)
            } else {
                1
            },
        }
    }
}

spec fn pending_size<S, W>(nodes: Seq<Node<S>>, heap: Seq<Pending<W>>) -> nat
    decreases heap.len(),
{
    if heap.len() == 0 {
        0
    } else {
        pending_size(nodes, heap.drop_last()) + tree_size(nodes, heap.last().node as int)
    }
}

proof fn lemma_pending_remove<S, W>(nodes: Seq<Node<S>>, heap: Seq<Pending<W>>, m: int)
    requires
        0 <= m < heap.len(),
    ensures
        pending_size(nodes, heap) == pending_size(nodes, heap.remove(m)) + tree_size(nodes, heap[m].node as int),
    decreases heap.len(),
{
    if m == heap.len() - 1 {
        assert(heap.remove(m) =~= heap.drop_last());
    } else {
        lemma_pending_remove(nodes, heap.drop_last(), m);
        assert(heap.remove(m).drop_last() =~= heap.drop_last().remove(m));
        assert(heap.remove(m).last() == heap.last());
    }
}

proof fn lemma_pending_push<S, W>(nodes: Seq<Node<S>>, heap: Seq<Pending<W>>, p: Pending<W>)
    ensures
        pending_size(nodes, heap.push(p)) == pending_size(nodes, heap) + tree_size(nodes, p.node as int),
{
    assert(heap.push(p).drop_last() =~= heap);
}

/// Takes the node out that comes first, by distance and then by number.
fn take_first<W: Metric>(heap: &mut Vec<Pending<W>>) -> (r: Pending<W>)
    requires
        old(heap)@.len() > 0,
    ensures
        exists|m: int| #[trigger]
            comes_first(old(heap)@, m) && r == old(heap)@[m] && final(heap)@ == old(heap)@.remove(m),
{
    let mut m: usize = 0;
    let mut i: usize = 1;
    while i < heap.len()
        invariant
            heap@ == old(heap)@,
            m < i <= heap.len(),
            forall|k: int|
                0 <= k < i ==> W::order_of(heap@[m as int].d2) < W::order_of((#[trigger] heap@[k]).d2) || (W::order_of(
                    heap@[m as int].d2,
                ) == W::order_of(heap@[k].d2) && heap@[m as int].node <= heap@[k].node),
        decreases heap.len() - i,
    {
        let a: i64 = heap[i].d2.order();
        let b: i64 = heap[m].d2.order();
        if a < b || (a == b && heap[i].node < heap[m].node) {
            m = i;
        }
        i += 1;
    }
    let ghost at = m as int;
    assert(comes_first(old(heap)@, at));
    heap.remove(m)
}

impl<'a, S: Metric> LimitEvaluator<'a, S> {
    /// The boxes of all quads, for any number of queries.
    pub fn search_index<W: Wide<S> + Metric>(&self) -> (r: Result<SearchIndex<S, W>, KernelError>)
        requires
            self.wf(),
        ensures
            match r {
                Ok(index) => self.mesh().face_vertex_counts@.len() > 0 && index.indexes(*self),
                Err(error) => self.mesh().face_vertex_counts@.len() == 0 && error == KernelError::InvalidTopology(
                    "refined level has no faces to run closest-point queries against",
                ),
            },
    {
        build_index(self)
    }

    /// The point of the surface that is closest to `query`.
    ///
    /// Every quad is searched, or ruled out by a box around it that is no closer
    /// than a point that was found. The result is the first of the closest points
    /// that the search looked at.
    pub fn closest_point<W: Wide<S> + Metric>(&self, query: [S; 3]) -> (r: Result<ClosestPoint<S>, KernelError>)
        requires
            self.wf(),
        ensures
            closest_outcome::<S, W>(*self, widened::<S, W>(query@), r),
    {
        let index: SearchIndex<S, W> = match self.search_index() {
            Ok(index) => index,
            Err(error) => {
                return Err(error);
            },
        };
        let r: Result<ClosestPoint<S>, KernelError> = self.closest_point_in(&index, query);
        proof {
            if !(r is Err && search_fails::<S, W>(*self, widened::<S, W>(query@), index, r->Err_0)) {
                let (log, trail, visits) = choose|log: Seq<Offer<W>>, trail: Trail<W>, visits: Visits<W>| #[trigger]
                    found_by::<S, W>(*self, widened::<S, W>(query@), index, log, trail, visits, r);
                assert(found_by::<S, W>(*self, widened::<S, W>(query@), index, log, trail, visits, r));
            }
        }
        r
    }

    /// The point of the surface that is closest to `query`, by boxes that were made
    /// before.
    #[verifier::rlimit(80)]
    pub fn closest_point_in<W: Wide<S> + Metric>(&self, index: &SearchIndex<S, W>, query: [S; 3]) -> (r: Result<
        ClosestPoint<S>,
        KernelError,
    >)
        requires
            self.wf(),
            self.mesh().face_vertex_counts@.len() > 0,
            index.indexes(*self),
        ensures
            ({
                let q = widened::<S, W>(query@);
                ||| exists|log: Seq<Offer<W>>, trail: Trail<W>, visits: Visits<W>| #[trigger]
                    found_by::<S, W>(*self, q, *index, log, trail, visits, r)
                ||| r is Err && search_fails::<S, W>(*self, q, *index, r->Err_0)
            }),
    {
        let q: [W; 3] = widen_all::<S, W>(&query);
        let tolerance: W = W::tiny(6).times(index.diag);
        let best = Best { dist2: W::infinity(), face: 0, uv: (zero(), zero()), position: nothing() };
        let mut search = Minimizer {
            evaluator: self,
            q,
            tolerance,
            best,
            seeds: Vec::new(),
            corner_runs: Vec::new(),
            fanned: Vec::new(),
            polished: Vec::new(),
            log: Ghost(Seq::empty()),
        };
        let ghost nf = self.mesh().face_vertex_counts@.len();
        let ghost mut trail = no_trail::<W>();
        assert(search.wf());
        assert(search.progress() =~= no_progress::<W>());
        let mut heap: Vec<Pending<W>> = Vec::new();
        let d2: W = index.nodes[index.root as usize].aabb.distance2(&q);
        heap.push(Pending { d2, node: index.root });
        let ghost mut visits = no_visits::<S, W>(*index, q@);
        assert(heap@ =~= visits.heaps[0]);
        proof {
            assert forall|f: u32| f < nf implies #[trigger] waiting::<S, W>(*index, heap@, f) by {
                assert(index.faces_under(heap@[0].node as int).contains(f));
            }
        }
        let mut done: bool = false;
        while !done && heap.len() > 0
            invariant
                self.wf(),
                index.indexes(*self),
                search.wf(),
                *search.evaluator == *self,
                q@ == widened::<S, W>(query@),
                search.q == q,
                search.tolerance == tolerance,
                nf == self.mesh().face_vertex_counts@.len(),
                nf == search.nf(),
                followed::<S, W>(*self, q@, *index, search.log@, trail),
                trail.stages.last() == search.progress(),
                tolerance == W::times_of(W::tiny_of(6), index.diag),
                heap_ok::<S, W>(*index, q@, heap@),
                visited::<S, W>(*index, q@, search.log@, trail, visits),
                visits.ends.last() == trail.faces.len(),
                !done ==> visits.heaps.last() == heap@,
                done ==> nothing_closer_waits(visits.heaps.last(), best_of(search.log@).dist2),
                forall|f: u32|
                    f < nf ==> settled(*index, q@, search.log@, trail, f) || (!done && (
                    #[trigger] waiting::<S, W>(*index, heap@, f))),
            decreases pending_size(index.nodes@, heap@),
        {
            let ghost heap0 = heap@;
            let ghost log0 = search.log@;
            let ghost trail0 = trail;
            let entry: Pending<W> = take_first(&mut heap);
            let ghost m = choose|m: int| #[trigger]
                comes_first(heap0, m) && entry == heap0[m] && heap@ == heap0.remove(m);
            let ghost visits0 = visits;
            let ghost turn = visits.picks.len() as int;
            let ghost best0 = search.best.dist2;
            let i: usize = entry.node as usize;
            proof {
                assert(search.log@.take(trail.cuts.last()) =~= search.log@);
                assert(best_after(search.log@, trail, trail.faces.len() as int) == best0);
                lemma_pending_remove(index.nodes@, heap0, m);
                assert(heap_ok::<S, W>(*index, q@, heap0));
                lemma_heap_remove::<S, W>(*index, q@, heap0, m);
                assert forall|f: u32| f < nf && waiting::<S, W>(*index, heap0, f) implies waiting::<S, W>(
                    *index,
                    heap@,
                    f,
                ) || index.faces_under(i as int).contains(f) by {
                    lemma_waiting_remove::<S, W>(*index, heap0, m, f);
                }
            }
            if search.best.dist2.at_most(entry.d2) {
                done = true;
                proof {
                    assert(comes_first(visits.heaps.last(), m));
                    assert forall|f: u32| f < nf implies settled(*index, q@, search.log@, trail, f) by {
                        if !settled(*index, q@, search.log@, trail, f) {
                            assert(waiting::<S, W>(*index, heap0, f));
                            let k = choose|k: int|
                                0 <= k < heap0.len() && index.faces_under(
                                    (#[trigger] heap0[k]).node as int,
                                ).contains(f);
                            let d = heap0[k].d2;
                            assert(W::order_of(entry.d2) <= W::order_of(d));
                            assert(box_distance(*index, q@, f, d));
                            lemma_ruled_out(*index, q@, search.log@, trail, f, d);
                        }
                    }
                }
            } else {
                match index.nodes[i].kind {
                    NodeKind::Internal { left, right } => {
                        proof {
                            lemma_children_within(*index, i as int, left as int, right as int);
                        }
                        let dl: W = index.nodes[left as usize].aabb.distance2(&q);
                        if dl.less(search.best.dist2) {
                            proof {
                                lemma_pending_push(index.nodes@, heap@, Pending { d2: dl, node: left });
                                lemma_heap_push::<S, W>(*index, q@, heap@, Pending { d2: dl, node: left });
                            }
                            heap.push(Pending { d2: dl, node: left });
                        }
                        let ghost heap1 = heap@;
                        let dr: W = index.nodes[right as usize].aabb.distance2(&q);
                        if dr.less(search.best.dist2) {
                            proof {
                                lemma_pending_push(index.nodes@, heap@, Pending { d2: dr, node: right });
                                lemma_heap_push::<S, W>(*index, q@, heap@, Pending { d2: dr, node: right });
                            }
                            heap.push(Pending { d2: dr, node: right });
                        }
                        proof {
                            let rest = heap0.remove(m);
                            let end = trail.faces.len() as int;
                            let more = visits.then_visited(m, heap@, end);
                            assert(heap@ =~= after_visit::<S, W>(*index, q@, best0, heap0, m));
                            assert(visited_in_turn::<S, W>(*index, q@, search.log@, trail, more, turn));
                            lemma_visits_grow::<S, W>(*index, q@, search.log@, trail, visits, m, heap@, end);
                            visits = more;
                            assert forall|f: u32| f < nf implies settled(*index, q@, search.log@, trail, f) || #[trigger] waiting::<S, W>(*index, heap@, f) by {
                                if settled(*index, q@, search.log@, trail, f) {
                                } else if waiting::<S, W>(*index, rest, f) {
                                    lemma_waiting_grows::<S, W>(*index, rest, heap1, f);
                                    lemma_waiting_grows::<S, W>(*index, heap1, heap@, f);
                                } else if index.faces_under(i as int).contains(f) {
                                    lemma_below(*index, i as int, left as int, right as int, f);
                                    if index.faces_under(left as int).contains(f) {
                                        if W::less_of(dl, search.best.dist2) {
                                            assert(heap1[heap1.len() - 1].node == left);
                                            assert(waiting::<S, W>(*index, heap1, f));
                                            lemma_waiting_grows::<S, W>(*index, heap1, heap@, f);
                                        } else {
                                            assert(box_distance(*index, q@, f, dl));
                                            lemma_ruled_out(*index, q@, search.log@, trail, f, dl);
                                        }
                                    } else {
                                        if W::less_of(dr, search.best.dist2) {
                                            assert(heap@[heap@.len() - 1].node == right);
                                            assert(waiting::<S, W>(*index, heap@, f));
                                        } else {
                                            assert(box_distance(*index, q@, f, dr));
                                            lemma_ruled_out(*index, q@, search.log@, trail, f, dr);
                                        }
                                    }
                                } else {
                                    assert(waiting::<S, W>(*index, heap0, f));
                                }
                            }
                        }
                    },
                    NodeKind::Leaf { start, len } => {
                        let ghost list = index.faces_under(i as int);
                        proof {
                            assert(within(*index, i as int));
                        }
                        let mut k: u32 = 0;
                        while k < len
                            invariant
                                k <= len,
                                self.wf(),
                                index.indexes(*self),
                                search.wf(),
                                *search.evaluator == *self,
                                q@ == widened::<S, W>(query@),
                                search.q == q,
                                search.tolerance == tolerance,
                                nf == search.nf(),
                                start + len <= index.order@.len(),
                                list == index.order@.subrange(start as int, start + len),
                                index.boxes@.len() == nf,
                                all_below(list, nf as int),
                                list == index.faces_under(entry.node as int),
                                index.nodes@[entry.node as int].kind == (NodeKind::Leaf { start, len }),
                                visited::<S, W>(*index, q@, search.log@, trail, visits0),
                                visits0.ends.last() == trail0.faces.len(),
                                visits0.heaps.last() == heap0,
                                comes_first(heap0, m),
                                entry == heap0[m],
                                best_after(search.log@, trail, trail0.faces.len() as int) == best0,
                                !W::at_most_of(best0, entry.d2),
                                leaf_searched::<S, W>(
                                    *index,
                                    q@,
                                    search.log@,
                                    trail,
                                    list,
                                    trail0.faces.len() as int,
                                    k as int,
                                    trail.faces.len() as int,
                                ),
                                trail0.faces.len() <= trail.faces.len(),
                                followed::<S, W>(*self, q@, *index, search.log@, trail),
                                trail.stages.last() == search.progress(),
                                tolerance == W::times_of(W::tiny_of(6), index.diag),
                                forall|f: u32|
                                    settled(*index, q@, log0, trail0, f) ==> #[trigger] settled(
                                        *index,
                                        q@,
                                        search.log@,
                                        trail,
                                        f,
                                    ),
                                forall|j: int|
                                    0 <= j < k ==> settled(*index, q@, search.log@, trail, #[trigger] list[j]),
                            decreases len - k,
                        {
                            let total: usize = index.order.len();
                            let at: usize = start as usize + k as usize;
                            let face: u32 = index.order[at];
                            assert(list[k as int] == face);
                            let d: W = index.boxes[face as usize].distance2(&q);
                            let ghost log1 = search.log@;
                            let ghost trail1 = trail;
                            proof {
                                assert(log1.take(trail.cuts.last()) =~= log1);
                                assert(best_after(log1, trail, trail.faces.len() as int) == search.best.dist2);
                            }
                            if d.less(search.best.dist2) {
                                match search.search_quad(face) {
                                    Ok(_) => {},
                                    Err(error) => {
                                        proof {
                                            assert(visits0.heaps.last()[m].node == entry.node);
                                            assert(index.faces_under(visits0.heaps.last()[m].node as int)[k as int]
                                                == face);
                                            assert(stands_before::<S, W>(*index, q@, log1, trail, visits0, face));
                                            assert(stopped_by::<S, W>(
                                                *self,
                                                q@,
                                                *index,
                                                log1,
                                                trail,
                                                visits0,
                                                face,
                                                search.log@.skip(log1.len() as int),
                                                error,
                                            ));
                                        }
                                        return Err(error);
                                    },
                                }
                                proof {
                                    lemma_trail_grows::<S, W>(
                                        *self,
                                        q@,
                                        *index,
                                        log1,
                                        trail,
                                        search.log@,
                                        face,
                                        search.progress(),
                                    );
                                    trail = trail.then_searched(face, search.log@.len() as int, search.progress());
                                    lemma_goes_further::<S, W>(*self, q@, *index, log1, trail1, search.log@, trail);
                                    lemma_visits_stay::<S, W>(*index, q@, log1, trail1, search.log@, trail, visits0);
                                    lemma_best_after_stays(
                                        log1,
                                        trail1,
                                        search.log@,
                                        trail,
                                        trail0.faces.len() as int,
                                    );
                                    lemma_best_after_stays(
                                        log1,
                                        trail1,
                                        search.log@,
                                        trail,
                                        trail1.faces.len() as int,
                                    );
                                    lemma_leaf_stays::<S, W>(
                                        *index,
                                        q@,
                                        log1,
                                        trail1,
                                        search.log@,
                                        trail,
                                        list,
                                        trail0.faces.len() as int,
                                        k as int,
                                        trail1.faces.len() as int,
                                    );
                                }
                            } else {
                                proof {
                                    assert(box_distance(*index, q@, face, d));
                                    lemma_ruled_out(*index, q@, search.log@, trail, face, d);
                                }
                            }
                            k += 1;
                        }
                        proof {
                            let end = trail.faces.len() as int;
                            let more = visits0.then_visited(m, heap@, end);
                            assert(heap@ =~= after_visit::<S, W>(*index, q@, best0, heap0, m));
                            assert(visited_in_turn::<S, W>(*index, q@, search.log@, trail, more, turn));
                            lemma_visits_grow::<S, W>(*index, q@, search.log@, trail, visits0, m, heap@, end);
                            visits = more;
                            assert forall|f: u32| f < nf implies settled(*index, q@, search.log@, trail, f) || #[trigger] waiting::<S, W>(*index, heap@, f) by {
                                if settled(*index, q@, log0, trail0, f) {
                                    assert(settled(*index, q@, search.log@, trail, f));
                                } else {
                                    assert(waiting::<S, W>(*index, heap0, f));
                                    if list.contains(f) {
                                        let j = list.index_of(f);
                                        assert(settled(*index, q@, search.log@, trail, list[j]));
                                    }
                                }
                            }
                        }
                    },
                }
            }
        }
        proof {
            assert forall|f: u32| f < nf implies settled(*index, q@, search.log@, trail, f) by {
                if !settled(*index, q@, search.log@, trail, f) {
                    assert(waiting::<S, W>(*index, heap@, f));
                }
            }
            lemma_best_on_surface::<S, W>(*self, q@, search.log@);
        }
        let r: Result<ClosestPoint<S>, KernelError> = finish(self, &q, index.closed, &search.best);
        proof {
            assert(found_by::<S, W>(*self, q@, *index, search.log@, trail, visits, r));
        }
        r
    }
}

/// What a search did stays as it was when it goes on with one more quad.
proof fn lemma_goes_further<'a, S: Metric, W: Wide<S> + Metric>(
    ev: LimitEvaluator<'a, S>,
    q: Seq<W>,
    index: SearchIndex<S, W>,
    log: Seq<Offer<W>>,
    trail: Trail<W>,
    more: Seq<Offer<W>>,
    longer: Trail<W>,
)
    requires
        followed::<S, W>(ev, q, index, log, trail),
        starts_as(more, log),
        longer.cuts.len() == trail.cuts.len() + 1,
        longer.faces.len() == trail.faces.len() + 1,
        forall|i: int| 0 <= i < trail.cuts.len() ==> longer.cuts[i] == #[trigger] trail.cuts[i],
        forall|i: int| 0 <= i < trail.faces.len() ==> longer.faces[i] == #[trigger] trail.faces[i],
    ensures
        goes_further(log, trail, more, longer),
{
    assert forall|i: int| 0 <= i < trail.cuts.len() implies 0 <= #[trigger] trail.cuts[i] <= log.len() by {
        if i < trail.faces.len() {
            assert(searched_in_turn::<S, W>(ev, q, index, log, trail, i));
        } else {
            assert(trail.cuts[i] == trail.cuts.last());
        }
    }
}

/// A face is below a node that is still to be looked into.
spec fn waiting<S: Metric, W: Wide<S> + Metric>(index: SearchIndex<S, W>, heap: Seq<Pending<W>>, face: u32) -> bool {
    exists|k: int|
        0 <= k < heap.len() && index.faces_under((#[trigger] heap[k]).node as int).contains(face)
}

/// The nodes to be looked into are nodes of the tree, at their distances.
spec fn heap_ok<S: Metric, W: Wide<S> + Metric>(index: SearchIndex<S, W>, q: Seq<W>, heap: Seq<Pending<W>>) -> bool {
    forall|k: int|
        0 <= k < heap.len() ==> pending_ok(index, q, #[trigger] heap[k])
}

spec fn pending_ok<S: Metric, W: Wide<S> + Metric>(index: SearchIndex<S, W>, q: Seq<W>, p: Pending<W>) -> bool {
    &&& p.node < index.nodes@.len()
    &&& crate::bounds::tree_ok(index.nodes@, index.order@, index.boxes@, p.node as int)
    &&& within(index, p.node as int)
    &&& p.d2 == index.nodes@[p.node as int].aabb@.distance2::<W>(q)
}

/// The faces below a node are faces of the surface.
spec fn within<S: Metric, W: Wide<S> + Metric>(index: SearchIndex<S, W>, i: int) -> bool {
    all_below(index.faces_under(i), index.boxes@.len() as int)
}

/// The quads of a trail were searched in turn, the nearest boxes first, all other quads
/// were ruled out, and the result is the best of all offers.
pub open spec fn found_by<'a, S: Metric, W: Wide<S> + Metric>(
    ev: LimitEvaluator<'a, S>,
    q: Seq<W>,
    index: SearchIndex<S, W>,
    log: Seq<Offer<W>>,
    trail: Trail<W>,
    visits: Visits<W>,
    r: Result<ClosestPoint<S>, KernelError>,
) -> bool {
    &&& index.indexes(ev)
    &&& forall|i: int| 0 <= i < log.len() ==> honest::<S, W>(ev, q, #[trigger] log[i])
    &&& followed::<S, W>(ev, q, index, log, trail)
    &&& visited::<S, W>(index, q, log, trail, visits)
    &&& visits.ends.last() == trail.faces.len()
    &&& nothing_closer_waits(visits.heaps.last(), best_of(log).dist2)
    &&& forall|f: u32|
        f < ev.mesh().face_vertex_counts@.len() ==> #[trigger] settled(index, q, log, trail, f)
    &&& finished::<S, W>(ev, q, index.closed, best_of(log), r)
}

/// The quads of a trail were searched in turn, and the search of the next one, whose
/// box is closer than the best offer, came to a place at which the surface cannot be
/// evaluated.
pub open spec fn stopped_by<'a, S: Metric, W: Wide<S> + Metric>(
    ev: LimitEvaluator<'a, S>,
    q: Seq<W>,
    index: SearchIndex<S, W>,
    log: Seq<Offer<W>>,
    trail: Trail<W>,
    visits: Visits<W>,
    face: u32,
    seg: Seq<Offer<W>>,
    error: KernelError,
) -> bool {
    &&& index.indexes(ev)
    &&& forall|i: int| 0 <= i < log.len() ==> honest::<S, W>(ev, q, #[trigger] log[i])
    &&& followed::<S, W>(ev, q, index, log, trail)
    &&& visited::<S, W>(index, q, log, trail, visits)
    &&& stands_before::<S, W>(index, q, log, trail, visits, face)
    &&& face < ev.mesh().face_vertex_counts@.len()
    &&& W::less_of(index.boxes@[face as int]@.distance2::<W>(q), best_of(log).dist2)
    &&& quad_fails::<S, W>(
        ev,
        q,
        W::times_of(W::tiny_of(6), index.diag),
        trail.stages.last(),
        face,
        seg,
        error,
    )
}

/// A search ends with a place at which the surface cannot be evaluated.
pub open spec fn search_fails<'a, S: Metric, W: Wide<S> + Metric>(
    ev: LimitEvaluator<'a, S>,
    q: Seq<W>,
    index: SearchIndex<S, W>,
    error: KernelError,
) -> bool {
    exists|log: Seq<Offer<W>>, trail: Trail<W>, visits: Visits<W>, face: u32, seg: Seq<Offer<W>>| #[trigger]
        stopped_by::<S, W>(ev, q, index, log, trail, visits, face, seg, error)
}

/// What a search for the closest point comes to.
pub open spec fn closest_outcome<'a, S: Metric, W: Wide<S> + Metric>(
    ev: LimitEvaluator<'a, S>,
    q: Seq<W>,
    r: Result<ClosestPoint<S>, KernelError>,
) -> bool {
    if ev.mesh().face_vertex_counts@.len() == 0 {
        r == Err::<ClosestPoint<S>, _>(
            KernelError::InvalidTopology("refined level has no faces to run closest-point queries against"),
        )
    } else {
        ||| exists|index: SearchIndex<S, W>, log: Seq<Offer<W>>, trail: Trail<W>, visits: Visits<W>| #[trigger]
            found_by::<S, W>(ev, q, index, log, trail, visits, r)
        ||| r is Err && exists|index: SearchIndex<S, W>| #[trigger] search_fails::<S, W>(ev, q, index, r->Err_0)
    }
}

proof fn lemma_heap_remove<S: Metric, W: Wide<S> + Metric>(
    index: SearchIndex<S, W>,
    q: Seq<W>,
    heap: Seq<Pending<W>>,
    m: int,
)
    requires
        0 <= m < heap.len(),
        heap_ok::<S, W>(index, q, heap),
    ensures
        heap_ok::<S, W>(index, q, heap.remove(m)),
        pending_ok(index, q, heap[m]),
{
    let rest = heap.remove(m);
    assert forall|k: int| 0 <= k < rest.len() implies pending_ok(index, q, #[trigger] rest[k]) by {
        if k < m {
            assert(rest[k] == heap[k]);
        } else {
            assert(rest[k] == heap[k + 1]);
        }
    }
}

proof fn lemma_heap_push<S: Metric, W: Wide<S> + Metric>(
    index: SearchIndex<S, W>,
    q: Seq<W>,
    heap: Seq<Pending<W>>,
    p: Pending<W>,
)
    requires
        heap_ok::<S, W>(index, q, heap),
        pending_ok(index, q, p),
    ensures
        heap_ok::<S, W>(index, q, heap.push(p)),
{
    let all = heap.push(p);
    assert forall|k: int| 0 <= k < all.len() implies pending_ok(index, q, #[trigger] all[k]) by {
        if k < heap.len() {
            assert(all[k] == heap[k]);
        }
    }
}

/// A face that waits goes on waiting, or is below the node that is taken out.
proof fn lemma_waiting_remove<S: Metric, W: Wide<S> + Metric>(
    index: SearchIndex<S, W>,
    heap: Seq<Pending<W>>,
    m: int,
    f: u32,
)
    requires
        0 <= m < heap.len(),
        waiting::<S, W>(index, heap, f),
    ensures
        waiting::<S, W>(index, heap.remove(m), f) || index.faces_under(heap[m].node as int).contains(f),
{
    let k = choose|k: int| 0 <= k < heap.len() && index.faces_under((#[trigger] heap[k]).node as int).contains(f);
    let rest = heap.remove(m);
    if k < m {
        assert(rest[k] == heap[k]);
    } else if k > m {
        assert(rest[k - 1] == heap[k]);
    }
}

proof fn lemma_waiting_grows<S: Metric, W: Wide<S> + Metric>(
    index: SearchIndex<S, W>,
    heap: Seq<Pending<W>>,
    more: Seq<Pending<W>>,
    f: u32,
)
    requires
        waiting::<S, W>(index, heap, f),
        starts_as(more, heap),
    ensures
        waiting::<S, W>(index, more, f),
{
    let k = choose|k: int| 0 <= k < heap.len() && index.faces_under((#[trigger] heap[k]).node as int).contains(f);
    assert(more[k] == heap[k]);
}

/// A face below a node is below one of its children.
proof fn lemma_below<S: Metric, W: Wide<S> + Metric>(
    index: SearchIndex<S, W>,
    i: int,
    left: int,
    right: int,
    f: u32,
)
    requires
        0 <= left < i,
        0 <= right < i,
        index.faces_under(i) == index.faces_under(left) + index.faces_under(right),
        index.faces_under(i).contains(f),
    ensures
        index.faces_under(left).contains(f) || index.faces_under(right).contains(f),
{
    let a = index.faces_under(left);
    let b = index.faces_under(right);
    let k = (a + b).index_of(f);
    if k < a.len() {
        assert(a[k] == f);
    } else {
        assert(b[k - a.len()] == f);
    }
}

proof fn lemma_children_within<S: Metric, W: Wide<S> + Metric>(
    index: SearchIndex<S, W>,
    i: int,
    left: int,
    right: int,
)
    requires
        index.faces_under(i) == index.faces_under(left) + index.faces_under(right),
        within(index, i),
    ensures
        within(index, left),
        within(index, right),
{
    let a = index.faces_under(left);
    let b = index.faces_under(right);
    let n = index.boxes@.len();
    assert forall|k: int| 0 <= k < a.len() implies (#[trigger] a[k]) < n by {
        assert(index.faces_under(i)[k] == a[k]);
    }
    assert forall|k: int| 0 <= k < b.len() implies (#[trigger] b[k]) < n by {
        assert(index.faces_under(i)[a.len() + k] == b[k]);
    }
}

/// The best offer is on a face of the surface.
proof fn lemma_best_on_surface<'a, S: Metric, W: Wide<S> + Metric>(
    ev: LimitEvaluator<'a, S>,
    q: Seq<W>,
    log: Seq<Offer<W>>,
)
    requires
        ev.mesh().face_vertex_counts@.len() > 0,
        forall|i: int| 0 <= i < log.len() ==> honest::<S, W>(ev, q, #[trigger] log[i]),
    ensures
        best_of(log).face < ev.mesh().face_vertex_counts@.len(),
    decreases log.len(),
{
    if log.len() > 0 {
        let before = log.drop_last();
        assert forall|i: int| 0 <= i < before.len() implies honest::<S, W>(ev, q, #[trigger] before[i]) by {
            assert(before[i] == log[i]);
        }
        lemma_best_on_surface::<S, W>(ev, q, before);
        assert(honest::<S, W>(ev, q, log[log.len() - 1]));
        reveal(honest);
    }
}

// ---------------------------------------------------------------------------
// Laws
// ---------------------------------------------------------------------------
/// `less` orders the numbers: none is less than itself, and one that is not less
/// than another is not less than what is below that one.
pub open spec fn ordered<W: Scalar>() -> bool {
    &&& forall|a: W| !(#[trigger] W::less_of(a, a))
    &&& forall|a: W, b: W, c: W|
        !(#[trigger] W::less_of(a, b)) && #[trigger] W::less_of(c, b) ==> !W::less_of(a, c)
}

/// No point that a search looked at is closer than its best one.
pub proof fn no_offer_is_closer<W: Metric>(log: Seq<Offer<W>>, i: int)
    requires
        ordered::<W>(),
        0 <= i < log.len(),
    ensures
        !W::less_of(log[i].dist2, best_of(log).dist2),
    decreases log.len(),
{
    let before = log.drop_last();
    if i < before.len() {
        no_offer_is_closer(before, i);
        assert(before[i] == log[i]);
    }
}

/// The best of a search is one of the points that it looked at, or nothing if
/// none of them is at a distance below infinity.
pub proof fn best_offer_was_made<W: Metric>(log: Seq<Offer<W>>)
    ensures
        log.contains(best_of(log)) || best_of(log) == no_offer::<W>(),
    decreases log.len(),
{
    if log.len() > 0 {
        let before = log.drop_last();
        best_offer_was_made(before);
        if before.contains(best_of(before)) {
            let k = before.index_of(best_of(before));
            assert(log[k] == best_of(before));
        }
        assert(log[log.len() - 1] == log.last());
    }
}

} // verus!
