//! The limit of a vertex of a Catmull-Clark mesh: its position and a tangent
//! plane, as rows over its ring.

use crate::ring::{Ring, RingModel};
use crate::scalar::{one, one_of, zero, zero_of, Scalar, Wide};
use crate::stencil::{identity_entry, identity_row, lemma_merged_below, merge, merged, row_below};
use crate::topology::all_below;
use vstd::prelude::*;

verus! {

// ---------------------------------------------------------------------------
// Rows in a wide scalar
// ---------------------------------------------------------------------------
pub open spec fn is_zero_of<W: Scalar>(w: W) -> bool {
    W::at_most_of(w, zero_of()) && W::at_most_of(zero_of(), w)
}

fn is_zero<W: Scalar>(w: W) -> (r: bool)
    ensures
        r == is_zero_of(w),
{
    w.at_most(zero()) && zero::<W>().at_most(w)
}

/// A row with a rounded weight added, unless the weight is zero.
pub open spec fn pushed<S: Scalar, W: Wide<S>>(row: Seq<(u32, S)>, index: u32, weight: W) -> Seq<(u32, S)> {
    if is_zero_of(weight) {
        row
    } else {
        merged(row, seq![(index, W::narrow_of(weight))], one_of())
    }
}

fn push<S: Scalar, W: Wide<S>>(row: &mut Vec<(u32, S)>, index: u32, weight: W)
    ensures
        final(row)@ == pushed::<S, W>(old(row)@, index, weight),
{
    if !is_zero(weight) {
        let narrow: S = weight.narrow();
        merge(row, &[(index, narrow)], one());
        assert([(index, narrow)]@ =~= seq![(index, narrow)]);
    }
}

/// Position and tangents of a limit point.
#[verifier::ext_equal]
pub struct MaskModel<S> {
    pub position: Seq<(u32, S)>,
    pub tangent1: Seq<(u32, S)>,
    pub tangent2: Seq<(u32, S)>,
}

/// Position and tangents of a limit point.
pub struct LimitMasks<S> {
    pub position: Vec<(u32, S)>,
    pub tangent1: Vec<(u32, S)>,
    pub tangent2: Vec<(u32, S)>,
}

impl<S> LimitMasks<S> {
    pub open spec fn view(self) -> MaskModel<S> {
        MaskModel { position: self.position@, tangent1: self.tangent1@, tangent2: self.tangent2@ }
    }
}

pub open spec fn no_row<S>() -> Seq<(u32, S)> {
    Seq::empty()
}

// ---------------------------------------------------------------------------
// Corners
// ---------------------------------------------------------------------------
/// The direction from `v` to `n`.
pub open spec fn direction<S: Scalar, W: Wide<S>>(v: u32, n: u32) -> Seq<(u32, S)> {
    pushed::<S, W>(pushed::<S, W>(no_row(), v, W::negated_of(one_of())), n, one_of::<W>())
}

/// A corner stays where it is; its tangents run along its first two edges.
pub open spec fn corner_model<S: Scalar, W: Wide<S>>(v: u32, ring: RingModel) -> MaskModel<S> {
    MaskModel {
        position: identity_row::<S>(v),
        tangent1: direction::<S, W>(v, ring.neighbors[0]),
        tangent2: direction::<S, W>(v, ring.neighbors[1]),
    }
}

fn direction_row<S: Scalar, W: Wide<S>>(v: u32, n: u32) -> (r: Vec<(u32, S)>)
    ensures
        r@ == direction::<S, W>(v, n),
{
    let mut row: Vec<(u32, S)> = Vec::new();
    push::<S, W>(&mut row, v, one::<W>().negated());
    push::<S, W>(&mut row, n, one::<W>());
    row
}

pub fn corner_masks<S: Scalar, W: Wide<S>>(v: u32, ring: &Ring) -> (r: LimitMasks<S>)
    requires
        ring.neighbors@.len() >= 2,
    ensures
        r@ == corner_model::<S, W>(v, ring@),
{
    LimitMasks {
        position: identity_entry(v),
        tangent1: direction_row::<S, W>(v, ring.neighbors[0]),
        tangent2: direction_row::<S, W>(v, ring.neighbors[1]),
    }
}

// ---------------------------------------------------------------------------
// Creases
// ---------------------------------------------------------------------------
/// Two thirds of the vertex and a sixth of each end of the crease.
pub open spec fn crease_position<S: Scalar, W: Wide<S>>(v: u32, a: u32, b: u32) -> Seq<(u32, S)> {
    let third = pushed::<S, W>(no_row(), v, W::ratio_of(2, 3));
    pushed::<S, W>(pushed::<S, W>(third, a, W::ratio_of(1, 6)), b, W::ratio_of(1, 6))
}

/// Along the crease.
pub open spec fn crease_tangent<S: Scalar, W: Wide<S>>(a: u32, b: u32) -> Seq<(u32, S)> {
    pushed::<S, W>(
        pushed::<S, W>(no_row(), a, W::ratio_of(1, 2)),
        b,
        W::negated_of(W::ratio_of(1, 2)),
    )
}

/// Across a crease with one inner edge on this side.
pub open spec fn cross_regular<S: Scalar, W: Wide<S>>(v: u32, ring: RingModel, lead: int, trail: int) -> Seq<(u32, S)> {
    let sixth = W::ratio_of(1, 6);
    let two = W::ratio_of(4, 6);
    let r0 = pushed::<S, W>(no_row(), v, W::negated_of(two));
    let r1 = pushed::<S, W>(r0, ring.neighbors[lead], W::negated_of(sixth));
    let r2 = pushed::<S, W>(r1, ring.neighbors[lead + 1], two);
    let r3 = pushed::<S, W>(r2, ring.neighbors[trail], W::negated_of(sixth));
    let r4 = pushed::<S, W>(r3, ring.diagonals[lead], sixth);
    pushed::<S, W>(r4, ring.diagonals[lead + 1], sixth)
}

/// Across a crease with no inner edge on this side.
pub open spec fn cross_bare<S: Scalar, W: Wide<S>>(v: u32, ring: RingModel, lead: int, trail: int) -> Seq<(u32, S)> {
    let r0 = pushed::<S, W>(no_row(), v, W::negated_of(W::ratio_of(6, 1)));
    let r1 = pushed::<S, W>(r0, ring.neighbors[lead], W::ratio_of(3, 1));
    pushed::<S, W>(r1, ring.neighbors[trail], W::ratio_of(3, 1))
}

/// `1 / (k (3 + cos(pi / k)))`
pub open spec fn cross_scale<W: Scalar>(k: int) -> W {
    W::over_of(
        one_of(),
        W::times_of(
            W::ratio_of(k as u32, 1),
            W::plus_of(W::ratio_of(3, 1), W::cos_turn_of(1, (2 * k) as u64)),
        ),
    )
}

/// Across a crease with `k - 1` inner edges on this side, up to inner edge `i`.
pub open spec fn cross_general<S: Scalar, W: Wide<S>>(
    v: u32,
    ring: RingModel,
    lead: int,
    trail: int,
    i: int,
) -> Seq<(u32, S)>
    decreases i,
{
    let k = trail - lead;
    let cos = W::cos_turn_of(1, (2 * k) as u64);
    let sin = W::sin_turn_of(1, (2 * k) as u64);
    let scale = cross_scale::<W>(k);
    if i <= 0 {
        let r = W::over_of(W::plus_of(cos, one_of()), sin);
        let own = W::times_of(
            W::times_of(W::times_of(W::ratio_of(4, 1), r), W::minus_of(cos, one_of())),
            scale,
        );
        let end = W::times_of(
            W::times_of(
                W::negated_of(r),
                W::plus_of(one_of(), W::times_of(W::ratio_of(2, 1), cos)),
            ),
            scale,
        );
        let r0 = pushed::<S, W>(no_row(), v, own);
        let r1 = pushed::<S, W>(r0, ring.neighbors[lead], end);
        let r2 = pushed::<S, W>(r1, ring.neighbors[trail], end);
        pushed::<S, W>(r2, ring.diagonals[lead], W::times_of(sin, scale))
    } else {
        let before = cross_general::<S, W>(v, ring, lead, trail, i - 1);
        let sin_i = W::sin_turn_of(i as u64, (2 * k) as u64);
        let sin_next = W::sin_turn_of((i + 1) as u64, (2 * k) as u64);
        let r0 = pushed::<S, W>(
            before,
            ring.neighbors[lead + i],
            W::times_of(W::times_of(W::ratio_of(4, 1), sin_i), scale),
        );
        pushed::<S, W>(r0, ring.diagonals[lead + i], W::times_of(W::plus_of(sin_i, sin_next), scale))
    }
}

/// The limit of a vertex on a crease, on the side from edge `lead` to edge
/// `trail`.
pub open spec fn crease_model<S: Scalar, W: Wide<S>>(v: u32, ring: RingModel, lead: int, trail: int) -> MaskModel<S> {
    let a = ring.neighbors[lead];
    let b = ring.neighbors[trail];
    let inner = trail - lead - 1;
    MaskModel {
        position: crease_position::<S, W>(v, a, b),
        tangent1: crease_tangent::<S, W>(a, b),
        tangent2: if inner == 1 {
            cross_regular::<S, W>(v, ring, lead, trail)
        } else if inner > 1 {
            cross_general::<S, W>(v, ring, lead, trail, inner)
        } else {
            cross_bare::<S, W>(v, ring, lead, trail)
        },
    }
}

/// The edges of a side are edges of the ring, and so are the faces between
/// them.
pub open spec fn side_fits(ring: RingModel, lead: int, trail: int) -> bool {
    &&& 0 <= lead < trail
    &&& trail < ring.neighbors.len()
    &&& trail <= ring.diagonals.len()
    &&& trail - lead <= u32::MAX
}

fn cross_general_row<S: Scalar, W: Wide<S>>(v: u32, ring: &Ring, lead: usize, trail: usize) -> (r: Vec<(u32, S)>)
    requires
        side_fits(ring@, lead as int, trail as int),
    ensures
        r@ == cross_general::<S, W>(v, ring@, lead as int, trail as int, trail - lead - 1),
{
    let k: usize = trail - lead;
    let turn: u64 = 2 * k as u64;
    let cos: W = W::cos_turn(1, turn);
    let sin: W = W::sin_turn(1, turn);
    let scale: W = one::<W>().over(W::ratio(k as u32, 1).times(W::ratio(3, 1).plus(cos)));
    let r: W = cos.plus(one()).over(sin);
    let own: W = W::ratio(4, 1).times(r).times(cos.minus(one())).times(scale);
    let end: W = r.negated().times(one::<W>().plus(W::ratio(2, 1).times(cos))).times(scale);
    let mut row: Vec<(u32, S)> = Vec::new();
    push::<S, W>(&mut row, v, own);
    push::<S, W>(&mut row, ring.neighbors[lead], end);
    push::<S, W>(&mut row, ring.neighbors[trail], end);
    push::<S, W>(&mut row, ring.diagonals[lead], sin.times(scale));
    let mut i: usize = 1;
    while i < k
        invariant
            1 <= i <= k,
            k == trail - lead,
            k <= u32::MAX,
            turn == 2 * k,
            side_fits(ring@, lead as int, trail as int),
            scale == cross_scale::<W>(k as int),
            row@ == cross_general::<S, W>(v, ring@, lead as int, trail as int, i - 1),
        decreases k - i,
    {
        let sin_i: W = W::sin_turn(i as u64, turn);
        let sin_next: W = W::sin_turn(i as u64 + 1, turn);
        push::<S, W>(&mut row, ring.neighbors[lead + i], W::ratio(4, 1).times(sin_i).times(scale));
        push::<S, W>(&mut row, ring.diagonals[lead + i], sin_i.plus(sin_next).times(scale));
        i += 1;
    }
    row
}

pub fn crease_masks<S: Scalar, W: Wide<S>>(v: u32, ring: &Ring, lead: usize, trail: usize) -> (r: LimitMasks<S>)
    requires
        side_fits(ring@, lead as int, trail as int),
    ensures
        r@ == crease_model::<S, W>(v, ring@, lead as int, trail as int),
{
    let a: u32 = ring.neighbors[lead];
    let b: u32 = ring.neighbors[trail];
    let mut position: Vec<(u32, S)> = Vec::new();
    push::<S, W>(&mut position, v, W::ratio(2, 3));
    push::<S, W>(&mut position, a, W::ratio(1, 6));
    push::<S, W>(&mut position, b, W::ratio(1, 6));
    let mut tangent1: Vec<(u32, S)> = Vec::new();
    push::<S, W>(&mut tangent1, a, W::ratio(1, 2));
    push::<S, W>(&mut tangent1, b, W::ratio(1, 2).negated());
    let inner: usize = trail - lead - 1;
    let tangent2: Vec<(u32, S)> = if inner == 1 {
        let sixth: W = W::ratio(1, 6);
        let two: W = W::ratio(4, 6);
        let mut row: Vec<(u32, S)> = Vec::new();
        push::<S, W>(&mut row, v, two.negated());
        push::<S, W>(&mut row, a, sixth.negated());
        push::<S, W>(&mut row, ring.neighbors[lead + 1], two);
        push::<S, W>(&mut row, b, sixth.negated());
        push::<S, W>(&mut row, ring.diagonals[lead], sixth);
        push::<S, W>(&mut row, ring.diagonals[lead + 1], sixth);
        row
    } else if inner > 1 {
        cross_general_row::<S, W>(v, ring, lead, trail)
    } else {
        let mut row: Vec<(u32, S)> = Vec::new();
        push::<S, W>(&mut row, v, W::ratio(6, 1).negated());
        push::<S, W>(&mut row, a, W::ratio(3, 1));
        push::<S, W>(&mut row, b, W::ratio(3, 1));
        row
    };
    LimitMasks { position, tangent1, tangent2 }
}

// ---------------------------------------------------------------------------
// Smooth vertices
// ---------------------------------------------------------------------------
/// A small whole number.
pub open spec fn whole<W: Scalar>(k: int) -> W {
    if k == 0 {
        zero_of()
    } else if k > 0 {
        W::ratio_of(k as u32, 1)
    } else {
        W::negated_of(W::ratio_of((-k) as u32, 1))
    }
}

fn small<W: Scalar>(k: i8) -> (r: W)
    ensures
        r == whole::<W>(k as int),
{
    if k == 0 {
        zero()
    } else if k > 0 {
        W::ratio(k as u32, 1)
    } else {
        let m: i16 = -(k as i16);
        W::ratio(m as u32, 1).negated()
    }
}

/// The weights of the edges and faces of a regular vertex in its tangents.
pub open spec fn regular_weights(i: int) -> (int, int, int, int) {
    if i == 0 {
        (4, 1, 0, 1)
    } else if i == 1 {
        (0, -1, 4, 1)
    } else if i == 2 {
        (-4, -1, 0, -1)
    } else {
        (0, 1, -4, -1)
    }
}

/// The limit of a regular vertex, up to its first `i` edges.
pub open spec fn regular_model<S: Scalar, W: Wide<S>>(v: u32, ring: RingModel, i: int) -> MaskModel<S>
    decreases i,
{
    if i <= 0 {
        MaskModel {
            position: pushed::<S, W>(no_row(), v, W::ratio_of(4, 9)),
            tangent1: no_row(),
            tangent2: no_row(),
        }
    } else {
        let before = regular_model::<S, W>(v, ring, i - 1);
        let n = ring.neighbors[i - 1];
        let d = ring.diagonals[i - 1];
        let (e1, f1, e2, f2) = regular_weights(i - 1);
        MaskModel {
            position: pushed::<S, W>(
                pushed::<S, W>(before.position, n, W::ratio_of(1, 9)),
                d,
                W::ratio_of(1, 36),
            ),
            tangent1: pushed::<S, W>(pushed::<S, W>(before.tangent1, n, whole::<W>(e1)), d, whole::<W>(f1)),
            tangent2: pushed::<S, W>(pushed::<S, W>(before.tangent2, n, whole::<W>(e2)), d, whole::<W>(f2)),
        }
    }
}

/// Weight of a face in the limit position: `1 / (n (n + 5))`.
pub open spec fn face_share<S: Scalar>(valence: int) -> S {
    let n = S::ratio_of(valence as u32, 1);
    S::over_of(one_of(), S::times_of(n, S::plus_of(n, S::ratio_of(5, 1))))
}

/// Weight of an edge in the limit position.
pub open spec fn edge_share<S: Scalar>(valence: int) -> S {
    S::times_of(S::ratio_of(4, 1), face_share::<S>(valence))
}

/// Weight of the vertex in the limit position.
pub open spec fn own_share<S: Scalar>(valence: int) -> S {
    S::minus_of(
        one_of(),
        S::times_of(
            S::ratio_of(valence as u32, 1),
            S::plus_of(edge_share::<S>(valence), face_share::<S>(valence)),
        ),
    )
}

/// Weight of the faces in the tangents: `1 / (4 lambda - 1)`, with `lambda` the
/// subdominant eigenvalue.
pub open spec fn face_scale<W: Scalar>(valence: int) -> W {
    let cos = W::cos_turn_of(1, valence as u64);
    let cos_half = W::cos_turn_of(1, (2 * valence) as u64);
    let root = W::sqrt_of(W::times_of(W::ratio_of(2, 1), W::plus_of(W::ratio_of(9, 1), cos)));
    let lambda = W::plus_of(
        W::ratio_of(5, 16),
        W::times_of(W::ratio_of(1, 16), W::plus_of(cos, W::times_of(cos_half, root))),
    );
    W::over_of(one_of(), W::minus_of(W::times_of(W::ratio_of(4, 1), lambda), one_of()))
}

/// A tangent with the weights of edge and face number `j` put on `n` and `d`.
pub open spec fn tangent_pushed<S: Scalar, W: Wide<S>>(
    row: Seq<(u32, S)>,
    valence: int,
    j: int,
    n: u32,
    d: u32,
) -> Seq<(u32, S)> {
    let cos = W::cos_turn_of(j as u64, valence as u64);
    let cos_next = W::cos_turn_of((j + 1) as u64, valence as u64);
    pushed::<S, W>(
        pushed::<S, W>(row, n, W::times_of(W::ratio_of(4, 1), cos)),
        d,
        W::times_of(face_scale::<W>(valence), W::plus_of(cos, cos_next)),
    )
}

/// The limit of an extraordinary vertex, up to its first `i` edges.
pub open spec fn extraordinary_model<S: Scalar, W: Wide<S>>(v: u32, ring: RingModel, i: int) -> MaskModel<S>
    decreases i,
{
    let valence = ring.diagonals.len() as int;
    if i <= 0 {
        MaskModel {
            position: pushed::<S, S>(no_row(), v, own_share::<S>(valence)),
            tangent1: no_row(),
            tangent2: no_row(),
        }
    } else {
        let before = extraordinary_model::<S, W>(v, ring, i - 1);
        let n = ring.neighbors[i - 1];
        let d = ring.diagonals[i - 1];
        let turned = if i == 1 {
            valence - 1
        } else {
            i - 2
        };
        MaskModel {
            position: pushed::<S, S>(
                pushed::<S, S>(before.position, n, edge_share::<S>(valence)),
                d,
                face_share::<S>(valence),
            ),
            tangent1: tangent_pushed::<S, W>(before.tangent1, valence, i - 1, n, d),
            tangent2: tangent_pushed::<S, W>(before.tangent2, valence, turned, n, d),
        }
    }
}

/// The limit of a smooth vertex.
pub open spec fn smooth_model<S: Scalar, W: Wide<S>>(v: u32, ring: RingModel) -> MaskModel<S> {
    let valence = ring.diagonals.len() as int;
    if valence == 2 {
        corner_model::<S, W>(v, ring)
    } else if valence == 4 {
        regular_model::<S, W>(v, ring, 4)
    } else {
        extraordinary_model::<S, W>(v, ring, valence)
    }
}

/// The ring of a smooth vertex has an edge for each face.
pub open spec fn ring_fits(ring: RingModel) -> bool {
    &&& 0 < ring.diagonals.len() <= ring.neighbors.len()
    &&& ring.diagonals.len() <= u32::MAX
    &&& ring.neighbors.len() >= 2
}

fn regular_masks<S: Scalar, W: Wide<S>>(v: u32, ring: &Ring) -> (r: LimitMasks<S>)
    requires
        ring_fits(ring@),
        ring.diagonals@.len() == 4,
    ensures
        r@ == regular_model::<S, W>(v, ring@, 4),
{
    let mut position: Vec<(u32, S)> = Vec::new();
    let mut tangent1: Vec<(u32, S)> = Vec::new();
    let mut tangent2: Vec<(u32, S)> = Vec::new();
    push::<S, W>(&mut position, v, W::ratio(4, 9));
    let edge_1: [i8; 4] = [4, 0, -4, 0];
    let face_1: [i8; 4] = [1, -1, -1, 1];
    let edge_2: [i8; 4] = [0, 4, 0, -4];
    let face_2: [i8; 4] = [1, 1, -1, -1];
    let mut i: usize = 0;
    while i < 4
        invariant
            i <= 4,
            ring_fits(ring@),
            ring.diagonals@.len() == 4,
            edge_1@ == seq![4i8, 0i8, -4i8, 0i8],
            face_1@ == seq![1i8, -1i8, -1i8, 1i8],
            edge_2@ == seq![0i8, 4i8, 0i8, -4i8],
            face_2@ == seq![1i8, 1i8, -1i8, -1i8],
            position@ == regular_model::<S, W>(v, ring@, i as int).position,
            tangent1@ == regular_model::<S, W>(v, ring@, i as int).tangent1,
            tangent2@ == regular_model::<S, W>(v, ring@, i as int).tangent2,
        decreases 4 - i,
    {
        let n: u32 = ring.neighbors[i];
        let d: u32 = ring.diagonals[i];
        assert(regular_weights(i as int) == (
            edge_1@[i as int] as int,
            face_1@[i as int] as int,
            edge_2@[i as int] as int,
            face_2@[i as int] as int,
        ));
        push::<S, W>(&mut position, n, W::ratio(1, 9));
        push::<S, W>(&mut position, d, W::ratio(1, 36));
        push::<S, W>(&mut tangent1, n, small::<W>(edge_1[i]));
        push::<S, W>(&mut tangent1, d, small::<W>(face_1[i]));
        push::<S, W>(&mut tangent2, n, small::<W>(edge_2[i]));
        push::<S, W>(&mut tangent2, d, small::<W>(face_2[i]));
        i += 1;
    }
    LimitMasks { position, tangent1, tangent2 }
}

fn push_tangent<S: Scalar, W: Wide<S>>(
    row: &mut Vec<(u32, S)>,
    valence: u64,
    j: u64,
    n: u32,
    d: u32,
    scale: W,
)
    requires
        0 < valence,
        j < u64::MAX,
        scale == face_scale::<W>(valence as int),
    ensures
        final(row)@ == tangent_pushed::<S, W>(old(row)@, valence as int, j as int, n, d),
{
    let cos: W = W::cos_turn(j, valence);
    let cos_next: W = W::cos_turn(j + 1, valence);
    push::<S, W>(row, n, W::ratio(4, 1).times(cos));
    push::<S, W>(row, d, scale.times(cos.plus(cos_next)));
}

fn extraordinary_masks<S: Scalar, W: Wide<S>>(v: u32, ring: &Ring) -> (r: LimitMasks<S>)
    requires
        ring_fits(ring@),
    ensures
        r@ == extraordinary_model::<S, W>(v, ring@, ring.diagonals@.len() as int),
{
    let valence: usize = ring.diagonals.len();
    let n: S = S::ratio(valence as u32, 1);
    let face_weight: S = one::<S>().over(n.times(n.plus(S::ratio(5, 1))));
    let edge_weight: S = S::ratio(4, 1).times(face_weight);
    let own_weight: S = one::<S>().minus(n.times(edge_weight.plus(face_weight)));
    let turn: u64 = valence as u64;
    let cos: W = W::cos_turn(1, turn);
    let cos_half: W = W::cos_turn(1, 2 * turn);
    let root: W = W::ratio(2, 1).times(W::ratio(9, 1).plus(cos)).sqrt();
    let lambda: W = W::ratio(5, 16).plus(W::ratio(1, 16).times(cos.plus(cos_half.times(root))));
    let scale: W = one::<W>().over(W::ratio(4, 1).times(lambda).minus(one()));
    let mut position: Vec<(u32, S)> = Vec::new();
    let mut tangent1: Vec<(u32, S)> = Vec::new();
    let mut tangent2: Vec<(u32, S)> = Vec::new();
    push::<S, S>(&mut position, v, own_weight);
    let mut i: usize = 0;
    while i < valence
        invariant
            i <= valence,
            valence == ring.diagonals@.len(),
            turn == valence,
            ring_fits(ring@),
            edge_weight == edge_share::<S>(valence as int),
            face_weight == face_share::<S>(valence as int),
            scale == face_scale::<W>(valence as int),
            position@ == extraordinary_model::<S, W>(v, ring@, i as int).position,
            tangent1@ == extraordinary_model::<S, W>(v, ring@, i as int).tangent1,
            tangent2@ == extraordinary_model::<S, W>(v, ring@, i as int).tangent2,
        decreases valence - i,
    {
        let a: u32 = ring.neighbors[i];
        let d: u32 = ring.diagonals[i];
        push::<S, S>(&mut position, a, edge_weight);
        push::<S, S>(&mut position, d, face_weight);
        push_tangent::<S, W>(&mut tangent1, turn, i as u64, a, d, scale);
        let turned: usize = if i == 0 {
            valence - 1
        } else {
            i - 1
        };
        push_tangent::<S, W>(&mut tangent2, turn, turned as u64, a, d, scale);
        i += 1;
    }
    LimitMasks { position, tangent1, tangent2 }
}

pub fn smooth_masks<S: Scalar, W: Wide<S>>(v: u32, ring: &Ring) -> (r: LimitMasks<S>)
    requires
        ring_fits(ring@),
    ensures
        r@ == smooth_model::<S, W>(v, ring@),
{
    let valence: usize = ring.diagonals.len();
    if valence == 2 {
        corner_masks::<S, W>(v, ring)
    } else if valence == 4 {
        regular_masks::<S, W>(v, ring)
    } else {
        extraordinary_masks::<S, W>(v, ring)
    }
}

// ---------------------------------------------------------------------------
// Ranges
// ---------------------------------------------------------------------------
/// The vertices around a vertex are below `n`.
pub open spec fn ring_below(ring: RingModel, n: nat) -> bool {
    all_below(ring.neighbors, n as int) && all_below(ring.diagonals, n as int)
}

/// The rows of a limit point read vertices below `n` only.
pub open spec fn masks_below<S>(m: MaskModel<S>, n: nat) -> bool {
    row_below(m.position, n) && row_below(m.tangent1, n) && row_below(m.tangent2, n)
}

proof fn lemma_pushed_below<S: Scalar, W: Wide<S>>(row: Seq<(u32, S)>, index: u32, weight: W, n: nat)
    requires
        row_below(row, n),
        index < n,
    ensures
        row_below(pushed::<S, W>(row, index, weight), n),
{
    lemma_merged_below(row, seq![(index, W::narrow_of(weight))], one_of(), n);
}

proof fn lemma_corner_below<S: Scalar, W: Wide<S>>(v: u32, ring: RingModel, n: nat)
    requires
        v < n,
        ring_below(ring, n),
        ring.neighbors.len() >= 2,
    ensures
        masks_below(corner_model::<S, W>(v, ring), n),
{
    assert(ring.neighbors[0] < n && ring.neighbors[1] < n);
    let base = pushed::<S, W>(no_row(), v, W::negated_of(one_of()));
    lemma_pushed_below::<S, W>(no_row(), v, W::negated_of(one_of()), n);
    lemma_pushed_below::<S, W>(base, ring.neighbors[0], one_of(), n);
    lemma_pushed_below::<S, W>(base, ring.neighbors[1], one_of(), n);
}

proof fn lemma_cross_general_below<S: Scalar, W: Wide<S>>(
    v: u32,
    ring: RingModel,
    lead: int,
    trail: int,
    i: int,
    n: nat,
)
    requires
        v < n,
        ring_below(ring, n),
        side_fits(ring, lead, trail),
        0 <= i < trail - lead,
    ensures
        row_below(cross_general::<S, W>(v, ring, lead, trail, i), n),
    decreases i,
{
    let k = trail - lead;
    let cos = W::cos_turn_of(1, (2 * k) as u64);
    let sin = W::sin_turn_of(1, (2 * k) as u64);
    let scale = cross_scale::<W>(k);
    assert(ring.neighbors[lead] < n && ring.neighbors[trail] < n && ring.diagonals[lead] < n);
    if i <= 0 {
        let r = W::over_of(W::plus_of(cos, one_of()), sin);
        let own = W::times_of(
            W::times_of(W::times_of(W::ratio_of(4, 1), r), W::minus_of(cos, one_of())),
            scale,
        );
        let end = W::times_of(
            W::times_of(
                W::negated_of(r),
                W::plus_of(one_of(), W::times_of(W::ratio_of(2, 1), cos)),
            ),
            scale,
        );
        let r0 = pushed::<S, W>(no_row(), v, own);
        lemma_pushed_below::<S, W>(no_row(), v, own, n);
        let r1 = pushed::<S, W>(r0, ring.neighbors[lead], end);
        lemma_pushed_below::<S, W>(r0, ring.neighbors[lead], end, n);
        let r2 = pushed::<S, W>(r1, ring.neighbors[trail], end);
        lemma_pushed_below::<S, W>(r1, ring.neighbors[trail], end, n);
        lemma_pushed_below::<S, W>(r2, ring.diagonals[lead], W::times_of(sin, scale), n);
    } else {
        lemma_cross_general_below::<S, W>(v, ring, lead, trail, i - 1, n);
        assert(ring.neighbors[lead + i] < n && ring.diagonals[lead + i] < n);
        let before = cross_general::<S, W>(v, ring, lead, trail, i - 1);
        let sin_i = W::sin_turn_of(i as u64, (2 * k) as u64);
        let sin_next = W::sin_turn_of((i + 1) as u64, (2 * k) as u64);
        let w = W::times_of(W::times_of(W::ratio_of(4, 1), sin_i), scale);
        lemma_pushed_below::<S, W>(before, ring.neighbors[lead + i], w, n);
        lemma_pushed_below::<S, W>(
            pushed::<S, W>(before, ring.neighbors[lead + i], w),
            ring.diagonals[lead + i],
            W::times_of(W::plus_of(sin_i, sin_next), scale),
            n,
        );
    }
}

pub proof fn lemma_crease_below<S: Scalar, W: Wide<S>>(v: u32, ring: RingModel, lead: int, trail: int, n: nat)
    requires
        v < n,
        ring_below(ring, n),
        side_fits(ring, lead, trail),
    ensures
        masks_below(crease_model::<S, W>(v, ring, lead, trail), n),
{
    let a = ring.neighbors[lead];
    let b = ring.neighbors[trail];
    assert(ring.neighbors[lead] < n && ring.neighbors[trail] < n);
    let p0 = pushed::<S, W>(no_row(), v, W::ratio_of(2, 3));
    lemma_pushed_below::<S, W>(no_row(), v, W::ratio_of(2, 3), n);
    lemma_pushed_below::<S, W>(p0, a, W::ratio_of(1, 6), n);
    lemma_pushed_below::<S, W>(pushed::<S, W>(p0, a, W::ratio_of(1, 6)), b, W::ratio_of(1, 6), n);
    let t0 = pushed::<S, W>(no_row(), a, W::ratio_of(1, 2));
    lemma_pushed_below::<S, W>(no_row(), a, W::ratio_of(1, 2), n);
    lemma_pushed_below::<S, W>(t0, b, W::negated_of(W::ratio_of(1, 2)), n);
    let inner = trail - lead - 1;
    if inner == 1 {
        assert(ring.neighbors[lead + 1] < n);
        assert(ring.diagonals[lead] < n && ring.diagonals[lead + 1] < n);
        let sixth = W::ratio_of(1, 6);
        let two = W::ratio_of(4, 6);
        let r0 = pushed::<S, W>(no_row(), v, W::negated_of(two));
        lemma_pushed_below::<S, W>(no_row(), v, W::negated_of(two), n);
        let r1 = pushed::<S, W>(r0, a, W::negated_of(sixth));
        lemma_pushed_below::<S, W>(r0, a, W::negated_of(sixth), n);
        let r2 = pushed::<S, W>(r1, ring.neighbors[lead + 1], two);
        lemma_pushed_below::<S, W>(r1, ring.neighbors[lead + 1], two, n);
        let r3 = pushed::<S, W>(r2, b, W::negated_of(sixth));
        lemma_pushed_below::<S, W>(r2, b, W::negated_of(sixth), n);
        let r4 = pushed::<S, W>(r3, ring.diagonals[lead], sixth);
        lemma_pushed_below::<S, W>(r3, ring.diagonals[lead], sixth, n);
        lemma_pushed_below::<S, W>(r4, ring.diagonals[lead + 1], sixth, n);
    } else if inner > 1 {
        lemma_cross_general_below::<S, W>(v, ring, lead, trail, inner, n);
    } else {
        let r0 = pushed::<S, W>(no_row(), v, W::negated_of(W::ratio_of(6, 1)));
        lemma_pushed_below::<S, W>(no_row(), v, W::negated_of(W::ratio_of(6, 1)), n);
        let r1 = pushed::<S, W>(r0, a, W::ratio_of(3, 1));
        lemma_pushed_below::<S, W>(r0, a, W::ratio_of(3, 1), n);
        lemma_pushed_below::<S, W>(r1, b, W::ratio_of(3, 1), n);
    }
}

proof fn lemma_regular_below<S: Scalar, W: Wide<S>>(v: u32, ring: RingModel, i: int, n: nat)
    requires
        v < n,
        ring_below(ring, n),
        0 <= i <= ring.diagonals.len() <= ring.neighbors.len(),
    ensures
        masks_below(regular_model::<S, W>(v, ring, i), n),
    decreases i,
{
    if i <= 0 {
        lemma_pushed_below::<S, W>(no_row(), v, W::ratio_of(4, 9), n);
    } else {
        lemma_regular_below::<S, W>(v, ring, i - 1, n);
        let before = regular_model::<S, W>(v, ring, i - 1);
        let a = ring.neighbors[i - 1];
        let d = ring.diagonals[i - 1];
        assert(ring.neighbors[i - 1] < n && ring.diagonals[i - 1] < n);
        let (e1, f1, e2, f2) = regular_weights(i - 1);
        lemma_pushed_below::<S, W>(before.position, a, W::ratio_of(1, 9), n);
        lemma_pushed_below::<S, W>(
            pushed::<S, W>(before.position, a, W::ratio_of(1, 9)),
            d,
            W::ratio_of(1, 36),
            n,
        );
        lemma_pushed_below::<S, W>(before.tangent1, a, whole::<W>(e1), n);
        lemma_pushed_below::<S, W>(pushed::<S, W>(before.tangent1, a, whole::<W>(e1)), d, whole::<W>(f1), n);
        lemma_pushed_below::<S, W>(before.tangent2, a, whole::<W>(e2), n);
        lemma_pushed_below::<S, W>(pushed::<S, W>(before.tangent2, a, whole::<W>(e2)), d, whole::<W>(f2), n);
    }
}

proof fn lemma_tangent_below<S: Scalar, W: Wide<S>>(
    row: Seq<(u32, S)>,
    valence: int,
    j: int,
    a: u32,
    d: u32,
    n: nat,
)
    requires
        row_below(row, n),
        a < n,
        d < n,
    ensures
        row_below(tangent_pushed::<S, W>(row, valence, j, a, d), n),
{
    let cos = W::cos_turn_of(j as u64, valence as u64);
    let cos_next = W::cos_turn_of((j + 1) as u64, valence as u64);
    let w = W::times_of(W::ratio_of(4, 1), cos);
    lemma_pushed_below::<S, W>(row, a, w, n);
    lemma_pushed_below::<S, W>(
        pushed::<S, W>(row, a, w),
        d,
        W::times_of(face_scale::<W>(valence), W::plus_of(cos, cos_next)),
        n,
    );
}

proof fn lemma_extraordinary_below<S: Scalar, W: Wide<S>>(v: u32, ring: RingModel, i: int, n: nat)
    requires
        v < n,
        ring_below(ring, n),
        0 <= i <= ring.diagonals.len() <= ring.neighbors.len(),
    ensures
        masks_below(extraordinary_model::<S, W>(v, ring, i), n),
    decreases i,
{
    let valence = ring.diagonals.len() as int;
    if i <= 0 {
        lemma_pushed_below::<S, S>(no_row(), v, own_share::<S>(valence), n);
    } else {
        lemma_extraordinary_below::<S, W>(v, ring, i - 1, n);
        let before = extraordinary_model::<S, W>(v, ring, i - 1);
        let a = ring.neighbors[i - 1];
        let d = ring.diagonals[i - 1];
        assert(ring.neighbors[i - 1] < n && ring.diagonals[i - 1] < n);
        let turned = if i == 1 {
            valence - 1
        } else {
            i - 2
        };
        lemma_pushed_below::<S, S>(before.position, a, edge_share::<S>(valence), n);
        lemma_pushed_below::<S, S>(
            pushed::<S, S>(before.position, a, edge_share::<S>(valence)),
            d,
            face_share::<S>(valence),
            n,
        );
        lemma_tangent_below::<S, W>(before.tangent1, valence, i - 1, a, d, n);
        lemma_tangent_below::<S, W>(before.tangent2, valence, turned, a, d, n);
    }
}

/// The limit of a smooth vertex reads its ring only.
pub proof fn lemma_smooth_below<S: Scalar, W: Wide<S>>(v: u32, ring: RingModel, n: nat)
    requires
        v < n,
        ring_below(ring, n),
        ring_fits(ring),
    ensures
        masks_below(smooth_model::<S, W>(v, ring), n),
        masks_below(corner_model::<S, W>(v, ring), n),
{
    let valence = ring.diagonals.len() as int;
    lemma_corner_below::<S, W>(v, ring, n);
    if valence == 4 {
        lemma_regular_below::<S, W>(v, ring, 4, n);
    } else {
        lemma_extraordinary_below::<S, W>(v, ring, valence, n);
    }
}

} // verus!
