//! Numbers that distances are measured in, and vectors of them.

use crate::scalar::{one, one_of, zero, zero_of, Scalar};
use vstd::prelude::*;

verus! {

/// A number type for distances and angles.
///
/// As with the arithmetic, nothing is assumed of these operations but that equal
/// arguments give equal results.
pub trait Metric: Scalar {
    spec fn infinity_of() -> Self;

    spec fn smaller_of(a: Self, b: Self) -> Self;

    spec fn arc_cos_of(a: Self) -> Self;

    spec fn order_of(a: Self) -> i64;

    spec fn tiny_of(exponent: u32) -> Self;

    /// A number that is greater than all finite ones.
    fn infinity() -> (r: Self)
        ensures
            r == Self::infinity_of(),
    ;

    /// The minimum of the two.
    fn smaller(self, other: Self) -> (r: Self)
        ensures
            r == Self::smaller_of(self, other),
    ;

    /// The angle whose cosine this is, in radians.
    fn arc_cos(self) -> (r: Self)
        ensures
            r == Self::arc_cos_of(self),
    ;

    /// The place of the number in a total order of all values of the type.
    fn order(self) -> (r: i64)
        ensures
            r == Self::order_of(self),
    ;

    /// `10` to the power of `-exponent`.
    fn tiny(exponent: u32) -> (r: Self)
        ensures
            r == Self::tiny_of(exponent),
    ;
}

// ---------------------------------------------------------------------------
// Vectors
// ---------------------------------------------------------------------------
pub open spec fn difference_of<W: Scalar>(a: Seq<W>, b: Seq<W>) -> Seq<W> {
    seq![W::minus_of(a[0], b[0]), W::minus_of(a[1], b[1]), W::minus_of(a[2], b[2])]
}

/// `a - b`
pub fn difference<W: Scalar>(a: &[W; 3], b: &[W; 3]) -> (r: [W; 3])
    ensures
        r@ == difference_of(a@, b@),
{
    let r: [W; 3] = [a[0].minus(b[0]), a[1].minus(b[1]), a[2].minus(b[2])];
    assert(r@ =~= difference_of(a@, b@));
    r
}

pub open spec fn sum_of<W: Scalar>(a: Seq<W>, b: Seq<W>) -> Seq<W> {
    seq![W::plus_of(a[0], b[0]), W::plus_of(a[1], b[1]), W::plus_of(a[2], b[2])]
}

/// `a + b`
pub fn sum<W: Scalar>(a: &[W; 3], b: &[W; 3]) -> (r: [W; 3])
    ensures
        r@ == sum_of(a@, b@),
{
    let r: [W; 3] = [a[0].plus(b[0]), a[1].plus(b[1]), a[2].plus(b[2])];
    assert(r@ =~= sum_of(a@, b@));
    r
}

pub open spec fn scaled_of<W: Scalar>(a: Seq<W>, s: W) -> Seq<W> {
    seq![W::times_of(a[0], s), W::times_of(a[1], s), W::times_of(a[2], s)]
}

/// `a * s`
pub fn scaled<W: Scalar>(a: &[W; 3], s: W) -> (r: [W; 3])
    ensures
        r@ == scaled_of(a@, s),
{
    let r: [W; 3] = [a[0].times(s), a[1].times(s), a[2].times(s)];
    assert(r@ =~= scaled_of(a@, s));
    r
}

pub open spec fn opposite_of<W: Scalar>(a: Seq<W>) -> Seq<W> {
    seq![W::negated_of(a[0]), W::negated_of(a[1]), W::negated_of(a[2])]
}

/// `-a`
pub fn opposite<W: Scalar>(a: &[W; 3]) -> (r: [W; 3])
    ensures
        r@ == opposite_of(a@),
{
    let r: [W; 3] = [a[0].negated(), a[1].negated(), a[2].negated()];
    assert(r@ =~= opposite_of(a@));
    r
}

pub open spec fn dot_of<W: Scalar>(a: Seq<W>, b: Seq<W>) -> W {
    W::plus_of(W::plus_of(W::times_of(a[0], b[0]), W::times_of(a[1], b[1])), W::times_of(a[2], b[2]))
}

pub fn dot<W: Scalar>(a: &[W; 3], b: &[W; 3]) -> (r: W)
    ensures
        r == dot_of(a@, b@),
{
    a[0].times(b[0]).plus(a[1].times(b[1])).plus(a[2].times(b[2]))
}

pub open spec fn cross_of<W: Scalar>(a: Seq<W>, b: Seq<W>) -> Seq<W> {
    seq![
        W::minus_of(W::times_of(a[1], b[2]), W::times_of(a[2], b[1])),
        W::minus_of(W::times_of(a[2], b[0]), W::times_of(a[0], b[2])),
        W::minus_of(W::times_of(a[0], b[1]), W::times_of(a[1], b[0])),
    ]
}

pub fn cross<W: Scalar>(a: &[W; 3], b: &[W; 3]) -> (r: [W; 3])
    ensures
        r@ == cross_of(a@, b@),
{
    let r: [W; 3] = [
        a[1].times(b[2]).minus(a[2].times(b[1])),
        a[2].times(b[0]).minus(a[0].times(b[2])),
        a[0].times(b[1]).minus(a[1].times(b[0])),
    ];
    assert(r@ =~= cross_of(a@, b@));
    r
}

/// The square of the length.
pub open spec fn norm2_of<W: Scalar>(a: Seq<W>) -> W {
    dot_of(a, a)
}

pub fn norm2<W: Scalar>(a: &[W; 3]) -> (r: W)
    ensures
        r == norm2_of(a@),
{
    dot(a, a)
}

pub open spec fn length_of<W: Scalar>(a: Seq<W>) -> W {
    W::sqrt_of(norm2_of(a))
}

pub fn length<W: Scalar>(a: &[W; 3]) -> (r: W)
    ensures
        r == length_of(a@),
{
    norm2(a).sqrt()
}

pub open spec fn nothing_of<W: Scalar>() -> Seq<W> {
    seq![zero_of::<W>(), zero_of::<W>(), zero_of::<W>()]
}

pub fn nothing<W: Scalar>() -> (r: [W; 3])
    ensures
        r@ == nothing_of::<W>(),
{
    let r: [W; 3] = [zero(), zero(), zero()];
    assert(r@ =~= nothing_of::<W>());
    r
}

/// The vector at length one, or nought if it is too short to tell.
pub open spec fn unit_of<W: Metric>(a: Seq<W>) -> Seq<W> {
    let len = length_of(a);
    if W::less_of(W::tiny_of(12), len) {
        scaled_of(a, W::over_of(one_of(), len))
    } else {
        nothing_of()
    }
}

pub fn unit_or_nothing<W: Metric>(a: &[W; 3]) -> (r: [W; 3])
    ensures
        r@ == unit_of(a@),
{
    let len: W = length(a);
    if W::tiny(12).less(len) {
        scaled(a, one::<W>().over(len))
    } else {
        nothing()
    }
}

/// `x`, held between two bounds.
pub open spec fn bounded_of<W: Scalar>(x: W, low: W, high: W) -> W {
    if W::less_of(x, low) {
        low
    } else if W::less_of(high, x) {
        high
    } else {
        x
    }
}

pub fn bounded<W: Scalar>(x: W, low: W, high: W) -> (r: W)
    ensures
        r == bounded_of(x, low, high),
{
    if x.less(low) {
        low
    } else if high.less(x) {
        high
    } else {
        x
    }
}

/// The angle between two vectors; a right angle if one of them is too short to
/// tell.
pub open spec fn wedge_of<W: Metric>(a: Seq<W>, b: Seq<W>) -> W {
    let la = length_of(a);
    let lb = length_of(b);
    if W::less_of(W::tiny_of(12), la) && W::less_of(W::tiny_of(12), lb) {
        W::arc_cos_of(
            bounded_of(W::over_of(dot_of(a, b), W::times_of(la, lb)), W::negated_of(one_of()), one_of()),
        )
    } else {
        W::arc_cos_of(zero_of())
    }
}

pub fn wedge_angle<W: Metric>(a: &[W; 3], b: &[W; 3]) -> (r: W)
    ensures
        r == wedge_of(a@, b@),
{
    let la: W = length(a);
    let lb: W = length(b);
    if W::tiny(12).less(la) && W::tiny(12).less(lb) {
        bounded(dot(a, b).over(la.times(lb)), one::<W>().negated(), one()).arc_cos()
    } else {
        zero::<W>().arc_cos()
    }
}

} // verus!
