//! The number type of weights and sharpness values.

use vstd::prelude::*;

verus! {

/// A number type for weights.
///
/// The kernels use a scalar only through these operations and assume nothing
/// of them but that equal arguments give equal results: no algebraic law, so
/// rounding arithmetic qualifies.
///
/// The functions whose names end in `_of` say what the operations give. An
/// implementation that is not verified itself names the operation for each.
pub trait Scalar: Copy + Sized {
    spec fn ratio_of(num: u32, den: u32) -> Self;

    spec fn plus_of(a: Self, b: Self) -> Self;

    spec fn minus_of(a: Self, b: Self) -> Self;

    spec fn times_of(a: Self, b: Self) -> Self;

    spec fn over_of(a: Self, b: Self) -> Self;

    spec fn larger_of(a: Self, b: Self) -> Self;

    spec fn less_of(a: Self, b: Self) -> bool;

    spec fn at_most_of(a: Self, b: Self) -> bool;

    spec fn finite_of(a: Self) -> bool;

    spec fn cos_turn_of(num: u64, den: u64) -> Self;

    spec fn sin_turn_of(num: u64, den: u64) -> Self;

    spec fn sqrt_of(a: Self) -> Self;

    spec fn negated_of(a: Self) -> Self;

    /// The quotient of two small integers; `den` is not zero.
    fn ratio(num: u32, den: u32) -> (r: Self)
        requires
            den > 0,
        ensures
            r == Self::ratio_of(num, den),
    ;

    /// The cosine of the angle that is `num` parts out of `den` of a full
    /// turn; `den` is not zero.
    fn cos_turn(num: u64, den: u64) -> (r: Self)
        requires
            den > 0,
        ensures
            r == Self::cos_turn_of(num, den),
    ;

    /// The sine of the angle that is `num` parts out of `den` of a full turn;
    /// `den` is not zero.
    fn sin_turn(num: u64, den: u64) -> (r: Self)
        requires
            den > 0,
        ensures
            r == Self::sin_turn_of(num, den),
    ;

    /// The square root.
    fn sqrt(self) -> (r: Self)
        ensures
            r == Self::sqrt_of(self),
    ;

    /// `-self`
    fn negated(self) -> (r: Self)
        ensures
            r == Self::negated_of(self),
    ;

    /// `self + other`
    fn plus(self, other: Self) -> (r: Self)
        ensures
            r == Self::plus_of(self, other),
    ;

    /// `self - other`
    fn minus(self, other: Self) -> (r: Self)
        ensures
            r == Self::minus_of(self, other),
    ;

    /// `self * other`
    fn times(self, other: Self) -> (r: Self)
        ensures
            r == Self::times_of(self, other),
    ;

    /// `self / other`
    fn over(self, other: Self) -> (r: Self)
        ensures
            r == Self::over_of(self, other),
    ;

    /// The maximum of the two.
    fn larger(self, other: Self) -> (r: Self)
        ensures
            r == Self::larger_of(self, other),
    ;

    /// `self < other`
    fn less(self, other: Self) -> (r: bool)
        ensures
            r == Self::less_of(self, other),
    ;

    /// `self <= other`
    fn at_most(self, other: Self) -> (r: bool)
        ensures
            r == Self::at_most_of(self, other),
    ;

    /// Whether the value is neither infinite nor undefined.
    fn is_finite(self) -> (r: bool)
        ensures
            r == Self::finite_of(self),
    ;
}

/// A number type in which weights of type `S` are worked out before they are
/// rounded.
pub trait Wide<S: Scalar>: Scalar {
    spec fn narrow_of(w: Self) -> S;

    spec fn widen_of(s: S) -> Self;

    /// Rounds to the type of the weights.
    fn narrow(self) -> (r: S)
        ensures
            r == Self::narrow_of(self),
    ;

    /// Takes up a weight.
    fn widen(s: S) -> (r: Self)
        ensures
            r == Self::widen_of(s),
    ;
}

impl<S: Scalar> Wide<S> for S {
    open spec fn narrow_of(w: Self) -> S {
        w
    }

    open spec fn widen_of(s: S) -> Self {
        s
    }

    fn narrow(self) -> (r: S) {
        self
    }

    fn widen(s: S) -> (r: Self) {
        s
    }
}

pub open spec fn zero_of<S: Scalar>() -> S {
    S::ratio_of(0, 1)
}

pub open spec fn one_of<S: Scalar>() -> S {
    S::ratio_of(1, 1)
}

pub fn zero<S: Scalar>() -> (r: S)
    ensures
        r == zero_of::<S>(),
{
    S::ratio(0, 1)
}

pub fn one<S: Scalar>() -> (r: S)
    ensures
        r == one_of::<S>(),
{
    S::ratio(1, 1)
}

/// A list of zeros.
pub fn zeros<S: Scalar>(count: usize) -> (r: Vec<S>)
    ensures
        r@ == Seq::new(count as nat, |e: int| zero_of::<S>()),
{
    let mut out: Vec<S> = Vec::new();
    let mut i: usize = 0;
    while i < count
        invariant
            i <= count,
            out@.len() == i,
            forall|j: int| 0 <= j < i ==> out@[j] == zero_of::<S>(),
        decreases count - i,
    {
        out.push(zero::<S>());
        i += 1;
    }
    assert(out@ =~= Seq::new(count as nat, |e: int| zero_of::<S>()));
    out
}

} // verus!
