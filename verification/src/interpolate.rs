//! Values that stencils can blend.

use crate::scalar::{zero, zero_of, Scalar};
use vstd::prelude::*;

verus! {

/// Data that can be interpolated: positions, colours, texture coordinates.
pub trait Interpolatable<S: Scalar>: Clone + Sized {
    spec fn origin_of() -> Self;

    spec fn moved(self, src: Self, weight: S) -> Self;

    /// The value that every blend starts from.
    fn origin() -> (r: Self)
        ensures
            r == Self::origin_of(),
    ;

    /// Adds `src * weight` to `self`.
    fn add_with_weight(&mut self, src: &Self, weight: S)
        ensures
            *final(self) == old(self).moved(*src, weight),
    ;
}

impl<S: Scalar> Interpolatable<S> for S {
    open spec fn origin_of() -> Self {
        zero_of::<S>()
    }

    open spec fn moved(self, src: Self, weight: S) -> Self {
        S::plus_of(self, S::times_of(src, weight))
    }

    fn origin() -> (r: Self) {
        zero::<S>()
    }

    fn add_with_weight(&mut self, src: &Self, weight: S) {
        *self = (*self).plus((*src).times(weight));
    }
}

/// The components of an array moved towards those of another.
pub open spec fn components_moved<S: Scalar>(a: Seq<S>, b: Seq<S>, weight: S) -> Seq<S> {
    Seq::new(a.len(), |k: int| S::plus_of(a[k], S::times_of(b[k], weight)))
}

impl<S: Scalar, const N: usize> Interpolatable<S> for [S; N] {
    open spec fn origin_of() -> Self {
        choose|r: [S; N]| r@ == Seq::new(N as nat, |k: int| zero_of::<S>())
    }

    open spec fn moved(self, src: Self, weight: S) -> Self {
        choose|r: [S; N]| r@ == components_moved(self@, src@, weight)
    }

    fn origin() -> (r: Self) {
        let r: [S; N] = [zero::<S>(); N];
        assert(r@ =~= Seq::new(N as nat, |k: int| zero_of::<S>()));
        assert(r =~= <[S; N] as Interpolatable<S>>::origin_of());
        r
    }

    fn add_with_weight(&mut self, src: &Self, weight: S) {
        let ghost before = self@;
        let mut k: usize = 0;
        while k < N
            invariant
                k <= N,
                before.len() == N,
                forall|j: int| 0 <= j < k ==> self@[j] == components_moved(before, src@, weight)[j],
                forall|j: int| k <= j < N ==> self@[j] == before[j],
            decreases N - k,
        {
            let x: S = self[k].plus(src[k].times(weight));
            self[k] = x;
            k += 1;
        }
        assert(self@ =~= components_moved(before, src@, weight));
        assert(*self =~= (*old(self)).moved(*src, weight));
    }
}

} // verus!
