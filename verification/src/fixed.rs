//! A scalar for machines without floating point.

use crate::metric::Metric;
use crate::scalar::Scalar;
use vstd::prelude::*;

verus! {

/// A number in units of `1 / ONE`. Results that do not fit are cut off at the
/// largest and the smallest number, which count as infinite.
#[derive(Debug, Clone, Copy, PartialEq, Eq, Structural)]
pub struct Fixed {
    pub raw: i64,
}

/// The raw value of one.
pub const ONE: i64 = 0x10_0000;

pub open spec fn magnitude(v: int) -> int {
    if v < 0 {
        -v
    } else {
        v
    }
}

/// The quotient, rounded towards nought.
pub open spec fn truncated(n: int, d: int) -> int {
    if (n < 0) == (d < 0) {
        magnitude(n) / magnitude(d)
    } else {
        -(magnitude(n) / magnitude(d))
    }
}

/// The nearest raw value that fits.
pub open spec fn cut_off(v: int) -> Fixed {
    Fixed {
        raw: (if v > i64::MAX {
            i64::MAX as int
        } else if v < i64::MIN {
            i64::MIN as int
        } else {
            v
        }) as i64,
    }
}

/// The raw quotient; a number over nought is infinite and nought over nought is
/// nought.
pub open spec fn quotient(n: int, d: int) -> Fixed {
    if d == 0 {
        cut_off(
            if n > 0 {
                i64::MAX as int
            } else if n < 0 {
                i64::MIN as int
            } else {
                0
            },
        )
    } else {
        cut_off(truncated(n, d))
    }
}

fn cut(v: i128) -> (r: Fixed)
    ensures
        r == cut_off(v as int),
{
    if v > i64::MAX as i128 {
        Fixed { raw: i64::MAX }
    } else if v < i64::MIN as i128 {
        Fixed { raw: i64::MIN }
    } else {
        Fixed { raw: v as i64 }
    }
}

fn size(v: i128) -> (r: u128)
    requires
        v > i128::MIN,
    ensures
        r == magnitude(v as int),
        r <= i128::MAX,
{
    if v < 0 {
        (-v) as u128
    } else {
        v as u128
    }
}

fn divide(n: i128, d: i128) -> (r: Fixed)
    requires
        n > i128::MIN,
        d > i128::MIN,
    ensures
        r == quotient(n as int, d as int),
{
    if d == 0 {
        if n > 0 {
            Fixed { raw: i64::MAX }
        } else if n < 0 {
            Fixed { raw: i64::MIN }
        } else {
            Fixed { raw: 0 }
        }
    } else {
        let a: u128 = size(n);
        let b: u128 = size(d);
        let q: u128 = a / b;
        assert(q <= a) by (nonlinear_arith)
            requires
                q == a / b,
                b >= 1,
        ;
        if (n < 0) == (d < 0) {
            cut(q as i128)
        } else {
            cut(-(q as i128))
        }
    }
}

/// The raw sine of `num` parts out of `den` of a full turn, by Bhaskara's
/// rational approximation on a half turn.
pub open spec fn sine_of(num: int, den: int) -> Fixed {
    let p = (2 * num) % (2 * den);
    let half = if p <= den {
        p
    } else {
        p - den
    };
    let u = half * ONE / den;
    let x = u * (ONE - u) / ONE as int;
    let s = 16 * x * ONE / (5 * ONE - 4 * x);
    cut_off(
        if p <= den {
            s
        } else {
            -s
        },
    )
}

fn sine(num: u128, den: u128) -> (r: Fixed)
    requires
        0 < den <= 0x4_0000_0000_0000_0000,
        num <= 0x8_0000_0000_0000_0000,
    ensures
        r == sine_of(num as int, den as int),
{
    let one: u128 = ONE as u128;
    let p: u128 = (2 * num) % (2 * den);
    let half: u128 = if p <= den {
        p
    } else {
        p - den
    };
    assert(half <= den);
    let u: u128 = half * one / den;
    assert(u <= one) by (nonlinear_arith)
        requires
            half <= den,
            den > 0,
            u == (half * one) / (den as int),
            one >= 0,
    ;
    assert(u * (one - u) <= one * one) by (nonlinear_arith)
        requires
            0 <= u <= one,
    ;
    let x: u128 = u * (one - u) / one;
    assert(4 * x <= one) by (nonlinear_arith)
        requires
            x == (u * (one - u)) / one as int,
            0 <= u <= one,
            one > 0,
    ;
    let s: u128 = 16 * x * one / (5 * one - 4 * x);
    assert(s <= 16 * x * one) by (nonlinear_arith)
        requires
            s == (16 * x * one) / (5 * one - 4 * x),
            5 * one - 4 * x >= 1,
            x >= 0,
            one >= 0,
    ;
    if p <= den {
        cut(s as i128)
    } else {
        cut(-(s as i128))
    }
}

/// The largest number whose square is at most `n`.
pub open spec fn is_root(n: int, r: int) -> bool {
    0 <= r && r * r <= n < (r + 1) * (r + 1)
}

/// The root is unique.
pub proof fn root_is_unique(n: int, a: int, b: int)
    requires
        is_root(n, a),
        is_root(n, b),
    ensures
        a == b,
{
    if a < b {
        assert((a + 1) * (a + 1) <= b * b) by (nonlinear_arith)
            requires
                0 <= a,
                a + 1 <= b,
        ;
    }
    if b < a {
        assert((b + 1) * (b + 1) <= a * a) by (nonlinear_arith)
            requires
                0 <= b,
                b + 1 <= a,
        ;
    }
}

pub open spec fn root_of(n: int) -> int {
    choose|r: int| is_root(n, r)
}

fn root(n: u128) -> (r: u64)
    requires
        n <= 0x1_0000_0000_0000_0000_0000_0000,
    ensures
        is_root(n as int, r as int),
{
    let mut low: u64 = 0;
    let mut high: u64 = 0x2_0000_0000_0000;
    assert(0x2_0000_0000_0000 * 0x2_0000_0000_0000 > 0x1_0000_0000_0000_0000_0000_0000) by (nonlinear_arith);
    while high - low > 1
        invariant
            low < high <= 0x2_0000_0000_0000,
            low * low <= n < high * high,
        decreases high - low,
    {
        let mid: u64 = low + (high - low) / 2;
        assert(mid * mid <= 0x2_0000_0000_0000 * 0x2_0000_0000_0000) by (nonlinear_arith)
            requires
                0 <= mid <= 0x2_0000_0000_0000,
        ;
        if mid as u128 * mid as u128 <= n {
            low = mid;
        } else {
            high = mid;
        }
    }
    low
}

impl Scalar for Fixed {
    open spec fn ratio_of(num: u32, den: u32) -> Self {
        quotient(num * ONE, den as int)
    }

    open spec fn plus_of(a: Self, b: Self) -> Self {
        cut_off(a.raw + b.raw)
    }

    open spec fn minus_of(a: Self, b: Self) -> Self {
        cut_off(a.raw - b.raw)
    }

    open spec fn times_of(a: Self, b: Self) -> Self {
        quotient(a.raw * b.raw, ONE as int)
    }

    open spec fn over_of(a: Self, b: Self) -> Self {
        quotient(a.raw * ONE, b.raw as int)
    }

    open spec fn larger_of(a: Self, b: Self) -> Self {
        if a.raw < b.raw {
            b
        } else {
            a
        }
    }

    open spec fn less_of(a: Self, b: Self) -> bool {
        a.raw < b.raw
    }

    open spec fn at_most_of(a: Self, b: Self) -> bool {
        a.raw <= b.raw
    }

    open spec fn finite_of(a: Self) -> bool {
        i64::MIN < a.raw < i64::MAX
    }

    open spec fn cos_turn_of(num: u64, den: u64) -> Self {
        sine_of(4 * num + den, 4 * den)
    }

    open spec fn sin_turn_of(num: u64, den: u64) -> Self {
        sine_of(num as int, den as int)
    }

    open spec fn sqrt_of(a: Self) -> Self {
        if a.raw <= 0 {
            cut_off(0)
        } else {
            cut_off(root_of(a.raw * ONE))
        }
    }

    open spec fn negated_of(a: Self) -> Self {
        cut_off(-a.raw)
    }

    fn ratio(num: u32, den: u32) -> (r: Self) {
        let n: i128 = num as i128 * 0x10_0000;
        assert(n == num * ONE);
        divide(n, den as i128)
    }

    fn cos_turn(num: u64, den: u64) -> (r: Self) {
        sine(4 * (num as u128) + den as u128, 4 * (den as u128))
    }

    fn sin_turn(num: u64, den: u64) -> (r: Self) {
        sine(num as u128, den as u128)
    }

    fn sqrt(self) -> (r: Self) {
        if self.raw <= 0 {
            Fixed { raw: 0 }
        } else {
            assert(self.raw * ONE <= 0x7fff_ffff_ffff_ffff * 0x10_0000) by (nonlinear_arith)
                requires
                    0 <= self.raw <= 0x7fff_ffff_ffff_ffff,
                    ONE == 0x10_0000,
            ;
            assert(0 <= self.raw * ONE) by (nonlinear_arith)
                requires
                    0 <= self.raw,
                    ONE == 0x10_0000,
            ;
            let n: u128 = self.raw as u128 * ONE as u128;
            let r: u64 = root(n);
            proof {
                root_is_unique(n as int, r as int, root_of(n as int));
                assert(r < 0x8000_0000_0000_0000) by (nonlinear_arith)
                    requires
                        r * r <= 0x7fff_ffff_ffff_ffff * 0x10_0000,
                        r >= 0,
                ;
            }
            Fixed { raw: r as i64 }
        }
    }

    fn negated(self) -> (r: Self) {
        cut(-(self.raw as i128))
    }

    fn plus(self, other: Self) -> (r: Self) {
        cut(self.raw as i128 + other.raw as i128)
    }

    fn minus(self, other: Self) -> (r: Self) {
        cut(self.raw as i128 - other.raw as i128)
    }

    fn times(self, other: Self) -> (r: Self) {
        let a: i128 = self.raw as i128;
        let b: i128 = other.raw as i128;
        assert(-0x4000_0000_0000_0000_0000_0000_0000_0000 <= a * b <= 0x4000_0000_0000_0000_0000_0000_0000_0000)
            by (nonlinear_arith)
            requires
                -0x8000_0000_0000_0000 <= a <= 0x7fff_ffff_ffff_ffff,
                -0x8000_0000_0000_0000 <= b <= 0x7fff_ffff_ffff_ffff,
        ;
        divide(a * b, ONE as i128)
    }

    fn over(self, other: Self) -> (r: Self) {
        let n: i128 = self.raw as i128 * 0x10_0000;
        assert(n == self.raw * ONE);
        divide(n, other.raw as i128)
    }

    fn larger(self, other: Self) -> (r: Self) {
        if self.raw < other.raw {
            other
        } else {
            self
        }
    }

    fn less(self, other: Self) -> (r: bool) {
        self.raw < other.raw
    }

    fn at_most(self, other: Self) -> (r: bool) {
        self.raw <= other.raw
    }

    fn is_finite(self) -> (r: bool) {
        i64::MIN < self.raw && self.raw < i64::MAX
    }
}

/// The raw coefficients of a cubic that gives the arc cosine over the root of
/// `1 - x`, for `x` between nought and one.
pub const ARC_0: i64 = 1647029;

pub const ARC_1: i64 = -222418;

pub const ARC_2: i64 = 77868;

pub const ARC_3: i64 = -19639;

/// The raw value of half a turn.
pub const HALF_TURN: i64 = 3294199;

pub open spec fn fixed_of(raw: i64) -> Fixed {
    Fixed { raw }
}

/// The arc cosine of a number between nought and one.
pub open spec fn near_arc_of(x: Fixed) -> Fixed {
    let cubic = Fixed::plus_of(
        fixed_of(ARC_0),
        Fixed::times_of(
            x,
            Fixed::plus_of(
                fixed_of(ARC_1),
                Fixed::times_of(x, Fixed::plus_of(fixed_of(ARC_2), Fixed::times_of(x, fixed_of(ARC_3)))),
            ),
        ),
    );
    Fixed::times_of(cubic, Fixed::sqrt_of(Fixed::minus_of(fixed_of(ONE), x)))
}

fn near_arc(x: Fixed) -> (r: Fixed)
    ensures
        r == near_arc_of(x),
{
    let third: Fixed = Fixed { raw: ARC_2 }.plus(x.times(Fixed { raw: ARC_3 }));
    let second: Fixed = Fixed { raw: ARC_1 }.plus(x.times(third));
    let cubic: Fixed = Fixed { raw: ARC_0 }.plus(x.times(second));
    cubic.times(Fixed { raw: ONE }.minus(x).sqrt())
}

/// `10` to the power of `exponent`, but no further than the first power above
/// `ONE`.
pub open spec fn capped_power(exponent: nat) -> int
    decreases exponent,
{
    if exponent == 0 {
        1
    } else {
        let before = capped_power((exponent - 1) as nat);
        if before > ONE {
            before
        } else {
            10 * before
        }
    }
}

impl Metric for Fixed {
    open spec fn infinity_of() -> Self {
        fixed_of(i64::MAX)
    }

    open spec fn smaller_of(a: Self, b: Self) -> Self {
        if b.raw < a.raw {
            b
        } else {
            a
        }
    }

    open spec fn arc_cos_of(a: Self) -> Self {
        if a.raw < 0 {
            Fixed::minus_of(fixed_of(HALF_TURN), near_arc_of(Fixed::negated_of(a)))
        } else {
            near_arc_of(a)
        }
    }

    open spec fn order_of(a: Self) -> i64 {
        a.raw
    }

    open spec fn tiny_of(exponent: u32) -> Self {
        quotient(ONE as int, capped_power(exponent as nat))
    }

    fn infinity() -> (r: Self) {
        Fixed { raw: i64::MAX }
    }

    fn smaller(self, other: Self) -> (r: Self) {
        if other.raw < self.raw {
            other
        } else {
            self
        }
    }

    fn arc_cos(self) -> (r: Self) {
        if self.raw < 0 {
            Fixed { raw: HALF_TURN }.minus(near_arc(self.negated()))
        } else {
            near_arc(self)
        }
    }

    fn order(self) -> (r: i64) {
        self.raw
    }

    fn tiny(exponent: u32) -> (r: Self) {
        let mut power: i64 = 1;
        let mut k: u32 = 0;
        while k < exponent
            invariant
                k <= exponent,
                power == capped_power(k as nat),
                1 <= power <= 10 * ONE,
            decreases exponent - k,
        {
            if power <= ONE {
                power = 10 * power;
            }
            k += 1;
        }
        divide(ONE as i128, power as i128)
    }
}

/// The numbers are ordered.
pub proof fn fixed_numbers_are_ordered()
    ensures
        crate::closest_point::ordered::<Fixed>(),
{
}

} // verus!
