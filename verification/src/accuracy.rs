//! How close fixed numbers come to what they stand for.

use crate::fixed::{is_root, magnitude, root_is_unique, root_of, sine_of, truncated, Fixed, ONE};
use crate::scalar::Scalar;
use vstd::arithmetic::div_mod::{lemma_fundamental_div_mod, lemma_mod_bound};
use vstd::prelude::*;

verus! {

proof fn lemma_signs(q: int, d: int)
    ensures
        q * (-d) == -(q * d),
        (-q) * d == -(q * d),
        (-q) * (-d) == q * d,
{
    assert(q * (-d) == -(q * d)) by (nonlinear_arith);
    assert((-q) * d == -(q * d)) by (nonlinear_arith);
    assert((-q) * (-d) == q * d) by (nonlinear_arith);
}

/// A quotient times its divisor is the number that was divided, but for less than the
/// divisor, and is not further from nought.
proof fn lemma_truncated(n: int, d: int)
    requires
        d != 0,
    ensures
        magnitude(truncated(n, d) * d - n) < magnitude(d),
        magnitude(truncated(n, d) * d) <= magnitude(n),
{
    let (m, e) = (magnitude(n), magnitude(d));
    let q = m / e;
    lemma_fundamental_div_mod(m, e);
    lemma_mod_bound(m, e);
    assert(q * e <= m < q * e + e) by {
        assert(e * q == q * e) by (nonlinear_arith);
    }
    assert(q * e >= 0) by (nonlinear_arith)
        requires
            q == m / e,
            m >= 0,
            e > 0,
    ;
    lemma_signs(q, d);
    lemma_signs(q, e);
}

/// Sums and differences that fit are exact.
pub proof fn fixed_sums_are_exact(a: Fixed, b: Fixed)
    ensures
        Fixed::finite_of(Fixed::plus_of(a, b)) ==> Fixed::plus_of(a, b).raw == a.raw + b.raw,
        Fixed::finite_of(Fixed::minus_of(a, b)) ==> Fixed::minus_of(a, b).raw == a.raw - b.raw,
        Fixed::finite_of(Fixed::negated_of(a)) ==> Fixed::negated_of(a).raw == -a.raw,
{
}

/// A product that fits is off by less than one unit, and not further from nought than the
/// exact one.
pub proof fn fixed_products_are_close(a: Fixed, b: Fixed)
    ensures
        Fixed::finite_of(Fixed::times_of(a, b)) ==> ({
            let r = Fixed::times_of(a, b).raw;
            &&& magnitude(r * ONE - a.raw * b.raw) < ONE
            &&& magnitude(r * ONE) <= magnitude(a.raw * b.raw)
        }),
{
    lemma_truncated(a.raw * b.raw, ONE as int);
}

/// A quotient that fits, times what it was divided by, is off by less than that, and not
/// further from nought than what was divided.
pub proof fn fixed_quotients_are_close(a: Fixed, b: Fixed)
    requires
        b.raw != 0,
    ensures
        Fixed::finite_of(Fixed::over_of(a, b)) ==> ({
            let r = Fixed::over_of(a, b).raw;
            &&& magnitude(r * b.raw - a.raw * ONE) < magnitude(b.raw as int)
            &&& magnitude(r * b.raw) <= magnitude(a.raw * ONE)
        }),
{
    lemma_truncated(a.raw * ONE, b.raw as int);
}

/// A ratio times its divisor is off by less than the divisor.
pub proof fn fixed_ratios_are_close(num: u32, den: u32)
    requires
        den > 0,
    ensures
        ({
            let r = Fixed::ratio_of(num, den).raw;
            &&& r * den <= num * ONE
            &&& num * ONE < r * den + den
        }),
{
    let n = num * ONE;
    let q = n / (den as int);
    lemma_truncated(n, den as int);
    assert(0 <= q <= n) by (nonlinear_arith)
        requires
            q == n / (den as int),
            n >= 0,
            den > 0,
    ;
    assert(n <= 0xffff_ffff * 0x10_0000);
}

/// The square of a root that fits is at most what the root was taken of, and the square of
/// the next number is more.
pub proof fn fixed_roots_are_close(a: Fixed)
    requires
        a.raw >= 0,
    ensures
        ({
            let r = Fixed::sqrt_of(a).raw;
            &&& r >= 0
            &&& r * r <= a.raw * ONE < (r + 1) * (r + 1)
        }),
{
    let n = a.raw * ONE;
    lemma_root(n);
    let r = root_of(n);
    assert(is_root(n, r));
    assert(r < 0x400_0000_0000) by (nonlinear_arith)
        requires
            0 <= r,
            r * r <= n,
            n < 0x400_0000_0000 * 0x400_0000_0000,
    ;
    if a.raw == 0 {
        assert(is_root(0, 0));
        root_is_unique(0, 0, r);
    }
}

/// Every number has a root.
proof fn lemma_root(n: int)
    requires
        0 <= n,
    ensures
        exists|r: int| is_root(n, r),
    decreases n,
{
    if n == 0 {
        assert(is_root(0, 0));
    } else {
        lemma_root(n - 1);
        let m = n - 1;
        let r = choose|r: int| is_root(m, r);
        if (r + 1) * (r + 1) <= n {
            let t = r + 1;
            assert(n < (t + 1) * (t + 1)) by (nonlinear_arith)
                requires
                    n - 1 < t * t,
                    t >= 1,
            ;
            assert(is_root(n, t));
        } else {
            assert(is_root(n, r));
        }
    }
}

proof fn lemma_half_sine(half: int, den: int) -> (s: int)
    requires
        0 <= half <= den,
        0 < den,
    ensures
        ({
            let u = half * ONE / den;
            let x = u * (ONE - u) / ONE as int;
            s == 16 * x * ONE / (5 * ONE - 4 * x)
        }),
        0 <= s <= ONE,
        half == 0 || half == den ==> s == 0,
        2 * half == den ==> s == ONE,
{
    let u = half * ONE / den;
    assert(0 <= u <= ONE) by (nonlinear_arith)
        requires
            0 <= half <= den,
            0 < den,
            u == (half * ONE) / den,
    ;
    let w = u * (ONE - u);
    assert(0 <= w && 4 * w <= ONE * ONE) by (nonlinear_arith)
        requires
            0 <= u <= ONE,
            w == u * (ONE - u),
    ;
    let x = w / ONE as int;
    assert(0 <= x && 4 * x <= ONE);
    let top = 16 * x * ONE;
    let d = 5 * ONE - 4 * x;
    let s = top / d;
    assert(0 <= top <= d * ONE);
    assert(0 <= s <= ONE) by (nonlinear_arith)
        requires
            0 <= top <= d * ONE,
            d > 0,
            s == top / d,
    ;
    if half == 0 {
        assert(u == 0) by (nonlinear_arith)
            requires
                half == 0,
                den > 0,
                u == (half * ONE) / den,
        ;
        assert(w == 0) by (nonlinear_arith)
            requires
                u == 0,
                w == u * (ONE - u),
        ;
    }
    if half == den {
        assert(u == ONE) by (nonlinear_arith)
            requires
                half == den,
                den > 0,
                u == (half * ONE) / den,
        ;
        assert(w == 0) by (nonlinear_arith)
            requires
                ONE - u == 0,
                w == u * (ONE - u),
        ;
    }
    if 2 * half == den {
        assert(u == 0x8_0000) by (nonlinear_arith)
            requires
                2 * half == den,
                den > 0,
                u == (half * ONE) / den,
        ;
        assert(w == 0x8_0000 * 0x8_0000);
        assert(x == 0x4_0000);
        assert(top == d * ONE);
        assert(s == ONE) by (nonlinear_arith)
            requires
                top == d * ONE,
                d > 0,
                s == top / d,
        ;
    }
    s
}

/// Sines are between minus one and one. That of no turn and that of half a turn is nought,
/// that of a quarter turn is one, and half a turn further it is the opposite.
pub proof fn sines_turn_round(num: int, den: int)
    requires
        0 <= num < den,
    ensures
        -ONE <= sine_of(num, den).raw <= ONE,
        num == 0 || 2 * num == den ==> sine_of(num, den).raw == 0,
        4 * num == den ==> sine_of(num, den).raw == ONE,
        4 * num == 3 * den ==> sine_of(num, den).raw == -ONE,
        0 < 2 * num < den ==> sine_of(num, den).raw >= 0,
        den < 2 * num ==> sine_of(num, den).raw <= 0,
        forall|m: int| 0 < 2 * m < den && 2 * num == 2 * m + den ==> sine_of(num, den).raw == -(#[trigger] sine_of(m, den).raw),
{
    lemma_sine(num, den);
    assert forall|m: int| 0 < 2 * m < den && 2 * num == 2 * m + den implies sine_of(num, den).raw == -(#[trigger] sine_of(
        m,
        den,
    ).raw) by {
        lemma_sine(m, den);
    }
}

proof fn lemma_sine(num: int, den: int) -> (s: int)
    requires
        0 <= num < den,
    ensures
        ({
            let p = 2 * num;
            let half = if p <= den {
                p
            } else {
                p - den
            };
            let u = half * ONE / den;
            let x = u * (ONE - u) / ONE as int;
            s == 16 * x * ONE / (5 * ONE - 4 * x)
        }),
        0 <= s <= ONE,
        sine_of(num, den).raw == (if 2 * num <= den {
            s
        } else {
            -s
        }),
        num == 0 || 2 * num == den ==> s == 0,
        4 * num == den || 4 * num == 3 * den ==> s == ONE,
{
    vstd::arithmetic::div_mod::lemma_small_mod((2 * num) as nat, (2 * den) as nat);
    let p = 2 * num;
    let half = if p <= den {
        p
    } else {
        p - den
    };
    lemma_half_sine(half, den)
}

/// Cosines are between minus one and one. That of no turn is one, that of a quarter turn
/// nought and that of half a turn minus one.
pub proof fn cosines_turn_round(num: u64, den: u64)
    requires
        0 < den,
        4 * num < 3 * den,
    ensures
        -ONE <= Fixed::cos_turn_of(num, den).raw <= ONE,
        num == 0 ==> Fixed::cos_turn_of(num, den).raw == ONE,
        4 * num == den ==> Fixed::cos_turn_of(num, den).raw == 0,
        2 * num == den ==> Fixed::cos_turn_of(num, den).raw == -ONE,
{
    lemma_sine(4 * num + den, 4 * den as int);
}

} // verus!
