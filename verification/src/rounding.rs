//! What holds of rounding to 53 significant bits: how far a rounded number is
//! from the exact one, and that rounding keeps the order of numbers.

use crate::binary64::{
    nearest_even, product, rounded, settle, Dyadic, MANTISSA_END, MANTISSA_MIN,
};
use vstd::arithmetic::div_mod::{
    lemma_div_denominator, lemma_div_is_ordered, lemma_div_multiples_vanish,
    lemma_fundamental_div_mod, lemma_mod_division_less_than_divisor,
};
use vstd::arithmetic::power2::{
    lemma2_to64, lemma_pow2_adds, lemma_pow2_pos, lemma_pow2_strictly_increases,
    lemma_pow2_unfold, pow2,
};
use vstd::prelude::*;

verus! {

/// A quotient that is at most a whole number is not rounded beyond it.
pub proof fn lemma_nearest_even_at_most(num: nat, den: nat, bound: nat)
    requires
        den > 0,
        num <= bound * den,
    ensures
        nearest_even(num, den) <= bound,
{
    let q = num as int / den as int;
    let r = num as int % den as int;
    lemma_fundamental_div_mod(num as int, den as int);
    lemma_mod_division_less_than_divisor(num as int, den as int);
    assert(q <= bound && (q == bound ==> r == 0)) by (nonlinear_arith)
        requires
            num == den * q + r,
            0 <= r < den,
            num <= bound * den,
    ;
}

/// A quotient of at least two to the 52 is rounded to no less.
proof fn lemma_nearest_even_at_least(num: nat, den: nat)
    requires
        den > 0,
        num >= den * MANTISSA_MIN,
    ensures
        nearest_even(num, den) >= MANTISSA_MIN,
{
    let q = num as int / den as int;
    let r = num as int % den as int;
    lemma_fundamental_div_mod(num as int, den as int);
    lemma_mod_division_less_than_divisor(num as int, den as int);
    assert(q >= MANTISSA_MIN) by (nonlinear_arith)
        requires
            num == den * q + r,
            0 <= r < den,
            num >= den * MANTISSA_MIN,
    ;
}

/// Doubling towards a quotient of at most one ends in a number of at most one.
proof fn lemma_settle_at_most_one(num: nat, den: nat, exp: int)
    requires
        0 < num,
        0 < den,
        exp <= 0,
        num <= den * pow2((-exp) as nat),
        num < den * MANTISSA_END,
    ensures
        settle(num, den, exp).mantissa >= MANTISSA_MIN,
        settle(num, den, exp).exponent <= 0,
        settle(num, den, exp).mantissa <= pow2((-settle(num, den, exp).exponent) as nat),
    decreases
            (if num < den * MANTISSA_MIN {
                den * MANTISSA_MIN - num
            } else {
                0
            }),
{
    let scale = pow2((-exp) as nat);
    if num < den * MANTISSA_MIN {
        lemma_pow2_unfold((1 - exp) as nat);
        assert(2 * num <= den * (2 * scale)) by (nonlinear_arith)
            requires
                num <= den * scale,
        ;
        assert(2 * num < den * MANTISSA_END) by (nonlinear_arith)
            requires
                num < den * MANTISSA_MIN,
        ;
        lemma_settle_at_most_one(2 * num, den, exp - 1);
    } else {
        let m = nearest_even(num, den);
        assert(scale * den == den * scale) by (nonlinear_arith);
        lemma_nearest_even_at_most(num, den, scale);
        lemma_nearest_even_at_least(num, den);
        if m == MANTISSA_END {
            lemma2_to64();
            if exp == 0 {
                assert(false);
            }
            lemma_pow2_unfold((-exp) as nat);
        }
    }
}

/// The number nearest to a quotient of at most one is at most one.
pub proof fn lemma_ratio_at_most_one(num: nat, den: nat)
    requires
        0 < num <= den,
    ensures
        rounded(num, den).mantissa >= MANTISSA_MIN,
        rounded(num, den).exponent <= 0,
        rounded(num, den).mantissa <= pow2((-rounded(num, den).exponent) as nat),
{
    lemma2_to64();
    assert(num < den * MANTISSA_END) by (nonlinear_arith)
        requires
            0 < num <= den,
    ;
    assert(den * pow2(0) == den) by (nonlinear_arith)
        requires
            pow2(0) == 1,
    ;
    lemma_settle_at_most_one(num, den, 0);
}

/// A whole number below two to the 53 is kept as it is: doubling it changes
/// the exponent, not the value.
proof fn lemma_settle_small(num: nat, exp: int, whole: nat)
    requires
        0 < num < MANTISSA_END,
        exp <= 0,
        num == whole * pow2((-exp) as nat),
    ensures
        settle(num, 1, exp).exponent <= exp,
        settle(num, 1, exp).mantissa == whole * pow2((-settle(num, 1, exp).exponent) as nat),
    decreases
            (if num < MANTISSA_MIN {
                MANTISSA_MIN - num
            } else {
                0
            }),
{
    if num < 1 * MANTISSA_MIN {
        lemma_pow2_unfold((1 - exp) as nat);
        assert(2 * num == whole * (2 * pow2((-exp) as nat))) by (nonlinear_arith)
            requires
                num == whole * pow2((-exp) as nat),
        ;
        lemma_settle_small(2 * num, exp - 1, whole);
    } else {
        assert(num as int / 1 == num && num as int % 1 == 0);
        assert(nearest_even(num, 1) == num);
    }
}

/// A whole number of at least two to the 52 that is at most `factor` times
/// two to the `k` is rounded to no more than that.
proof fn lemma_settle_large(whole: nat, den: nat, exp: int, factor: nat, k: nat)
    requires
        0 <= exp,
        den == pow2(exp as nat),
        whole >= den * MANTISSA_MIN,
        whole <= factor * pow2(k),
        factor < 0x1_0000_0000,
    ensures
        exp <= settle(whole, den, exp).exponent <= k,
        settle(whole, den, exp).mantissa <= factor * pow2(
            (k - settle(whole, den, exp).exponent) as nat,
        ),
    decreases
            (if whole >= den * MANTISSA_END {
                whole - den * MANTISSA_END + 1
            } else {
                0
            }),
{
    lemma_pow2_pos(exp as nat);
    lemma_pow2_pos(k);
    // The bound leaves room for fewer than 32 bits above two to the `k`, the
    // number has at least 52 above two to the `exp`.
    if exp >= k {
        if exp > k {
            lemma_pow2_strictly_increases(k, exp as nat);
        }
        assert(false) by (nonlinear_arith)
            requires
                whole >= den * 0x10_0000_0000_0000,
                whole <= factor * pow2(k),
                factor < 0x1_0000_0000,
                den >= pow2(k),
                pow2(k) > 0,
        ;
    }
    let gap = (k - exp) as nat;
    lemma_pow2_adds(gap, exp as nat);
    if whole >= den * MANTISSA_END {
        lemma_pow2_unfold((exp + 1) as nat);
        assert(whole >= (2 * den) * MANTISSA_MIN) by (nonlinear_arith)
            requires
                whole >= den * 0x20_0000_0000_0000,
                MANTISSA_MIN == 0x10_0000_0000_0000,
        ;
        lemma_settle_large(whole, 2 * den, exp + 1, factor, k);
    } else {
        let m = nearest_even(whole, den);
        assert(whole <= (factor * pow2(gap)) * den) by (nonlinear_arith)
            requires
                whole <= factor * pow2(k),
                pow2(k) == pow2(gap) * den,
        ;
        lemma_nearest_even_at_most(whole, den, factor * pow2(gap));
        if m == MANTISSA_END {
            lemma_pow2_unfold(gap);
            if gap == 1 {
                lemma2_to64();
            } else {
                lemma_pow2_pos((gap - 1) as nat);
            }
            assert(MANTISSA_MIN <= factor * pow2((gap - 1) as nat)) by (nonlinear_arith)
                requires
                    0x20_0000_0000_0000 <= factor * pow2(gap),
                    pow2(gap) == 2 * pow2((gap - 1) as nat),
                    MANTISSA_MIN == 0x10_0000_0000_0000,
            ;
            if gap == 1 {
                assert(false);
            }
        }
    }
}

/// The whole part of `factor` times a number of at most one is at most
/// `factor`.
pub proof fn lemma_product_at_most_factor(factor: nat, d: Dyadic)
    requires
        factor < 0x1_0000_0000,
        d.mantissa > 0,
        d.exponent <= 0,
        d.mantissa <= pow2((-d.exponent) as nat),
    ensures
        product(factor, d).to_u32() <= factor,
{
    let k = (-d.exponent) as nat;
    let whole = factor * d.mantissa;
    let r = rounded(whole, 1);
    let p = product(factor, d);
    lemma2_to64();
    lemma_pow2_pos(k);
    assert(whole <= factor * pow2(k)) by (nonlinear_arith)
        requires
            whole == factor * d.mantissa,
            d.mantissa <= pow2(k),
    ;
    if whole == 0 {
        assert(p.floor() == 0);
    } else if whole < MANTISSA_END {
        assert(whole == whole * pow2(0)) by (nonlinear_arith)
            requires
                pow2(0) == 1,
        ;
        lemma_settle_small(whole, 0, whole);
        let up = (-r.exponent) as nat;
        lemma_pow2_pos(up);
        assert(r.mantissa > 0) by (nonlinear_arith)
            requires
                r.mantissa == whole * pow2(up),
                whole > 0,
                pow2(up) > 0,
        ;
        // The whole part is that of `whole` divided by two to the `k`.
        lemma_pow2_adds(up, k);
        assert(p.exponent == -((up + k) as int));
        assert(p.floor() == (whole * pow2(up)) as int / (pow2(up) * pow2(k)) as int);
        assert(pow2(up) * whole == whole * pow2(up)) by (nonlinear_arith);
        lemma_div_denominator((pow2(up) * whole) as int, pow2(up) as int, pow2(k) as int);
        lemma_div_multiples_vanish(whole as int, pow2(up) as int);
        assert(p.floor() == whole as int / pow2(k) as int);
        assert(factor * pow2(k) == pow2(k) * factor) by (nonlinear_arith);
        lemma_div_is_ordered(whole as int, (pow2(k) * factor) as int, pow2(k) as int);
        lemma_div_multiples_vanish(factor as int, pow2(k) as int);
    } else {
        assert(whole >= 1 * MANTISSA_MIN);
        lemma_settle_large(whole, 1, 0, factor, k);
        lemma_nearest_even_at_least(whole, 1);
        let down = (k - r.exponent) as nat;
        lemma_pow2_pos(down);
        if r.exponent == k {
            assert(r.mantissa <= factor) by (nonlinear_arith)
                requires
                    r.mantissa <= factor * pow2(0),
                    pow2(0) == 1,
            ;
            assert(p.floor() == r.mantissa * pow2(0));
            assert(p.floor() == r.mantissa) by (nonlinear_arith)
                requires
                    p.floor() == r.mantissa * pow2(0),
                    pow2(0) == 1,
            ;
        } else {
            assert(p.floor() == r.mantissa as int / pow2(down) as int);
            assert(factor * pow2(down) == pow2(down) * factor) by (nonlinear_arith);
            lemma_div_is_ordered(r.mantissa as int, (pow2(down) * factor) as int, pow2(down) as int);
            lemma_div_multiples_vanish(factor as int, pow2(down) as int);
        }
    }
}

/// A rounded quotient is off by at most a half.
pub proof fn lemma_nearest_even_error(num: nat, den: nat)
    requires
        den > 0,
    ensures
        2 * nearest_even(num, den) * den <= 2 * num + den,
        2 * num <= 2 * nearest_even(num, den) * den + den,
{
    let q = num as int / den as int;
    let r = num as int % den as int;
    lemma_fundamental_div_mod(num as int, den as int);
    lemma_mod_division_less_than_divisor(num as int, den as int);
    let m = nearest_even(num, den) as int;
    assert(2 * m * den <= 2 * num + den && 2 * num <= 2 * m * den + den) by (nonlinear_arith)
        requires
            num == den * q + r,
            0 <= r < den,
            (m == q + 1 && 2 * r >= den) || (m == q && 2 * r <= den),
    ;
}

/// Doubling towards a quotient below two to the 52 ends in a number that is
/// off by at most half a unit of its last place.
proof fn lemma_settle_error(n: nat, den: nat, exp: int, num: nat)
    requires
        0 < n,
        0 < den,
        exp <= 0,
        n == num * pow2((-exp) as nat),
        n < den * MANTISSA_END,
        exp < 0 || n < den * MANTISSA_MIN,
    ensures
        ({
            let r = settle(n, den, exp);
            let unit = pow2((-r.exponent) as nat);
            &&& r.exponent <= 0
            &&& MANTISSA_MIN <= r.mantissa < MANTISSA_END
            &&& 2 * r.mantissa * den <= 2 * num * unit + den
            &&& 2 * num * unit <= 2 * r.mantissa * den + den
        }),
    decreases
            (if n < den * MANTISSA_MIN {
                den * MANTISSA_MIN - n
            } else {
                0
            }),
{
    let scale = pow2((-exp) as nat);
    if n < den * MANTISSA_MIN {
        lemma_pow2_unfold((1 - exp) as nat);
        assert(2 * n == num * (2 * scale)) by (nonlinear_arith)
            requires
                n == num * scale,
        ;
        assert(2 * n < den * MANTISSA_END) by (nonlinear_arith)
            requires
                n < den * MANTISSA_MIN,
        ;
        lemma_settle_error(2 * n, den, exp - 1, num);
    } else {
        let m = nearest_even(n, den);
        lemma_nearest_even_error(n, den);
        lemma_nearest_even_at_least(n, den);
        assert(n <= MANTISSA_END * den) by (nonlinear_arith)
            requires
                n < den * MANTISSA_END,
        ;
        lemma_nearest_even_at_most(n, den, MANTISSA_END as nat);
        if m == MANTISSA_END {
            lemma_pow2_unfold((-exp) as nat);
            let half = pow2((-exp - 1) as nat);
            assert(2 * MANTISSA_MIN * den <= 2 * num * half + den && 2 * num * half <= 2
                * MANTISSA_MIN * den + den) by (nonlinear_arith)
                requires
                    2 * m * den <= 2 * n + den,
                    2 * n <= 2 * m * den + den,
                    m == 0x20_0000_0000_0000,
                    MANTISSA_MIN == 0x10_0000_0000_0000,
                    n == num * scale,
                    scale == 2 * half,
            ;
        } else {
            assert(2 * m * den <= 2 * num * scale + den && 2 * num * scale <= 2 * m * den + den)
                by (nonlinear_arith)
                requires
                    2 * m * den <= 2 * n + den,
                    2 * n <= 2 * m * den + den,
                    n == num * scale,
            ;
        }
    }
}

/// The number nearest to a quotient below two to the 52 is off by at most
/// half a unit of its last place.
pub proof fn lemma_ratio_error(num: nat, den: nat)
    requires
        0 < num,
        0 < den,
        num < den * MANTISSA_MIN,
    ensures
        ({
            let r = rounded(num, den);
            let unit = pow2((-r.exponent) as nat);
            &&& r.exponent <= 0
            &&& MANTISSA_MIN <= r.mantissa < MANTISSA_END
            &&& 2 * r.mantissa * den <= 2 * num * unit + den
            &&& 2 * num * unit <= 2 * r.mantissa * den + den
        }),
{
    lemma2_to64();
    assert(num == num * pow2(0)) by (nonlinear_arith)
        requires
            pow2(0) == 1,
    ;
    assert(num < den * MANTISSA_END) by (nonlinear_arith)
        requires
            num < den * MANTISSA_MIN,
            MANTISSA_MIN == 0x10_0000_0000_0000,
            MANTISSA_END == 0x20_0000_0000_0000,
    ;
    lemma_settle_error(num, den, 0, num);
}

/// A whole number of at least two to the 52 is rounded to a whole number
/// that is off by at most one part in two to the 53.
proof fn lemma_settle_large_error(whole: nat, den: nat, exp: int)
    requires
        0 <= exp,
        den == pow2(exp as nat),
        whole >= den * MANTISSA_MIN,
    ensures
        ({
            let r = settle(whole, den, exp);
            let value = r.mantissa * pow2(r.exponent as nat);
            &&& exp <= r.exponent
            &&& MANTISSA_MIN <= r.mantissa < MANTISSA_END
            &&& value * 0x20_0000_0000_0000 <= whole * 0x20_0000_0000_0001
            &&& whole * 0x1f_ffff_ffff_ffff <= value * 0x20_0000_0000_0000
        }),
    decreases
            (if whole >= den * MANTISSA_END {
                whole - den * MANTISSA_END + 1
            } else {
                0
            }),
{
    lemma_pow2_pos(exp as nat);
    if whole >= den * MANTISSA_END {
        lemma_pow2_unfold((exp + 1) as nat);
        assert(whole >= (2 * den) * MANTISSA_MIN) by (nonlinear_arith)
            requires
                whole >= den * 0x20_0000_0000_0000,
                MANTISSA_MIN == 0x10_0000_0000_0000,
        ;
        lemma_settle_large_error(whole, 2 * den, exp + 1);
    } else {
        let m = nearest_even(whole, den);
        lemma_nearest_even_error(whole, den);
        lemma_nearest_even_at_least(whole, den);
        assert(whole <= MANTISSA_END * den) by (nonlinear_arith)
            requires
                whole < den * MANTISSA_END,
        ;
        lemma_nearest_even_at_most(whole, den, MANTISSA_END as nat);
        let r = settle(whole, den, exp);
        let value = r.mantissa * pow2(r.exponent as nat);
        if m == MANTISSA_END {
            lemma_pow2_unfold((exp + 1) as nat);
            assert(value == m * den) by (nonlinear_arith)
                requires
                    value == 0x10_0000_0000_0000 * (2 * den),
                    m == 0x20_0000_0000_0000,
            ;
        }
        assert(value == m * den);
        assert(value * 0x20_0000_0000_0000 <= whole * 0x20_0000_0000_0001 && whole
            * 0x1f_ffff_ffff_ffff <= value * 0x20_0000_0000_0000) by (nonlinear_arith)
            requires
                value == m * den,
                2 * m * den <= 2 * whole + den,
                2 * whole <= 2 * m * den + den,
                whole >= den * 0x10_0000_0000_0000,
                den > 0,
        ;
    }
}

/// The whole part of `factor` times a number of at most one, as the whole
/// part of a whole number divided by a power of two: the number returned is
/// the exact product of `factor` and the mantissa, off by at most one part in
/// two to the 53.
pub proof fn lemma_product_value(factor: nat, d: Dyadic) -> (value: nat)
    requires
        0 < factor < 0x1_0000_0000,
        MANTISSA_MIN <= d.mantissa < MANTISSA_END,
        d.exponent <= 0,
        d.mantissa <= pow2((-d.exponent) as nat),
    ensures
        product(factor, d).floor() == value / pow2((-d.exponent) as nat),
        value * 0x20_0000_0000_0000 <= (factor * d.mantissa) * 0x20_0000_0000_0001,
        (factor * d.mantissa) * 0x1f_ffff_ffff_ffff <= value * 0x20_0000_0000_0000,
{
    let k = (-d.exponent) as nat;
    let whole = factor * d.mantissa;
    let r = rounded(whole, 1);
    let p = product(factor, d);
    lemma2_to64();
    lemma_pow2_pos(k);
    assert(0 < whole <= factor * pow2(k)) by (nonlinear_arith)
        requires
            whole == factor * d.mantissa,
            d.mantissa <= pow2(k),
            d.mantissa > 0,
            factor > 0,
    ;
    if whole < MANTISSA_END {
        assert(whole == whole * pow2(0)) by (nonlinear_arith)
            requires
                pow2(0) == 1,
        ;
        lemma_settle_small(whole, 0, whole);
        let up = (-r.exponent) as nat;
        lemma_pow2_pos(up);
        assert(r.mantissa > 0) by (nonlinear_arith)
            requires
                r.mantissa == whole * pow2(up),
                whole > 0,
                pow2(up) > 0,
        ;
        lemma_pow2_adds(up, k);
        assert(p.exponent == -((up + k) as int));
        assert(p.floor() == (whole * pow2(up)) as int / (pow2(up) * pow2(k)) as int);
        assert(pow2(up) * whole == whole * pow2(up)) by (nonlinear_arith);
        lemma_div_denominator((pow2(up) * whole) as int, pow2(up) as int, pow2(k) as int);
        lemma_div_multiples_vanish(whole as int, pow2(up) as int);
        assert(p.floor() == whole as int / pow2(k) as int);
        whole
    } else {
        assert(whole >= 1 * MANTISSA_MIN);
        lemma_settle_large(whole, 1, 0, factor, k);
        lemma_settle_large_error(whole, 1, 0);
        let e = r.exponent as nat;
        let down = (k - e) as nat;
        let value = r.mantissa * pow2(e);
        lemma_pow2_pos(down);
        lemma_pow2_pos(e);
        lemma_pow2_adds(e, down);
        if down == 0 {
            assert(p.floor() == r.mantissa * pow2(0));
            assert(p.floor() == r.mantissa) by (nonlinear_arith)
                requires
                    p.floor() == r.mantissa * pow2(0),
                    pow2(0) == 1,
            ;
            assert(pow2(k) * r.mantissa == value) by (nonlinear_arith)
                requires
                    value == r.mantissa * pow2(e),
                    e == k,
            ;
            lemma_div_multiples_vanish(r.mantissa as int, pow2(k) as int);
        } else {
            assert(p.floor() == r.mantissa as int / pow2(down) as int);
            assert(pow2(e) * r.mantissa == value) by (nonlinear_arith)
                requires
                    value == r.mantissa * pow2(e),
            ;
            lemma_div_denominator(value as int, pow2(e) as int, pow2(down) as int);
            lemma_div_multiples_vanish(r.mantissa as int, pow2(e) as int);
        }
        value
    }
}

/// The whole part of `factor` times the number nearest to `num / den`, where
/// `num` is at most `den`, differs by at most one from the whole part of
/// `factor * num / den`, and is at most `factor`.
pub proof fn lemma_scaled_whole_part(factor: nat, num: nat, den: nat)
    requires
        0 < factor < 0x1_0000_0000,
        0 < num <= den < 0x1_0000_0000,
    ensures
        product(factor, rounded(num, den)).to_u32() <= factor,
        product(factor, rounded(num, den)).to_u32() <= (factor * num) / den + 1,
        (factor * num) / den <= product(factor, rounded(num, den)).to_u32() + 1,
{
    let s = rounded(num, den);
    lemma_ratio_at_most_one(num, den);
    assert(num < den * MANTISSA_MIN) by (nonlinear_arith)
        requires
            0 < num <= den,
            MANTISSA_MIN == 0x10_0000_0000_0000,
    ;
    lemma_ratio_error(num, den);
    lemma_product_at_most_factor(factor, s);
    let value = lemma_product_value(factor, s) as int;
    let unit = pow2((-s.exponent) as nat) as int;
    let mantissa = s.mantissa as int;
    let whole = factor as int * mantissa;
    let exact = (factor * num) as int / den as int;
    let rest = (factor * num) as int % den as int;
    lemma_fundamental_div_mod((factor * num) as int, den as int);
    lemma_mod_division_less_than_divisor((factor * num) as int, den as int);
    let f = factor as int;
    let n = num as int;
    let d = den as int;
    // The exact product of the factor and the mantissa is within two to the
    // 31 of the exact scaled size times the unit.
    assert(2 * whole * d <= 2 * (f * n) * unit + f * d && 2 * (f * n) * unit <= 2 * whole * d + f
        * d) by (nonlinear_arith)
        requires
            whole == f * mantissa,
            2 * mantissa * d <= 2 * n * unit + d,
            2 * n * unit <= 2 * mantissa * d + d,
            f > 0,
    ;
    assert(2 * whole < 2 * (exact + 1) * unit + f && 2 * exact * unit <= 2 * whole + f)
        by (nonlinear_arith)
        requires
            2 * whole * d <= 2 * (f * n) * unit + f * d,
            2 * (f * n) * unit <= 2 * whole * d + f * d,
            f * n == d * exact + rest,
            0 <= rest < d,
            unit > 0,
            d > 0,
    ;
    assert(whole <= f * unit) by (nonlinear_arith)
        requires
            whole == f * mantissa,
            mantissa <= unit,
            f > 0,
    ;
    assert(value * 0x20_0000_0000_0000 < (exact + 2) * unit * 0x20_0000_0000_0000 && (exact - 1)
        * unit * 0x20_0000_0000_0000 <= value * 0x20_0000_0000_0000) by (nonlinear_arith)
        requires
            value * 0x20_0000_0000_0000 <= whole * 0x20_0000_0000_0001,
            whole * 0x1f_ffff_ffff_ffff <= value * 0x20_0000_0000_0000,
            2 * whole < 2 * (exact + 1) * unit + f,
            2 * exact * unit <= 2 * whole + f,
            0 <= whole <= f * unit,
            0 < f < 0x1_0000_0000,
            unit >= 0x10_0000_0000_0000,
            exact >= 0,
    ;
    let whole_part = value / unit;
    let left = value % unit;
    lemma_fundamental_div_mod(value, unit);
    lemma_mod_division_less_than_divisor(value, unit);
    assert(exact - 1 <= whole_part <= exact + 1) by (nonlinear_arith)
        requires
            value == unit * whole_part + left,
            0 <= left < unit,
            value * 0x20_0000_0000_0000 < (exact + 2) * unit * 0x20_0000_0000_0000,
            (exact - 1) * unit * 0x20_0000_0000_0000 <= value * 0x20_0000_0000_0000,
    ;
    assert(exact <= f) by (nonlinear_arith)
        requires
            f * n == d * exact + rest,
            0 <= rest,
            0 < n <= d,
            0 <= f,
    ;
    let p = product(factor, s);
    assert(p.floor() == whole_part);
    assert(exact == (factor * num) / den);
}

/// Of two quotients, the greater is rounded to no less.
pub proof fn lemma_nearest_even_monotone(num1: nat, den1: nat, num2: nat, den2: nat)
    requires
        den1 > 0,
        den2 > 0,
        num1 * den2 >= num2 * den1,
    ensures
        nearest_even(num1, den1) >= nearest_even(num2, den2),
{
    let q1 = num1 as int / den1 as int;
    let r1 = num1 as int % den1 as int;
    let q2 = num2 as int / den2 as int;
    let r2 = num2 as int % den2 as int;
    lemma_fundamental_div_mod(num1 as int, den1 as int);
    lemma_mod_division_less_than_divisor(num1 as int, den1 as int);
    lemma_fundamental_div_mod(num2 as int, den2 as int);
    lemma_mod_division_less_than_divisor(num2 as int, den2 as int);
    assert(q1 >= q2 && (q1 == q2 ==> r1 * den2 >= r2 * den1)) by (nonlinear_arith)
        requires
            num1 == den1 * q1 + r1,
            num2 == den2 * q2 + r2,
            0 <= r1 < den1,
            0 <= r2 < den2,
            num1 * den2 >= num2 * den1,
    ;
    if q1 == q2 {
        assert((2 * r2 > den2 ==> 2 * r1 > den1) && (2 * r2 == den2 ==> 2 * r1 >= den1))
            by (nonlinear_arith)
            requires
                r1 * den2 >= r2 * den1,
                0 <= r1 < den1,
                0 <= r2 < den2,
        ;
    }
}

/// The number that a quotient between two to the 52 and two to the 53, times
/// two to the `exp`, is rounded to.
pub open spec fn closed(num: nat, den: nat, exp: int) -> Dyadic {
    let m = nearest_even(num, den);
    if m == MANTISSA_END {
        Dyadic { mantissa: MANTISSA_MIN as nat, exponent: exp + 1 }
    } else {
        Dyadic { mantissa: m, exponent: exp }
    }
}

/// Doubling towards a quotient below two to the 52 ends after the least
/// number of doublings that bring it to two to the 52; that number is
/// returned.
proof fn lemma_settle_shape(n: nat, den: nat, exp: int, num: nat) -> (k: nat)
    requires
        0 < n,
        0 < den,
        exp <= 0,
        n == num * pow2((-exp) as nat),
        n < den * MANTISSA_END,
        exp < 0 ==> num * pow2((-exp - 1) as nat) < den * MANTISSA_MIN,
        exp == 0 ==> n < den * MANTISSA_MIN,
    ensures
        k >= 1,
        den * MANTISSA_MIN <= num * pow2(k) < den * MANTISSA_END,
        num * pow2((k - 1) as nat) < den * MANTISSA_MIN,
        settle(n, den, exp) == closed(num * pow2(k), den, -(k as int)),
    decreases
            (if n < den * MANTISSA_MIN {
                den * MANTISSA_MIN - n
            } else {
                0
            }),
{
    let scale = pow2((-exp) as nat);
    if n < den * MANTISSA_MIN {
        lemma_pow2_unfold((1 - exp) as nat);
        assert(2 * n == num * (2 * scale)) by (nonlinear_arith)
            requires
                n == num * scale,
        ;
        assert(2 * n < den * MANTISSA_END) by (nonlinear_arith)
            requires
                n < den * MANTISSA_MIN,
        ;
        lemma_settle_shape(2 * n, den, exp - 1, num)
    } else {
        (-exp) as nat
    }
}

/// A number with the greater exponent, or with the same exponent and no less
/// a mantissa, is not below the other.
proof fn lemma_not_below(x: Dyadic, y: Dyadic)
    requires
        MANTISSA_MIN <= x.mantissa < MANTISSA_END,
        MANTISSA_MIN <= y.mantissa < MANTISSA_END,
        x.exponent > y.exponent || (x.exponent == y.exponent && x.mantissa >= y.mantissa),
    ensures
        !x.below(y),
{
    lemma2_to64();
    let lo = y.exponent;
    if x.exponent > y.exponent {
        lemma_pow2_strictly_increases(0, (x.exponent - lo) as nat);
    }
    assert(x.scaled_to(lo) >= y.scaled_to(lo)) by (nonlinear_arith)
        requires
            x.scaled_to(lo) == x.mantissa * pow2((x.exponent - lo) as nat),
            y.scaled_to(lo) == y.mantissa * pow2(0),
            pow2(0) == 1,
            pow2((x.exponent - lo) as nat) >= 2 && x.mantissa >= 0x10_0000_0000_0000 && y.mantissa
                < 0x20_0000_0000_0000 || pow2((x.exponent - lo) as nat) == 1 && x.mantissa
                >= y.mantissa,
    ;
}

/// Rounding keeps the order of quotients: where `a / b` is at least `c / d`,
/// the number nearest to `a / b` is not below the number nearest to `c / d`.
pub proof fn lemma_ratio_order(a: nat, b: nat, c: nat, d: nat)
    requires
        0 < b,
        0 < d,
        a < b * MANTISSA_MIN,
        c < d * MANTISSA_MIN,
        a * d >= c * b,
    ensures
        !rounded(a, b).below(rounded(c, d)),
{
    let x = rounded(a, b);
    let y = rounded(c, d);
    lemma2_to64();
    if c == 0 {
        let lo = if x.exponent <= 0 {
            x.exponent
        } else {
            0
        };
        assert(y.scaled_to(lo) == 0) by (nonlinear_arith)
            requires
                y.scaled_to(lo) == 0 * pow2((0 - lo) as nat),
        ;
    } else {
        assert(a > 0) by (nonlinear_arith)
            requires
                a * d >= c * b,
                c > 0,
                b > 0,
        ;
        assert(a == a * pow2(0) && c == c * pow2(0)) by (nonlinear_arith)
            requires
                pow2(0) == 1,
        ;
        assert(a < b * MANTISSA_END && c < d * MANTISSA_END) by (nonlinear_arith)
            requires
                a < b * MANTISSA_MIN,
                c < d * MANTISSA_MIN,
                MANTISSA_MIN == 0x10_0000_0000_0000,
                MANTISSA_END == 0x20_0000_0000_0000,
        ;
        let k1 = lemma_settle_shape(a, b, 0, a);
        let k2 = lemma_settle_shape(c, d, 0, c);
        let t1 = a * pow2(k1);
        let t2 = c * pow2(k2);
        lemma_pow2_pos(k2);
        if k1 > k2 {
            if k1 - 1 > k2 {
                lemma_pow2_strictly_increases(k2, (k1 - 1) as nat);
            }
            assert(false) by (nonlinear_arith)
                requires
                    a * pow2((k1 - 1) as nat) < b * MANTISSA_MIN,
                    pow2(k2) <= pow2((k1 - 1) as nat),
                    c * pow2(k2) >= d * MANTISSA_MIN,
                    a * d >= c * b,
                    pow2(k2) > 0,
                    b > 0,
                    d > 0,
            ;
        }
        let m1 = nearest_even(t1, b);
        let m2 = nearest_even(t2, d);
        lemma_nearest_even_at_least(t1, b);
        lemma_nearest_even_at_least(t2, d);
        assert(t1 <= MANTISSA_END * b && t2 <= MANTISSA_END * d) by (nonlinear_arith)
            requires
                t1 < b * MANTISSA_END,
                t2 < d * MANTISSA_END,
        ;
        lemma_nearest_even_at_most(t1, b, MANTISSA_END as nat);
        lemma_nearest_even_at_most(t2, d, MANTISSA_END as nat);
        if k1 == k2 {
            assert(t1 * d >= t2 * b) by (nonlinear_arith)
                requires
                    t1 == a * pow2(k1),
                    t2 == c * pow2(k1),
                    a * d >= c * b,
            ;
            lemma_nearest_even_monotone(t1, b, t2, d);
        }
        lemma_not_below(x, y);
    }
}

/// Of two numbers that are apart, one is below the other.
pub proof fn lemma_apart_is_ordered(x: Dyadic, y: Dyadic)
    requires
        x.apart(y),
    ensures
        x.below(y) || y.below(x),
{
    let lo = if x.exponent <= y.exponent {
        x.exponent
    } else {
        y.exponent
    };
    lemma_pow2_pos((-52 - lo) as nat);
}

} // verus!
