//! Binary64 arithmetic on integers.
//!
//! Aspect ratios are quotients of two 32-bit numbers, kept with 53 significant
//! bits and rounded to nearest, ties to even. A value is a mantissa and a power
//! of two, so every operation here is exact integer arithmetic.

use vstd::arithmetic::power2::{
    lemma2_to64, lemma_pow2_adds, lemma_pow2_pos, lemma_pow2_strictly_increases,
    lemma_pow2_unfold, pow2,
};
use vstd::prelude::*;

verus! {

/// Least mantissa of a normal number: two to the 52.
pub const MANTISSA_MIN: u64 = 0x10_0000_0000_0000;

/// One past the greatest mantissa: two to the 53.
pub const MANTISSA_END: u64 = 0x20_0000_0000_0000;

/// The number `mantissa` times two to the `exponent`.
pub struct Dyadic {
    pub mantissa: nat,
    pub exponent: int,
}

impl Dyadic {
    /// Nothing: no mantissa, no exponent.
    pub open spec fn zero() -> Dyadic {
        Dyadic { mantissa: 0, exponent: 0 }
    }

    /// Zero, or a mantissa of exactly 53 bits.
    pub open spec fn normal(self) -> bool {
        self == Dyadic::zero() || MANTISSA_MIN <= self.mantissa < MANTISSA_END
    }

    /// The mantissa, brought to the exponent `lo`, which is at most the number's own.
    pub open spec fn scaled_to(self, lo: int) -> nat
        recommends
            lo <= self.exponent,
    {
        self.mantissa * pow2((self.exponent - lo) as nat)
    }

    /// Whether `self` is less than `other`.
    pub open spec fn below(self, other: Dyadic) -> bool {
        let lo = if self.exponent <= other.exponent {
            self.exponent
        } else {
            other.exponent
        };
        self.scaled_to(lo) < other.scaled_to(lo)
    }

    /// Whether `self` and `other` differ by at least two to the minus 52.
    pub open spec fn apart(self, other: Dyadic) -> bool {
        let lo = if self.exponent <= other.exponent {
            self.exponent
        } else {
            other.exponent
        };
        let a = self.scaled_to(lo);
        let b = other.scaled_to(lo);
        let gap = if a < b {
            b - a
        } else {
            a - b
        };
        if lo <= -52 {
            gap >= pow2((-52 - lo) as nat)
        } else {
            gap >= 1
        }
    }

    /// The whole part of the number.
    pub open spec fn floor(self) -> nat {
        if self.exponent >= 0 {
            self.mantissa * pow2(self.exponent as nat)
        } else {
            self.mantissa / pow2((-self.exponent) as nat)
        }
    }

    /// The whole part of the number, or the greatest 32-bit number where the
    /// whole part is greater.
    pub open spec fn to_u32(self) -> nat {
        if self.floor() > u32::MAX {
            u32::MAX as nat
        } else {
            self.floor()
        }
    }
}

/// The whole number nearest to `num / den`; of two equally near, the even one.
pub open spec fn nearest_even(num: nat, den: nat) -> nat
    recommends
        den > 0,
{
    let q = num / den;
    let r = num % den;
    if 2 * r > den || (2 * r == den && q % 2 == 1) {
        q + 1
    } else {
        q
    }
}

/// The normal number nearest to `num / den` times two to the `exp`: the
/// quotient is first brought between two to the 52 and two to the 53 by
/// doubling `num` or `den`, then rounded to a whole mantissa.
pub open spec fn settle(num: nat, den: nat, exp: int) -> Dyadic
    recommends
        num > 0,
        den > 0,
    decreases
            (if num < den * MANTISSA_MIN {
                den * MANTISSA_MIN - num
            } else {
                0
            }),
            (if num >= den * MANTISSA_END {
                num - den * MANTISSA_END + 1
            } else {
                0
            }),
{
    if num == 0 || den == 0 {
        Dyadic::zero()
    } else if num < den * MANTISSA_MIN {
        settle(2 * num, den, exp - 1)
    } else if num >= den * MANTISSA_END {
        settle(num, 2 * den, exp + 1)
    } else {
        let m = nearest_even(num, den);
        if m == MANTISSA_END {
            Dyadic { mantissa: MANTISSA_MIN as nat, exponent: exp + 1 }
        } else {
            Dyadic { mantissa: m, exponent: exp }
        }
    }
}

/// The normal number nearest to `num / den`, ties to the even mantissa.
pub open spec fn rounded(num: nat, den: nat) -> Dyadic
    recommends
        den > 0,
{
    if num == 0 {
        Dyadic::zero()
    } else {
        settle(num, den, 0)
    }
}

/// The normal number nearest to `factor` times `d`.
pub open spec fn product(factor: nat, d: Dyadic) -> Dyadic {
    let r = rounded(factor * d.mantissa, 1);
    if r.mantissa == 0 {
        Dyadic::zero()
    } else {
        Dyadic { mantissa: r.mantissa, exponent: r.exponent + d.exponent }
    }
}

/// The normal number nearest to `dividend` divided by `d`.
pub open spec fn quotient(dividend: nat, d: Dyadic) -> Dyadic
    recommends
        d.mantissa > 0,
{
    let r = rounded(dividend, d.mantissa);
    if r.mantissa == 0 {
        Dyadic::zero()
    } else {
        Dyadic { mantissa: r.mantissa, exponent: r.exponent - d.exponent }
    }
}

/// A number of 53 significant bits.
#[derive(Debug, Clone, Copy)]
pub struct Binary64 {
    mantissa: u64,
    exponent: i32,
}

impl View for Binary64 {
    type V = Dyadic;

    closed spec fn view(&self) -> Dyadic {
        Dyadic { mantissa: self.mantissa as nat, exponent: self.exponent as int }
    }
}

proof fn lemma_pow2_values()
    ensures
        pow2(52) == 0x10_0000_0000_0000,
        pow2(53) == 0x20_0000_0000_0000,
        pow2(54) == 0x40_0000_0000_0000,
        pow2(55) == 0x80_0000_0000_0000,
        pow2(58) == 0x400_0000_0000_0000,
        pow2(63) == 0x8000_0000_0000_0000,
        pow2(64) == 0x1_0000_0000_0000_0000,
        pow2(106) == 0x400_0000_0000_0000_0000_0000_0000,
        pow2(116) == 0x10_0000_0000_0000_0000_0000_0000_0000,
        pow2(117) == 0x20_0000_0000_0000_0000_0000_0000_0000,
{
    lemma2_to64();
    lemma_pow2_adds(32, 20);
    lemma_pow2_adds(32, 21);
    lemma_pow2_adds(32, 22);
    lemma_pow2_adds(32, 23);
    lemma_pow2_adds(32, 26);
    lemma_pow2_adds(32, 31);
    assert(pow2(52) == 0x10_0000_0000_0000);
    assert(pow2(53) == 0x20_0000_0000_0000);
    lemma_pow2_adds(64, 32);
    assert(pow2(96) == 0x1_0000_0000_0000_0000_0000_0000);
    lemma_pow2_adds(96, 10);
    lemma_pow2_adds(96, 20);
    lemma_pow2_adds(96, 21);
}

/// Two to the `k`.
fn power_of_two(k: u32) -> (p: u128)
    requires
        k <= 117,
    ensures
        p == pow2(k as nat),
        p <= 0x20_0000_0000_0000_0000_0000_0000_0000,
{
    let mut p: u128 = 1;
    let mut i: u32 = 0;
    proof {
        lemma2_to64();
        lemma_pow2_values();
    }
    while i < k
        invariant
            i <= k <= 117,
            p == pow2(i as nat),
            pow2(117) == 0x20_0000_0000_0000_0000_0000_0000_0000,
        decreases k - i,
    {
        proof {
            lemma_pow2_unfold((i + 1) as nat);
            if i + 1 < 117 {
                lemma_pow2_strictly_increases((i + 1) as nat, 117);
            }
        }
        p = p * 2;
        i = i + 1;
    }
    proof {
        if k < 117 {
            lemma_pow2_strictly_increases(k as nat, 117);
        }
    }
    p
}

impl Binary64 {
    /// Whether the exponent lies in the span that quotients, products and
    /// quotients of 32-bit numbers with such quotients stay in.
    pub open spec fn in_range(self) -> bool {
        &&& self@.normal()
        &&& -400 <= self@.exponent <= 400
    }

    /// Whether the number is normal with an exponent in the span of the
    /// quotients of two 32-bit numbers.
    pub open spec fn is_ratio(self) -> bool {
        &&& self@.normal()
        &&& -110 <= self@.exponent <= 60
    }

    /// Nothing.
    pub fn zero() -> (r: Binary64)
        ensures
            r@ == Dyadic::zero(),
            r.in_range(),
    {
        Binary64 { mantissa: 0, exponent: 0 }
    }

    /// The mantissa: zero, or a number of exactly 53 bits.
    pub fn mantissa(&self) -> (m: u64)
        ensures
            m == self@.mantissa,
    {
        self.mantissa
    }

    /// The power of two that the mantissa is multiplied by.
    pub fn exponent(&self) -> (e: i32)
        ensures
            e == self@.exponent,
    {
        self.exponent
    }

    /// Whether the number is nothing.
    pub fn is_zero(&self) -> (b: bool)
        ensures
            b == (self@.mantissa == 0),
    {
        self.mantissa == 0
    }

    /// Rounds `num / den` to 53 significant bits.
    fn round(num: u128, den: u128) -> (r: Binary64)
        requires
            0 < den < 0x40_0000_0000_0000,
            num < 0x40_0000_0000_0000_0000_0000,
        ensures
            r@ == rounded(num as nat, den as nat),
            r@.normal(),
            -110 <= r@.exponent <= 60,
            num > 0 ==> r@.mantissa > 0,
    {
        if num == 0 {
            return Binary64 { mantissa: 0, exponent: 0 };
        }
        let mut n: u128 = num;
        let mut d: u128 = den;
        let mut e: i32 = 0;
        let ghost mut doublings: nat = 0;
        proof {
            lemma2_to64();
            lemma_pow2_values();
        }
        while n < d * 0x10_0000_0000_0000
            invariant
                d == den,
                0 < d < 0x40_0000_0000_0000,
                0 < n < 0x800_0000_0000_0000_0000_0000_0000,
                settle(n as nat, d as nat, e as int) == settle(num as nat, den as nat, 0),
                e == -doublings,
                doublings <= 106,
                pow2(doublings) <= n,
                pow2(106) == 0x400_0000_0000_0000_0000_0000_0000,
            decreases
                    (if n < d * 0x10_0000_0000_0000 {
                        d * 0x10_0000_0000_0000 - n
                    } else {
                        0
                    }),
        {
            proof {
                lemma_pow2_unfold(doublings + 1);
                if doublings >= 106 {
                    if doublings > 106 {
                        lemma_pow2_strictly_increases(106, doublings);
                    }
                    assert(false);
                }
            }
            n = n * 2;
            e = e - 1;
            proof {
                doublings = doublings + 1;
            }
        }
        let ghost mut halvings: nat = 0;
        let ghost e1 = e;
        while n >= d * 0x20_0000_0000_0000
            invariant
                0 < d < 0x80_0000_0000_0000,
                0 < n < 0x800_0000_0000_0000_0000_0000_0000,
                n >= d * 0x10_0000_0000_0000,
                settle(n as nat, d as nat, e as int) == settle(num as nat, den as nat, 0),
                e == e1 + halvings,
                -106 <= e1 <= 0,
                halvings <= 55,
                pow2(halvings) <= d,
                pow2(55) == 0x80_0000_0000_0000,
            decreases
                    (if n >= d * 0x20_0000_0000_0000 {
                        n - d * 0x20_0000_0000_0000 + 1
                    } else {
                        0
                    }),
        {
            proof {
                lemma_pow2_unfold(halvings + 1);
                if halvings >= 55 {
                    if halvings > 55 {
                        lemma_pow2_strictly_increases(55, halvings);
                    }
                    assert(false);
                }
            }
            d = d * 2;
            e = e + 1;
            proof {
                halvings = halvings + 1;
            }
        }
        let q: u128 = n / d;
        let rem: u128 = n % d;
        assert(0x10_0000_0000_0000 <= q < 0x20_0000_0000_0000) by (nonlinear_arith)
            requires
                d > 0,
                q == n / d,
                d * 0x10_0000_0000_0000 <= n < d * 0x20_0000_0000_0000,
        ;
        let up = 2 * rem > d || (2 * rem == d && q % 2 == 1);
        let m: u128 = if up {
            q + 1
        } else {
            q
        };
        assert(m == nearest_even(n as nat, d as nat));
        if m == 0x20_0000_0000_0000 {
            Binary64 { mantissa: 0x10_0000_0000_0000, exponent: e + 1 }
        } else {
            Binary64 { mantissa: m as u64, exponent: e }
        }
    }

    /// The number nearest to `num / den`.
    pub fn ratio(num: u32, den: u32) -> (r: Binary64)
        requires
            den > 0,
        ensures
            r@ == rounded(num as nat, den as nat),
            r.in_range(),
            r.is_ratio(),
            num > 0 ==> r@.mantissa > 0,
    {
        Binary64::round(num as u128, den as u128)
    }

    /// The number nearest to `factor` times `self`.
    pub fn times(&self, factor: u32) -> (r: Binary64)
        requires
            self.in_range(),
        ensures
            r@ == product(factor as nat, self@),
            r@.normal(),
            -510 <= r@.exponent <= 460,
    {
        assert(factor * self.mantissa < 0x40_0000_0000_0000_0000_0000) by (nonlinear_arith)
            requires
                factor <= 0xffff_ffff,
                self.mantissa < 0x20_0000_0000_0000,
        ;
        let r = Binary64::round((factor as u128) * (self.mantissa as u128), 1);
        if r.mantissa == 0 {
            Binary64 { mantissa: 0, exponent: 0 }
        } else {
            Binary64 { mantissa: r.mantissa, exponent: r.exponent + self.exponent }
        }
    }

    /// The number nearest to `dividend` divided by `self`.
    pub fn divide(&self, dividend: u32) -> (r: Binary64)
        requires
            self.in_range(),
            self@.mantissa > 0,
        ensures
            r@ == quotient(dividend as nat, self@),
            r@.normal(),
            -510 <= r@.exponent <= 460,
    {
        let r = Binary64::round(dividend as u128, self.mantissa as u128);
        if r.mantissa == 0 {
            Binary64 { mantissa: 0, exponent: 0 }
        } else {
            Binary64 { mantissa: r.mantissa, exponent: r.exponent - self.exponent }
        }
    }

    /// The whole part, or the greatest 32-bit number where that is less.
    pub fn to_u32(&self) -> (v: u32)
        requires
            self@.normal(),
        ensures
            v == self@.to_u32(),
    {
        if self.mantissa == 0 {
            proof {
                lemma_pow2_pos(self.exponent as nat);
                lemma_pow2_pos((-self.exponent) as nat);
            }
            assert(self@.floor() == 0) by (nonlinear_arith)
                requires
                    self@.mantissa == 0,
                    self@.floor() == (if self@.exponent >= 0 {
                        self@.mantissa * pow2(self@.exponent as nat)
                    } else {
                        self@.mantissa / pow2((-self@.exponent) as nat)
                    }),
                    pow2((-self@.exponent) as nat) > 0,
            ;
            0
        } else if self.exponent >= 0 {
            proof {
                lemma_pow2_pos(self.exponent as nat);
            }
            assert(self@.mantissa * pow2(self@.exponent as nat) > u32::MAX) by (nonlinear_arith)
                requires
                    self@.mantissa >= 0x10_0000_0000_0000,
                    pow2(self@.exponent as nat) > 0,
            ;
            u32::MAX
        } else if self.exponent < -64 {
            proof {
                lemma2_to64();
                lemma_pow2_strictly_increases(64, (-self.exponent) as nat);
            }
            assert(self@.mantissa / pow2((-self@.exponent) as nat) == 0) by (nonlinear_arith)
                requires
                    self@.mantissa < 0x20_0000_0000_0000,
                    pow2((-self@.exponent) as nat) > 0x1_0000_0000_0000_0000,
            ;
            0
        } else {
            let k: u32 = (-self.exponent) as u32;
            let p = power_of_two(k);
            proof {
                lemma_pow2_pos(k as nat);
            }
            let whole: u128 = (self.mantissa as u128) / p;
            if whole > 0xffff_ffff {
                u32::MAX
            } else {
                whole as u32
            }
        }
    }

    /// Whether `self` is less than `other`.
    pub fn below(&self, other: &Binary64) -> (b: bool)
        requires
            self@.normal(),
            other@.normal(),
            -1000 <= self@.exponent <= 1000,
            -1000 <= other@.exponent <= 1000,
        ensures
            b == self@.below(other@),
    {
        let ghost lo = if self@.exponent <= other@.exponent {
            self@.exponent
        } else {
            other@.exponent
        };
        proof {
            lemma2_to64();
            lemma_pow2_pos((self@.exponent - lo) as nat);
            lemma_pow2_pos((other@.exponent - lo) as nat);
        }
        if other.mantissa == 0 {
            assert(other@.scaled_to(lo) == 0) by (nonlinear_arith)
                requires
                    other@.mantissa == 0,
                    other@.scaled_to(lo) == other@.mantissa * pow2((other@.exponent - lo) as nat),
            ;
            false
        } else if self.mantissa == 0 {
            assert(self@.scaled_to(lo) == 0 && other@.scaled_to(lo) > 0) by (nonlinear_arith)
                requires
                    self@.mantissa == 0,
                    other@.mantissa > 0,
                    pow2((other@.exponent - lo) as nat) > 0,
                    self@.scaled_to(lo) == self@.mantissa * pow2((self@.exponent - lo) as nat),
                    other@.scaled_to(lo) == other@.mantissa * pow2((other@.exponent - lo) as nat),
            ;
            true
        } else if self.exponent == other.exponent {
            assert(self@.scaled_to(lo) == self@.mantissa && other@.scaled_to(lo)
                == other@.mantissa) by (nonlinear_arith)
                requires
                    pow2((self@.exponent - lo) as nat) == 1,
                    pow2((other@.exponent - lo) as nat) == 1,
                    self@.scaled_to(lo) == self@.mantissa * pow2((self@.exponent - lo) as nat),
                    other@.scaled_to(lo) == other@.mantissa * pow2((other@.exponent - lo) as nat),
            ;
            self.mantissa < other.mantissa
        } else if self.exponent < other.exponent {
            proof {
                lemma_pow2_strictly_increases(0, (other@.exponent - lo) as nat);
            }
            assert(self@.scaled_to(lo) < other@.scaled_to(lo)) by (nonlinear_arith)
                requires
                    self@.mantissa < 0x20_0000_0000_0000,
                    other@.mantissa >= 0x10_0000_0000_0000,
                    pow2((self@.exponent - lo) as nat) == 1,
                    pow2((other@.exponent - lo) as nat) >= 2,
                    self@.scaled_to(lo) == self@.mantissa * pow2((self@.exponent - lo) as nat),
                    other@.scaled_to(lo) == other@.mantissa * pow2((other@.exponent - lo) as nat),
            ;
            true
        } else {
            proof {
                lemma_pow2_strictly_increases(0, (self@.exponent - lo) as nat);
            }
            assert(self@.scaled_to(lo) >= other@.scaled_to(lo)) by (nonlinear_arith)
                requires
                    other@.mantissa < 0x20_0000_0000_0000,
                    self@.mantissa >= 0x10_0000_0000_0000,
                    pow2((other@.exponent - lo) as nat) == 1,
                    pow2((self@.exponent - lo) as nat) >= 2,
                    self@.scaled_to(lo) == self@.mantissa * pow2((self@.exponent - lo) as nat),
                    other@.scaled_to(lo) == other@.mantissa * pow2((other@.exponent - lo) as nat),
            ;
            false
        }
    }

    /// Whether `self` and `other` differ by at least two to the minus 52.
    pub fn apart(&self, other: &Binary64) -> (b: bool)
        requires
            self@.normal(),
            other@.normal(),
            -110 <= self@.exponent <= 60,
            -110 <= other@.exponent <= 60,
        ensures
            b == self@.apart(other@),
    {
        let lo: i32 = if self.exponent <= other.exponent {
            self.exponent
        } else {
            other.exponent
        };
        let shift_self: u32 = (self.exponent - lo) as u32;
        let shift_other: u32 = (other.exponent - lo) as u32;
        proof {
            lemma2_to64();
            lemma_pow2_values();
            lemma_pow2_pos(shift_self as nat);
            lemma_pow2_pos(shift_other as nat);
        }
        let threshold: u128 = if lo <= -52 {
            proof {
                if -52 - lo < 58 {
                    lemma_pow2_strictly_increases((-52 - lo) as nat, 58);
                }
            }
            power_of_two((-52 - lo) as u32)
        } else {
            1
        };
        assert(threshold <= 0x400_0000_0000_0000);
        if self.mantissa == 0 && other.mantissa == 0 {
            false
        } else if shift_self >= 64 || shift_other >= 64 {
            if self.mantissa == 0 || other.mantissa == 0 {
                // The number with the greater exponent is zero.
                let m: u64 = if self.mantissa == 0 {
                    other.mantissa
                } else {
                    self.mantissa
                };
                assert(self@.scaled_to(lo as int) + other@.scaled_to(lo as int) == m)
                    by (nonlinear_arith)
                    requires
                        self@.mantissa == 0 && other@.mantissa == m && pow2(shift_other as nat) == 1
                            || other@.mantissa == 0 && self@.mantissa == m && pow2(
                            shift_self as nat,
                        ) == 1,
                        self@.scaled_to(lo as int) == self@.mantissa * pow2(shift_self as nat),
                        other@.scaled_to(lo as int) == other@.mantissa * pow2(shift_other as nat),
                ;
                assert(self@.scaled_to(lo as int) == 0 || other@.scaled_to(lo as int) == 0)
                    by (nonlinear_arith)
                    requires
                        self@.mantissa == 0 || other@.mantissa == 0,
                        self@.scaled_to(lo as int) == self@.mantissa * pow2(shift_self as nat),
                        other@.scaled_to(lo as int) == other@.mantissa * pow2(shift_other as nat),
                ;
                m as u128 >= threshold
            } else {
                proof {
                    let hi_shift = if shift_self >= 64 {
                        shift_self
                    } else {
                        shift_other
                    };
                    if hi_shift > 64 {
                        lemma_pow2_strictly_increases(64, hi_shift as nat);
                    }
                    let a = self@.scaled_to(lo as int);
                    let b = other@.scaled_to(lo as int);
                    assert(a >= b + 0x400_0000_0000_0000 || b >= a + 0x400_0000_0000_0000)
                        by (nonlinear_arith)
                        requires
                            0x10_0000_0000_0000 <= self@.mantissa < 0x20_0000_0000_0000,
                            0x10_0000_0000_0000 <= other@.mantissa < 0x20_0000_0000_0000,
                            pow2(shift_self as nat) >= 0x1_0000_0000_0000_0000 && pow2(
                                shift_other as nat,
                            ) == 1 || pow2(shift_other as nat) >= 0x1_0000_0000_0000_0000 && pow2(
                                shift_self as nat,
                            ) == 1,
                            a == self@.mantissa * pow2(shift_self as nat),
                            b == other@.mantissa * pow2(shift_other as nat),
                    ;
                }
                true
            }
        } else {
            proof {
                if shift_self < 63 {
                    lemma_pow2_strictly_increases(shift_self as nat, 63);
                }
                if shift_other < 63 {
                    lemma_pow2_strictly_increases(shift_other as nat, 63);
                }
            }
            let factor_self: u128 = power_of_two(shift_self);
            let factor_other: u128 = power_of_two(shift_other);
            assert(self.mantissa * factor_self < 0x10_0000_0000_0000_0000_0000_0000_0000
                && other.mantissa * factor_other < 0x10_0000_0000_0000_0000_0000_0000_0000)
                by (nonlinear_arith)
                requires
                    self.mantissa < 0x20_0000_0000_0000,
                    other.mantissa < 0x20_0000_0000_0000,
                    factor_self <= 0x8000_0000_0000_0000,
                    factor_other <= 0x8000_0000_0000_0000,
            ;
            let a: u128 = (self.mantissa as u128) * factor_self;
            let b: u128 = (other.mantissa as u128) * factor_other;
            let gap: u128 = if a < b {
                b - a
            } else {
                a - b
            };
            gap >= threshold
        }
    }
}

} // verus!
