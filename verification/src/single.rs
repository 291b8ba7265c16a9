//! IEEE 754 single precision, computed on bit patterns.
//!
//! Coordinates on a page and the reading pace are single precision numbers.
//! The operations here are the ones of the standard: the exact result, rounded
//! to the nearest number, ties to even. What they return is stated over the
//! whole multiples of 2^-149 that the numbers stand for.
use crate::rounding;
use crate::rounding::{HIDDEN, INFINITE};
use vstd::arithmetic::div_mod::*;
use vstd::arithmetic::mul::*;
use vstd::arithmetic::power2::*;
use vstd::prelude::*;

verus! {

/// The bit that holds the sign.
pub const SIGN: u32 = 0x8000_0000;

/// The multiple of 2^-149 that stands for one is this power of two.
pub const ONE_EXPONENT: u32 = 149;

/// A single precision number. Two values are equal when their bits are.
#[derive(Clone, Copy, Debug, PartialEq, Eq, Structural)]
pub struct Single {
    pub bits: u32,
}

impl Single {
    /// Whether the sign bit is set.
    pub open spec fn negative(self) -> bool {
        self.bits >= SIGN
    }

    /// The bits without the sign.
    pub open spec fn pattern(self) -> nat {
        (self.bits % SIGN) as nat
    }

    /// Not a number.
    pub open spec fn nan(self) -> bool {
        self.pattern() > INFINITE
    }

    pub open spec fn infinite(self) -> bool {
        self.pattern() == INFINITE
    }

    pub open spec fn finite(self) -> bool {
        self.pattern() < INFINITE
    }

    /// The magnitude, in multiples of 2^-149.
    pub open spec fn units(self) -> nat {
        rounding::units(self.pattern())
    }

    /// The number itself, in multiples of 2^-149.
    pub open spec fn signed(self) -> int {
        if self.negative() {
            -(self.units() as int)
        } else {
            self.units() as int
        }
    }
}

/// The number with the given sign and pattern.
pub open spec fn number(negative: bool, pattern: nat) -> Single {
    Single {
        bits: if negative {
            (pattern + SIGN) as u32
        } else {
            pattern as u32
        },
    }
}

/// What an operation without a result returns.
pub open spec fn not_a_number() -> Single {
    Single { bits: 0x7fc0_0000 }
}

/// The number nearest to the quotient `n / d` of units, with the given sign.
pub open spec fn rounded(negative: bool, n: nat, d: nat) -> Single {
    number(negative, rounding::nearest(n, d))
}

/// `-a`
pub open spec fn negation(a: Single) -> Single {
    number(!a.negative(), a.pattern())
}

/// `a + b`
pub open spec fn sum(a: Single, b: Single) -> Single {
    let exact = a.signed() + b.signed();
    if a.nan() || b.nan() {
        not_a_number()
    } else if a.infinite() && b.infinite() && a.negative() != b.negative() {
        not_a_number()
    } else if a.infinite() {
        a
    } else if b.infinite() {
        b
    } else if exact == 0 {
        number(a.negative() && b.negative(), 0)
    } else if exact < 0 {
        rounded(true, (-exact) as nat, 1)
    } else {
        rounded(false, exact as nat, 1)
    }
}

/// `a - b`
pub open spec fn difference(a: Single, b: Single) -> Single {
    sum(a, negation(b))
}

/// `a * b`
pub open spec fn product(a: Single, b: Single) -> Single {
    let negative = a.negative() != b.negative();
    if a.nan() || b.nan() {
        not_a_number()
    } else if a.infinite() || b.infinite() {
        if a.units() == 0 || b.units() == 0 {
            not_a_number()
        } else {
            number(negative, INFINITE as nat)
        }
    } else {
        rounded(negative, a.units() * b.units(), pow2(ONE_EXPONENT as nat))
    }
}

/// `a / b`
pub open spec fn quotient(a: Single, b: Single) -> Single {
    let negative = a.negative() != b.negative();
    if a.nan() || b.nan() {
        not_a_number()
    } else if a.infinite() && b.infinite() {
        not_a_number()
    } else if a.infinite() {
        number(negative, INFINITE as nat)
    } else if b.infinite() {
        number(negative, 0)
    } else if b.units() == 0 {
        if a.units() == 0 {
            not_a_number()
        } else {
            number(negative, INFINITE as nat)
        }
    } else {
        rounded(negative, a.units() * pow2(ONE_EXPONENT as nat), b.units())
    }
}

/// `a < b`
pub open spec fn less(a: Single, b: Single) -> bool {
    !a.nan() && !b.nan() && a.signed() < b.signed()
}

/// `a <= b`
pub open spec fn at_most(a: Single, b: Single) -> bool {
    !a.nan() && !b.nan() && a.signed() <= b.signed()
}

/// The smaller of the two, or the one that is a number.
pub open spec fn smaller(a: Single, b: Single) -> Single {
    if a.nan() || less(b, a) {
        b
    } else {
        a
    }
}

/// The larger of the two, or the one that is a number.
pub open spec fn larger(a: Single, b: Single) -> Single {
    if a.nan() || less(a, b) {
        b
    } else {
        a
    }
}

/// The whole part of `a`, held to the range from zero to `limit`.
pub open spec fn truncated(a: Single, limit: nat) -> nat {
    let whole = a.units() / pow2(ONE_EXPONENT as nat);
    if a.nan() || a.negative() {
        0
    } else if whole > limit {
        limit
    } else {
        whole
    }
}

/// `a` rounded to a whole number, halves upward, held to the range from zero
/// to `limit`.
pub open spec fn to_whole(a: Single, limit: nat) -> nat {
    let half = pow2((ONE_EXPONENT - 1) as nat);
    let whole = (a.units() + half) / pow2(ONE_EXPONENT as nat);
    if a.nan() || a.negative() {
        0
    } else if whole > limit {
        limit
    } else {
        whole
    }
}

/// The number nearest to the whole number `n`.
pub open spec fn from_whole(n: nat) -> Single {
    rounded(false, n * pow2(ONE_EXPONENT as nat), 1)
}

/// The bits of a number are its sign and its pattern.
pub proof fn lemma_number(negative: bool, pattern: nat)
    requires
        pattern < SIGN,
    ensures
        number(negative, pattern).negative() == negative,
        number(negative, pattern).pattern() == pattern,
{
}

/// A whole multiple of a power of two loses nothing.
proof fn lemma_scaled_whole(n: nat, sig: nat, t: nat)
    requires
        n == sig * pow2(t),
    ensures
        rounding::scaled(n, 1, sig, t as int, false),
{
    lemma2_to64();
    lemma_pow2_pos(t);
    lemma_mul_basics(n as int);
    lemma_mul_basics(pow2(t) as int);
    assert((sig + 1) * pow2(t) > n) by (nonlinear_arith)
        requires
            n == sig * pow2(t),
            pow2(t) > 0,
    ;
}

/// Powers of two that occur, written out.
proof fn lemma_sizes()
    ensures
        pow2(0) == 1,
        pow2(24) == 0x100_0000,
        pow2(25) == 0x200_0000,
        pow2(40) == 0x100_0000_0000,
        pow2(64) == 0x1_0000_0000_0000_0000,
        pow2(120) == 0x100_0000_0000_0000_0000_0000_0000_0000,
{
    lemma2_to64();
    lemma2_to64_rest();
    lemma_pow2_adds(60, 60);
}

impl Single {
    /// The number with these bits.
    pub fn from_bits(bits: u32) -> (r: Single)
        ensures
            r.bits == bits,
    {
        Single { bits }
    }

    /// The bits of this number.
    pub fn to_bits(self) -> (bits: u32)
        ensures
            bits == self.bits,
    {
        self.bits
    }

    /// Not a number.
    pub fn is_nan(self) -> (r: bool)
        ensures
            r == self.nan(),
    {
        self.bits % SIGN > INFINITE
    }

    /// The number with the given sign and pattern.
    pub fn make(negative: bool, pattern: u32) -> (r: Single)
        requires
            pattern < SIGN,
        ensures
            r == number(negative, pattern as nat),
    {
        if negative {
            Single { bits: pattern + SIGN }
        } else {
            Single { bits: pattern }
        }
    }

    /// The significand and the exponent.
    pub fn parts(self) -> (r: (u32, u32))
        requires
            self.pattern() <= INFINITE,
        ensures
            r.0 == rounding::significand(self.pattern()),
            r.1 == rounding::exponent(self.pattern()),
            r.0 < 0x100_0000,
            r.1 <= 254,
            r.1 > 0 ==> r.0 >= 0x80_0000,
            self.units() == r.0 * pow2(r.1 as nat),
    {
        proof {
            rounding::lemma_range(self.pattern());
        }
        let m: u32 = self.bits % SIGN;
        if m < HIDDEN {
            (m, 0)
        } else {
            let e: u32 = m / HIDDEN - 1;
            (m - e * HIDDEN, e)
        }
    }

    /// `-self`
    pub fn negated(self) -> (r: Single)
        ensures
            r == negation(self),
    {
        Self::make(self.bits < SIGN, self.bits % SIGN)
    }

    /// `self < other`
    pub fn lt(self, other: Single) -> (r: bool)
        ensures
            r == less(self, other),
    {
        proof {
            Self::lemma_order(self, other);
        }
        if self.is_nan() || other.is_nan() {
            return false;
        }
        self.key() < other.key()
    }

    /// `self <= other`
    pub fn le(self, other: Single) -> (r: bool)
        ensures
            r == at_most(self, other),
    {
        proof {
            Self::lemma_order(self, other);
        }
        if self.is_nan() || other.is_nan() {
            return false;
        }
        self.key() <= other.key()
    }

    /// The pattern with its sign.
    spec fn rank(self) -> int {
        if self.negative() {
            -(self.pattern() as int)
        } else {
            self.pattern() as int
        }
    }

    /// The pattern with its sign.
    fn key(self) -> (r: i64)
        ensures
            r == self.rank(),
    {
        let m: i64 = (self.bits % SIGN) as i64;
        if self.bits >= SIGN {
            -m
        } else {
            m
        }
    }

    /// Signed patterns are ordered as the numbers are.
    proof fn lemma_order(a: Single, b: Single)
        ensures
            a.rank() < b.rank() <==> a.signed() < b.signed(),
            a.rank() <= b.rank() <==> a.signed() <= b.signed(),
    {
        let m = a.pattern();
        let n = b.pattern();
        rounding::lemma_parts(0, 0);
        lemma_mul_basics(pow2(0) as int);
        rounding::lemma_increasing(0, m);
        rounding::lemma_increasing(0, n);
        if m <= n {
            rounding::lemma_increasing(m, n);
        } else {
            rounding::lemma_increasing(n, m);
        }
    }

    /// The smaller of the two, or the one that is a number.
    pub fn min(self, other: Single) -> (r: Single)
        ensures
            r == smaller(self, other),
    {
        if self.is_nan() || other.lt(self) {
            other
        } else {
            self
        }
    }

    /// The larger of the two, or the one that is a number.
    pub fn max(self, other: Single) -> (r: Single)
        ensures
            r == larger(self, other),
    {
        if self.is_nan() || self.lt(other) {
            other
        } else {
            self
        }
    }

    /// `self * other`
    pub fn times(self, other: Single) -> (r: Single)
        ensures
            r == product(self, other),
    {
        let negative: bool = (self.bits >= SIGN) != (other.bits >= SIGN);
        if self.is_nan() || other.is_nan() {
            return Single { bits: 0x7fc0_0000 };
        }
        proof {
            Self::lemma_zero(self);
            Self::lemma_zero(other);
        }
        let m: u32 = self.bits % SIGN;
        let n: u32 = other.bits % SIGN;
        if m == INFINITE || n == INFINITE {
            if m == 0 || n == 0 {
                return Single { bits: 0x7fc0_0000 };
            }
            return Self::make(negative, INFINITE);
        }
        let (s1, e1) = self.parts();
        let (s2, e2) = other.parts();
        assert(s1 * s2 < 0x1_0000_0000_0000) by (nonlinear_arith)
            requires
                0 <= s1 < 0x100_0000,
                0 <= s2 < 0x100_0000,
        ;
        let sig: u64 = s1 as u64 * s2 as u64;
        let t: i32 = e1 as i32 + e2 as i32 - 149;
        proof {
            lemma_sizes();
            let u = self.units() * other.units();
            let d = pow2(149);
            lemma_pow2_pos(149);
            lemma_pow2_adds(e1 as nat, e2 as nat);
            assert(u == sig * pow2((e1 + e2) as nat)) by (nonlinear_arith)
                requires
                    u == (s1 * pow2(e1 as nat)) * (s2 * pow2(e2 as nat)),
                    pow2((e1 + e2) as nat) == pow2(e1 as nat) * pow2(e2 as nat),
                    sig == s1 * s2,
            ;
            assert(rounding::scaled(u, d, sig as nat, t as int, false)) by {
                lemma_mul_basics(d as int);
                lemma_mul_basics(u as int);
                if t > 0 {
                    lemma_pow2_adds(t as nat, 149);
                    let g = pow2(t as nat) * d;
                    lemma_pow2_pos((t + 149) as nat);
                    assert((sig + 1) * g == sig * g + g) by (nonlinear_arith);
                } else {
                    lemma_pow2_adds((e1 + e2) as nat, (-t) as nat);
                    let g = pow2((-t) as nat);
                    assert((sig + 1) * d == sig * d + d) by (nonlinear_arith);
                    assert(u * g == sig * d) by (nonlinear_arith)
                        requires
                            u == sig * pow2((e1 + e2) as nat),
                            d == pow2((e1 + e2) as nat) * g,
                    ;
                }
            }
        }
        Self::make(negative, rounding::assemble(sig as u128, t, false))
    }

    /// `self / other`
    pub fn over(self, other: Single) -> (r: Single)
        ensures
            r == quotient(self, other),
    {
        let negative: bool = (self.bits >= SIGN) != (other.bits >= SIGN);
        if self.is_nan() || other.is_nan() {
            return Single { bits: 0x7fc0_0000 };
        }
        proof {
            Self::lemma_zero(self);
            Self::lemma_zero(other);
        }
        let m: u32 = self.bits % SIGN;
        let n: u32 = other.bits % SIGN;
        if m == INFINITE {
            if n == INFINITE {
                return Single { bits: 0x7fc0_0000 };
            }
            return Self::make(negative, INFINITE);
        }
        if n == INFINITE {
            return Self::make(negative, 0);
        }
        if n == 0 {
            if m == 0 {
                return Single { bits: 0x7fc0_0000 };
            }
            return Self::make(negative, INFINITE);
        }
        let (s1, e1) = self.parts();
        let (s2, e2) = other.parts();
        proof {
            lemma_sizes();
            lemma_mul_basics(pow2(e2 as nat) as int);
        }
        assert(s2 > 0);
        let high: u128 = s1 as u128 * 0x1_0000_0000_0000_0000;
        let sig: u128 = high / s2 as u128;
        let rem: u128 = high % s2 as u128;
        let sticky: bool = rem != 0;
        let t: i32 = e1 as i32 - e2 as i32 + 85;
        proof {
            lemma_fundamental_div_mod(high as int, s2 as int);
            assert(sig <= high) by (nonlinear_arith)
                requires
                    high == s2 * sig + rem,
                    s2 >= 1,
                    rem >= 0,
                    sig >= 0,
            ;
            if s1 > 0 {
                assert(sig >= 0x100_0000_0000) by (nonlinear_arith)
                    requires
                        high == s2 * sig + rem,
                        high >= 0x1_0000_0000_0000_0000,
                        s2 < 0x100_0000,
                        rem < s2,
                ;
            } else {
                assert(rem == 0) by (nonlinear_arith)
                    requires
                        0 == s2 * sig + rem,
                        s2 >= 1,
                        rem >= 0,
                        sig >= 0,
                ;
            }
            let n0 = self.units() * pow2(149);
            let d0 = other.units();
            lemma_pow2_pos(149);
            let up = pow2(if t > 0 { t as nat } else { 0 });
            let down = pow2(if t < 0 { (-t) as nat } else { 0 });
            let k = pow2((e2 + if t > 0 { t as int } else { 0 }) as nat);
            lemma_pow2_pos((e2 + if t > 0 { t as int } else { 0 }) as nat);
            assert(up * d0 == s2 * k) by {
                lemma_pow2_adds(if t > 0 { t as nat } else { 0 }, e2 as nat);
                assert(up * (s2 * pow2(e2 as nat)) == s2 * (up * pow2(e2 as nat)))
                    by (nonlinear_arith);
            }
            assert(n0 * down == high * k) by {
                lemma_pow2_adds(e1 as nat, 149);
                lemma_pow2_adds((e1 + 149) as nat, if t < 0 { (-t) as nat } else { 0 });
                lemma_pow2_adds(64, (e2 + if t > 0 { t as int } else { 0 }) as nat);
                let p1 = pow2(e1 as nat);
                let p2 = pow2(149);
                let p3 = pow2((e1 + 149) as nat);
                assert(n0 * down == s1 * (p3 * down)) by (nonlinear_arith)
                    requires
                        n0 == (s1 * p1) * p2,
                        p3 == p1 * p2,
                ;
                assert(high * k == s1 * (pow2(64) * k)) by (nonlinear_arith)
                    requires
                        high == s1 * pow2(64),
                ;
            }
            assert(high * k == sig * (s2 * k) + rem * k) by (nonlinear_arith)
                requires
                    high == s2 * sig + rem,
            ;
            assert((sig + 1) * (s2 * k) == sig * (s2 * k) + s2 * k) by (nonlinear_arith);
            assert(rem * k < s2 * k) by (nonlinear_arith)
                requires
                    rem < s2,
                    k > 0,
            ;
            assert(rem * k == 0 <==> rem == 0) by (nonlinear_arith)
                requires
                    k > 0,
                    rem >= 0,
            ;
            assert(rounding::scaled(n0, d0, sig as nat, t as int, sticky));
        }
        Self::make(negative, rounding::assemble(sig, t, sticky))
    }

    /// The sum of two finite numbers, the first with the larger exponent.
    fn aligned_sum(a: Single, b: Single) -> (r: Single)
        requires
            a.finite(),
            b.finite(),
            rounding::exponent(a.pattern()) >= rounding::exponent(b.pattern()),
        ensures
            r == sum(a, b),
    {
        let (s1, e1) = a.parts();
        let (s2, e2) = b.parts();
        let neg1: bool = a.bits >= SIGN;
        let neg2: bool = b.bits >= SIGN;
        let gap: u32 = e1 - e2;
        let ghost exact = a.signed() + b.signed();
        let ghost n: nat = if exact < 0 { (-exact) as nat } else { exact as nat };
        proof {
            lemma_sizes();
            lemma_pow2_pos(e2 as nat);
            lemma_pow2_pos(gap as nat);
            lemma_pow2_adds(gap as nat, e2 as nat);
        }
        if gap <= 64 {
            let p = rounding::power_of_two(gap);
            proof {
                if gap < 64 {
                    lemma_pow2_strictly_increases(gap as nat, 64);
                }
                assert(s1 * p <= 0x100_0000 * 0x1_0000_0000_0000_0000) by (nonlinear_arith)
                    requires
                        0 <= s1 < 0x100_0000,
                        0 <= p <= 0x1_0000_0000_0000_0000,
                ;
            }
            let x: u128 = s1 as u128 * p;
            let y: u128 = s2 as u128;
            let ghost q = pow2(e2 as nat);
            assert(a.units() == x * q) by (nonlinear_arith)
                requires
                    a.units() == s1 * pow2(e1 as nat),
                    pow2(e1 as nat) == p * q,
                    x == s1 * p,
            ;
            assert((x + y) * q == x * q + y * q) by (nonlinear_arith);
            assert((x - y) * q == x * q - y * q) by (nonlinear_arith);
            assert((y - x) * q == y * q - x * q) by (nonlinear_arith);
            if neg1 == neg2 {
                assert(n == (x + y) * q);
                proof {
                    lemma_scaled_whole(n, (x + y) as nat, e2 as nat);
                    Self::lemma_sum_zero(x as int + y as int, q as int);
                }
                let m = rounding::assemble(x + y, e2 as i32, false);
                proof {
                    rounding::lemma_parts(0, 0);
                    rounding::lemma_exact(0, 1);
                    lemma_mul_basics(pow2(0) as int);
                }
                Self::make(neg1, m)
            } else if x == y {
                Self::make(false, 0)
            } else if x > y {
                assert(n == (x - y) * q);
                proof {
                    lemma_scaled_whole(n, (x - y) as nat, e2 as nat);
                    Self::lemma_sum_zero(x as int - y as int, q as int);
                }
                let m = rounding::assemble(x - y, e2 as i32, false);
                Self::make(neg1, m)
            } else {
                assert(n == (y - x) * q);
                proof {
                    lemma_scaled_whole(n, (y - x) as nat, e2 as nat);
                    Self::lemma_sum_zero(y as int - x as int, q as int);
                }
                let m = rounding::assemble(y - x, e2 as i32, false);
                Self::make(neg2, m)
            }
        } else {
            // The second number is below the last bit that the rounding looks at.
            let ghost v = b.units();
            let ghost q = pow2((e1 - 40) as nat);
            let x: u128 = s1 as u128 * 0x100_0000_0000;
            proof {
                lemma_pow2_pos((e1 - 40) as nat);
                lemma_pow2_adds(40, (e1 - 40) as nat);
                assert(a.units() == x * q) by (nonlinear_arith)
                    requires
                        a.units() == s1 * pow2(e1 as nat),
                        pow2(e1 as nat) == pow2(40) * q,
                        x == s1 * pow2(40),
                ;
                lemma_pow2_adds(24, e2 as nat);
                if 24 + e2 < e1 - 40 {
                    lemma_pow2_strictly_increases((24 + e2) as nat, (e1 - 40) as nat);
                }
                assert(v < pow2(24) * pow2(e2 as nat)) by (nonlinear_arith)
                    requires
                        v == s2 * pow2(e2 as nat),
                        s2 < pow2(24),
                        pow2(e2 as nat) > 0,
                ;
                assert(v == 0 <==> s2 == 0) by (nonlinear_arith)
                    requires
                        v == s2 * pow2(e2 as nat),
                        pow2(e2 as nat) > 0,
                ;
                assert(x * q >= q) by (nonlinear_arith)
                    requires
                        x >= 1,
                        q > 0,
                ;
                lemma_mul_basics(q as int);
                lemma_mul_basics(n as int);
                assert((x + 1) * q == x * q + q) by (nonlinear_arith);
                assert((x - 1) * q == x * q - q) by (nonlinear_arith);
            }
            let t: i32 = e1 as i32 - 40;
            if s2 == 0 {
                assert(rounding::scaled(n, 1, x as nat, t as int, false));
                Self::make(neg1, rounding::assemble(x, t, false))
            } else if neg1 == neg2 {
                assert(rounding::scaled(n, 1, x as nat, t as int, true));
                Self::make(neg1, rounding::assemble(x, t, true))
            } else {
                assert(rounding::scaled(n, 1, (x - 1) as nat, t as int, true));
                Self::make(neg1, rounding::assemble(x - 1, t, true))
            }
        }
    }

    /// Scaling keeps zero and what is above it.
    proof fn lemma_sum_zero(x: int, q: int)
        requires
            q > 0,
        ensures
            x * q == 0 <==> x == 0,
            x > 0 ==> x * q > 0,
    {
        assert(x * q == 0 <==> x == 0) by (nonlinear_arith)
            requires
                q > 0,
        ;
        assert(x > 0 ==> x * q > 0) by (nonlinear_arith)
            requires
                q > 0,
        ;
    }

    /// `self + other`
    pub fn plus(self, other: Single) -> (r: Single)
        ensures
            r == sum(self, other),
    {
        if self.is_nan() || other.is_nan() {
            return Single { bits: 0x7fc0_0000 };
        }
        let m: u32 = self.bits % SIGN;
        let n: u32 = other.bits % SIGN;
        if m == INFINITE {
            if n == INFINITE && (self.bits >= SIGN) != (other.bits >= SIGN) {
                return Single { bits: 0x7fc0_0000 };
            }
            return self;
        }
        if n == INFINITE {
            return other;
        }
        let (_s1, e1) = self.parts();
        let (_s2, e2) = other.parts();
        if e1 >= e2 {
            Self::aligned_sum(self, other)
        } else {
            Self::aligned_sum(other, self)
        }
    }

    /// `self - other`
    pub fn minus(self, other: Single) -> (r: Single)
        ensures
            r == difference(self, other),
    {
        self.plus(other.negated())
    }

    /// The whole part, held to the range from zero to `limit`.
    pub fn truncate(self, limit: u64) -> (r: u64)
        ensures
            r == truncated(self, limit as nat),
    {
        if self.is_nan() || self.bits >= SIGN {
            return 0;
        }
        let whole = self.shifted_whole(false);
        if whole > limit as u128 {
            limit
        } else {
            whole as u64
        }
    }

    /// Rounded to a whole number, halves upward, held to the range from zero
    /// to `limit`.
    pub fn round(self, limit: u64) -> (r: u64)
        ensures
            r == to_whole(self, limit as nat),
    {
        if self.is_nan() || self.bits >= SIGN {
            return 0;
        }
        let whole = self.shifted_whole(true);
        if whole > limit as u128 {
            limit
        } else {
            whole as u64
        }
    }

    /// The magnitude as a whole number, cut off or with halves rounded upward.
    /// A number beyond 64 bits may come out as any value beyond 64 bits.
    fn shifted_whole(self, upward: bool) -> (r: u128)
        requires
            !self.nan(),
        ensures
            ({
                let half: nat = if upward { pow2(148) } else { 0 };
                let whole = (self.units() + half) / pow2(149);
                r == whole || (r > u64::MAX && whole > u64::MAX)
            }),
    {
        let (s, e) = self.parts();
        let ghost u = self.units();
        let ghost half: nat = if upward { pow2(148) } else { 0 };
        proof {
            lemma_sizes();
            lemma_pow2_pos(148);
            lemma_pow2_unfold(149);
        }
        if e >= 149 {
            let shift: u32 = e - 149;
            let ghost q = pow2(shift as nat);
            proof {
                lemma_pow2_adds(shift as nat, 149);
                assert(u == (s * q) * pow2(149)) by (nonlinear_arith)
                    requires
                        u == s * pow2(e as nat),
                        pow2(e as nat) == q * pow2(149),
                ;
                lemma_fundamental_div_mod_converse(
                    (u + half) as int,
                    pow2(149) as int,
                    (s * q) as int,
                    half as int,
                );
            }
            if shift >= 64 {
                proof {
                    if shift > 64 {
                        lemma_pow2_strictly_increases(64, shift as nat);
                    }
                    assert(s * q >= 0x1_0000_0000_0000_0000) by (nonlinear_arith)
                        requires
                            s >= 1,
                            q >= 0x1_0000_0000_0000_0000,
                    ;
                }
                return u128::MAX;
            }
            let p = rounding::power_of_two(shift);
            proof {
                lemma_pow2_strictly_increases(shift as nat, 64);
                assert(s * p <= 0x100_0000 * 0x1_0000_0000_0000_0000) by (nonlinear_arith)
                    requires
                        0 <= s < 0x100_0000,
                        0 <= p <= 0x1_0000_0000_0000_0000,
                ;
            }
            s as u128 * p
        } else {
            let down: u32 = 149 - e;
            let ghost q = pow2(e as nat);
            let ghost p = pow2(down as nat);
            let ghost h: nat = if upward { pow2((down - 1) as nat) } else { 0 };
            proof {
                lemma_pow2_pos(e as nat);
                lemma_pow2_pos(down as nat);
                lemma_pow2_adds(down as nat, e as nat);
                lemma_pow2_adds((down - 1) as nat, e as nat);
                lemma_pow2_unfold(down as nat);
                assert(u + half == (s + h) * q) by (nonlinear_arith)
                    requires
                        u == s * q,
                        half == h * q,
                ;
                assert(pow2(149) == p * q);
                // The common factor cancels.
                let w = (s + h) / p as int;
                let rest = (s + h) % p as int;
                lemma_fundamental_div_mod((s + h) as int, p as int);
                assert(u + half == (p * q) * w + rest * q) by (nonlinear_arith)
                    requires
                        u + half == (s + h) * q,
                        s + h == p * w + rest,
                ;
                assert(0 <= rest * q < p * q) by (nonlinear_arith)
                    requires
                        0 <= rest < p,
                        q > 0,
                ;
                assert((p * q) * w == w * (p * q)) by (nonlinear_arith);
                lemma_fundamental_div_mod_converse(
                    (u + half) as int,
                    pow2(149) as int,
                    w,
                    rest * q,
                );
            }
            if down >= 120 {
                proof {
                    if down > 120 {
                        lemma_pow2_strictly_increases(120, down as nat);
                    }
                    lemma_basic_div((s + h) as int, p as int);
                }
                return 0;
            }
            let div = rounding::power_of_two(down);
            let add: u128 = if upward {
                rounding::power_of_two(down - 1)
            } else {
                0
            };
            proof {
                lemma_pow2_strictly_increases(down as nat, 120);
            }
            (s as u128 + add) / div
        }
    }

    /// The number nearest to the whole number `n`.
    pub fn from_u64(n: u64) -> (r: Single)
        ensures
            r == from_whole(n as nat),
    {
        proof {
            lemma_sizes();
            lemma_scaled_whole(n as nat * pow2(149), n as nat, 149);
        }
        Self::make(false, rounding::assemble(n as u128, 149, false))
    }

    /// Only the pattern zero stands for zero.
    proof fn lemma_zero(a: Single)
        ensures
            a.units() == 0 <==> a.pattern() == 0,
    {
        rounding::lemma_parts(0, 0);
        lemma_mul_basics(pow2(0) as int);
        rounding::lemma_increasing(0, a.pattern());
    }
}

} // verus!
