//! What holds of single precision numbers: which number a pattern stands for,
//! and that the result of each operation is the number closest to the exact
//! one.
use crate::rounding;
use crate::single;
use crate::single::Single;
use vstd::arithmetic::div_mod::*;
use vstd::arithmetic::mul::*;
use vstd::arithmetic::power2::*;
use vstd::prelude::*;

verus! {

/// The distance of two numbers.
pub open spec fn apart(a: int, b: int) -> int {
    if a < b {
        b - a
    } else {
        a - b
    }
}

/// A pattern is 8 bits of exponent and 23 of fraction. Exponent zero stands for
/// the fraction itself, any other for the fraction and a leading one, doubled
/// once less than the exponent says.
pub proof fn what_a_pattern_stands_for(exponent: nat, fraction: nat)
    requires
        exponent <= 255,
        fraction < 0x80_0000,
    ensures
        exponent == 0 ==> rounding::units(fraction) == fraction,
        exponent > 0 ==> rounding::units(exponent * 0x80_0000 + fraction) == (0x80_0000 + fraction)
            * pow2((exponent - 1) as nat),
{
    lemma2_to64();
    if exponent == 0 {
        rounding::lemma_parts(0, fraction);
        lemma_mul_basics(fraction as int);
    } else {
        rounding::lemma_parts((exponent - 1) as nat, 0x80_0000 + fraction);
    }
}

/// The kinds of numbers, by their bits.
pub proof fn kinds_of_numbers(a: Single)
    ensures
        a.negative() <==> a.bits >= 0x8000_0000,
        a.pattern() == (if a.bits >= 0x8000_0000 {
            a.bits - 0x8000_0000
        } else {
            a.bits as int
        }),
        a.finite() <==> a.pattern() < 0x7f80_0000,
        a.infinite() <==> a.pattern() == 0x7f80_0000,
        a.nan() <==> a.pattern() > 0x7f80_0000,
        a.units() == rounding::units(a.pattern()),
        a.signed() == (if a.bits >= 0x8000_0000 {
            -(a.units() as int)
        } else {
            a.units() as int
        }),
{
}

/// The nearest pattern is at least as close as any other, and even if another
/// one is as close.
pub proof fn no_pattern_is_closer(n: nat, d: nat, m: nat)
    requires
        d > 0,
        m <= 0x7f80_0000,
    ensures
        ({
            let k = rounding::nearest(n, d);
            let here = apart((rounding::units(k) * d) as int, n as int);
            let there = apart((rounding::units(m) * d) as int, n as int);
            &&& k <= 0x7f80_0000
            &&& here <= there
            &&& here == there && m != k ==> k % 2 == 0
        }),
{
    let k = rounding::nearest(n, d);
    rounding::lemma_nearest(n, d);
    let u = rounding::units(k);
    let v = rounding::units(m);
    if m < k {
        let l = (k - 1) as nat;
        let t = rounding::units(l);
        rounding::lemma_increasing(m, l);
        rounding::lemma_next(l);
        assert(v * d <= t * d && t * d < u * d && (t + u) * d == t * d + u * d) by (nonlinear_arith)
            requires
                v <= t,
                t < u,
                d > 0,
        ;
        if m < l {
            rounding::lemma_increasing(m + 1, l);
            rounding::lemma_next(m);
            assert(v * d < t * d) by (nonlinear_arith)
                requires
                    v < t,
                    d > 0,
            ;
        }
    } else if m > k {
        let h = k + 1;
        let t = rounding::units(h);
        rounding::lemma_increasing(h, m);
        rounding::lemma_next(k);
        assert(v * d >= t * d && t * d > u * d && (u + t) * d == u * d + t * d) by (nonlinear_arith)
            requires
                v >= t,
                t > u,
                d > 0,
        ;
        if h < m {
            rounding::lemma_next((m - 1) as nat);
            rounding::lemma_increasing(h, (m - 1) as nat);
            assert(v * d > t * d) by (nonlinear_arith)
                requires
                    v > t,
                    d > 0,
            ;
        }
    }
}

/// A signed number is at least as close to a signed quotient as any other, if
/// its pattern is the nearest one and it has the sign of the quotient.
proof fn lemma_closest(negative: bool, n: nat, d: nat, c: Single)
    requires
        d > 0,
        !c.nan(),
    ensures
        ({
            let r = single::rounded(negative, n, d);
            let exact: int = if negative {
                -(n as int)
            } else {
                n as int
            };
            &&& !r.nan() && r.negative() == negative
            &&& apart(r.signed() * d, exact) <= apart(c.signed() * d, exact)
            &&& apart(r.signed() * d, exact) == apart(c.signed() * d, exact) && c.signed()
                != r.signed() ==> r.pattern() % 2 == 0
        }),
{
    let k = rounding::nearest(n, d);
    no_pattern_is_closer(n, d, c.pattern());
    no_pattern_is_closer(n, d, 0);
    single::lemma_number(negative, k);
    rounding::lemma_parts(0, 0);
    lemma_mul_basics(pow2(0) as int);
    lemma_mul_basics(d as int);
    let r = single::rounded(negative, n, d);
    let u = r.units();
    let v = c.units();
    assert(u == rounding::units(k));
    assert((-u) * d == -(u * d) && (-v) * d == -(v * d) && v * d >= 0) by (nonlinear_arith)
        requires
            v >= 0,
            d > 0,
    ;
}

/// The sum of two finite numbers is the number closest to the exact one.
pub proof fn a_sum_is_the_closest_number(a: Single, b: Single, c: Single)
    requires
        a.finite(),
        b.finite(),
        !c.nan(),
    ensures
        ({
            let r = single::sum(a, b);
            &&& !r.nan()
            &&& apart(r.signed(), a.signed() + b.signed()) <= apart(
                c.signed(),
                a.signed() + b.signed(),
            )
            &&& apart(r.signed(), a.signed() + b.signed()) == apart(
                c.signed(),
                a.signed() + b.signed(),
            ) && c.signed() != r.signed() ==> r.pattern() % 2 == 0
            &&& a.signed() + b.signed() < 0 ==> r.negative()
            &&& a.signed() + b.signed() > 0 ==> !r.negative()
            &&& a.signed() + b.signed() == 0 ==> r.pattern() == 0 && (r.negative()
                <==> a.negative() && b.negative())
        }),
        single::sum(a, b) == single::sum(b, a),
{
    let exact = a.signed() + b.signed();
    let n = (if exact < 0 {
        -exact
    } else {
        exact
    }) as nat;
    lemma_closest(exact < 0, n, 1, c);
    rounding::lemma_parts(0, 0);
    lemma_mul_basics(pow2(0) as int);
    let r = single::sum(a, b);
    lemma_mul_basics(r.signed());
    lemma_mul_basics(c.signed());
    lemma_mul_basics(single::rounded(exact < 0, n, 1).signed());
    single::lemma_number(true, 0);
    single::lemma_number(false, 0);
}

/// What is not a number, or is infinite, in a sum.
pub proof fn sums_with_the_infinite(a: Single, b: Single)
    ensures
        a.nan() || b.nan() ==> single::sum(a, b).nan(),
        a.infinite() && !b.nan() && (b.finite() || b.negative() == a.negative()) ==> single::sum(
            a,
            b,
        ) == a,
        b.infinite() && a.finite() ==> single::sum(a, b) == b,
        a.infinite() && b.infinite() && a.negative() != b.negative() ==> single::sum(a, b).nan(),
{
}

/// A difference is the sum with the opposite number.
pub proof fn a_difference_is_a_sum(a: Single, b: Single)
    ensures
        single::difference(a, b) == single::sum(a, single::negation(b)),
        single::negation(b).negative() == !b.negative(),
        single::negation(b).pattern() == b.pattern(),
        single::negation(single::negation(b)) == b,
        single::negation(b).signed() == -b.signed(),
{
    single::lemma_number(!b.negative(), b.pattern());
}

/// The product of two finite numbers is the number closest to the exact one,
/// negative if their signs differ.
pub proof fn a_product_is_the_closest_number(a: Single, b: Single, c: Single)
    requires
        a.finite(),
        b.finite(),
        !c.nan(),
    ensures
        ({
            let r = single::product(a, b);
            let one = pow2(149);
            let exact = a.signed() * b.signed();
            &&& !r.nan()
            &&& r.negative() == (a.negative() != b.negative())
            &&& apart(r.signed() * one, exact) <= apart(c.signed() * one, exact)
            &&& apart(r.signed() * one, exact) == apart(c.signed() * one, exact) && c.signed()
                != r.signed() ==> r.pattern() % 2 == 0
        }),
        single::product(a, b) == single::product(b, a),
{
    let u = a.units();
    let v = b.units();
    lemma_pow2_pos(149);
    lemma_closest(a.negative() != b.negative(), u * v, pow2(149), c);
    lemma_mul_is_commutative(u as int, v as int);
    assert((-u) * v == -(u * v) && u * (-v) == -(u * v) && (-u) * (-v) == u * v)
        by (nonlinear_arith);
}

/// What is not a number, or is infinite, in a product.
pub proof fn products_with_the_infinite(a: Single, b: Single)
    ensures
        a.nan() || b.nan() ==> single::product(a, b).nan(),
        a.infinite() && !b.nan() && b.pattern() != 0 ==> single::product(a, b).infinite()
            && single::product(a, b).negative() == (a.negative() != b.negative()),
        b.infinite() && !a.nan() && a.pattern() != 0 ==> single::product(a, b).infinite()
            && single::product(a, b).negative() == (a.negative() != b.negative()),
        a.infinite() && b.pattern() == 0 ==> single::product(a, b).nan(),
        b.infinite() && a.pattern() == 0 ==> single::product(a, b).nan(),
{
    lemma_zero(a);
    lemma_zero(b);
    single::lemma_number(true, 0x7f80_0000);
}

/// Only the pattern zero stands for zero.
proof fn lemma_zero(a: Single)
    ensures
        a.units() == 0 <==> a.pattern() == 0,
{
    rounding::lemma_parts(0, 0);
    lemma_mul_basics(pow2(0) as int);
    rounding::lemma_increasing(0, a.pattern());
}

/// The quotient of two finite numbers is the number closest to the exact one,
/// negative if their signs differ.
pub proof fn a_quotient_is_the_closest_number(a: Single, b: Single, c: Single)
    requires
        a.finite(),
        b.finite(),
        b.pattern() != 0,
        !c.nan(),
    ensures
        ({
            let r = single::quotient(a, b);
            let d = b.units() as int;
            let exact: int = if b.negative() {
                -(a.signed() * pow2(149))
            } else {
                a.signed() * pow2(149)
            };
            &&& !r.nan()
            &&& r.negative() == (a.negative() != b.negative())
            &&& apart(r.signed() * d, exact) <= apart(c.signed() * d, exact)
            &&& apart(r.signed() * d, exact) == apart(c.signed() * d, exact) && c.signed()
                != r.signed() ==> r.pattern() % 2 == 0
        }),
{
    lemma_zero(b);
    let u = a.units();
    let p = pow2(149);
    lemma_closest(a.negative() != b.negative(), u * p, b.units(), c);
    assert((-u) * p == -(u * p)) by (nonlinear_arith);
}

/// What is not a number, infinite or zero in a quotient.
pub proof fn quotients_with_the_infinite(a: Single, b: Single)
    ensures
        a.nan() || b.nan() ==> single::quotient(a, b).nan(),
        a.infinite() && b.infinite() ==> single::quotient(a, b).nan(),
        a.infinite() && b.finite() ==> single::quotient(a, b).infinite() && single::quotient(
            a,
            b,
        ).negative() == (a.negative() != b.negative()),
        a.finite() && b.infinite() ==> single::quotient(a, b).pattern() == 0 && single::quotient(
            a,
            b,
        ).negative() == (a.negative() != b.negative()),
        a.pattern() == 0 && b.pattern() == 0 ==> single::quotient(a, b).nan(),
        a.finite() && a.pattern() != 0 && b.pattern() == 0 ==> single::quotient(a, b).infinite()
            && single::quotient(a, b).negative() == (a.negative() != b.negative()),
{
    lemma_zero(a);
    lemma_zero(b);
    single::lemma_number(true, 0x7f80_0000);
    single::lemma_number(true, 0);
}

/// Numbers are compared by what they stand for; what is not a number is neither
/// smaller nor larger than anything.
pub proof fn numbers_are_compared_by_value(a: Single, b: Single)
    ensures
        single::less(a, b) <==> !a.nan() && !b.nan() && a.signed() < b.signed(),
        single::at_most(a, b) <==> !a.nan() && !b.nan() && a.signed() <= b.signed(),
        !a.nan() && !b.nan() ==> (single::less(a, b) <==> !single::at_most(b, a)),
        !a.negative() && !b.negative() && !a.nan() && !b.nan() ==> (single::less(a, b) <==> a.bits
            < b.bits),
{
    if a.pattern() <= b.pattern() {
        rounding::lemma_increasing(a.pattern(), b.pattern());
    } else {
        rounding::lemma_increasing(b.pattern(), a.pattern());
    }
}

/// The smaller and the larger of two numbers are among them, and bound both;
/// what is not a number gives way.
pub proof fn smaller_and_larger_bound_both(a: Single, b: Single)
    ensures
        !a.nan() && !b.nan() ==> {
            let s = single::smaller(a, b);
            let l = single::larger(a, b);
            &&& s == a || s == b
            &&& l == a || l == b
            &&& single::at_most(s, a) && single::at_most(s, b)
            &&& single::at_most(a, l) && single::at_most(b, l)
        },
        a.nan() ==> single::smaller(a, b) == b && single::larger(a, b) == b,
        b.nan() ==> single::smaller(a, b) == (if a.nan() {
            b
        } else {
            a
        }) && single::larger(a, b) == (if a.nan() {
            b
        } else {
            a
        }),
{
}

/// The whole part of a number is the largest whole number that is not larger,
/// up to the limit; of what is negative or not a number it is zero.
pub proof fn the_whole_part_is_not_larger(a: Single, limit: nat)
    ensures
        ({
            let t = single::truncated(a, limit);
            let one = pow2(149);
            &&& t <= limit
            &&& a.nan() || a.negative() ==> t == 0
            &&& !a.nan() && !a.negative() ==> t * one <= a.units() && (t == limit || a.units() < (t
                + 1) * one)
        }),
{
    let one = pow2(149);
    lemma_pow2_pos(149);
    lemma_whole(a.units(), one, limit);
}

/// A quotient cut off, up to a limit.
proof fn lemma_whole(u: nat, one: nat, limit: nat)
    requires
        one > 0,
    ensures
        ({
            let q = u / one;
            let t = if q > limit {
                limit
            } else {
                q
            };
            t * one <= u && (t == limit || u < (t + 1) * one)
        }),
{
    let q = u / one;
    let r = u % one;
    lemma_fundamental_div_mod(u as int, one as int);
    assert(q * one <= u < (q + 1) * one) by (nonlinear_arith)
        requires
            u == one * q + r,
            0 <= r < one,
    ;
    if q > limit {
        assert(limit * one <= q * one) by (nonlinear_arith)
            requires
                limit <= q,
        ;
    }
}

/// A rounded number is at most half off, halves going upward, up to the limit;
/// of what is negative or not a number it is zero.
pub proof fn a_rounded_number_is_at_most_half_off(a: Single, limit: nat)
    ensures
        ({
            let t = single::to_whole(a, limit);
            let one = pow2(149);
            &&& t <= limit
            &&& a.nan() || a.negative() ==> t == 0
            &&& !a.nan() && !a.negative() ==> 2 * (t * one) <= 2 * a.units() + one && (t == limit
                || 2 * a.units() + one < 2 * ((t + 1) * one))
        }),
{
    let one = pow2(149);
    lemma_pow2_pos(149);
    lemma_pow2_unfold(149);
    lemma_whole(a.units() + pow2(148), one, limit);
}

/// The number of a whole number is the closest one.
pub proof fn the_number_of_a_whole_number(n: nat, c: Single)
    requires
        !c.nan(),
    ensures
        ({
            let r = single::from_whole(n);
            let exact = (n * pow2(149)) as int;
            &&& !r.nan() && !r.negative()
            &&& apart(r.signed(), exact) <= apart(c.signed(), exact)
            &&& apart(r.signed(), exact) == apart(c.signed(), exact) && c.signed() != r.signed()
                ==> r.pattern() % 2 == 0
        }),
{
    lemma_closest(false, n * pow2(149), 1, c);
    lemma_mul_basics(single::from_whole(n).signed());
    lemma_mul_basics(c.signed());
}

/// The pattern of a significand and a power of two, against a decimal.
proof fn lemma_decimal(e: nat, s: nat, n: nat, d: nat, k: nat)
    requires
        0x80_0000 < s < 0xff_ffff,
        e <= 252,
        e + k == 149,
        d > 0,
        ({
            let middle = 2 * n * pow2(k);
            (2 * s - 1) * d < middle < (2 * s + 1) * d
        }),
    ensures
        rounding::nearest(n * pow2(149), d) == e * 0x80_0000 + s,
{
    let m = e * 0x80_0000 + s;
    let p = pow2(e);
    let q = pow2(k);
    lemma_pow2_pos(e);
    lemma_pow2_adds(e, k);
    rounding::lemma_parts(e, s);
    rounding::lemma_parts(e, (s - 1) as nat);
    rounding::lemma_parts(e, s + 1);
    let x = n * pow2(149);
    assert(2 * x == (2 * n * q) * p) by (nonlinear_arith)
        requires
            x == n * pow2(149),
            pow2(149) == p * q,
    ;
    assert(2 * x > ((s - 1) * p + s * p) * d) by (nonlinear_arith)
        requires
            2 * x == (2 * n * q) * p,
            2 * n * q > (2 * s - 1) * d,
            p > 0,
    ;
    assert(2 * x < (s * p + (s + 1) * p) * d) by (nonlinear_arith)
        requires
            2 * x == (2 * n * q) * p,
            2 * n * q < (2 * s + 1) * d,
            p > 0,
    ;
    rounding::lemma_nearest_is(x, d, m);
}

/// The constants that are no sums of few powers of two are the numbers closest
/// to 0.35, 0.45, 1.4 and 1.8.
pub proof fn the_constants_are_the_closest_numbers()
    ensures
        rounding::nearest(35 * pow2(149), 100) == 0x3eb3_3333,
        rounding::nearest(45 * pow2(149), 100) == 0x3ee6_6666,
        rounding::nearest(14 * pow2(149), 10) == 0x3fb3_3333,
        rounding::nearest(18 * pow2(149), 10) == 0x3fe6_6666,
{
    lemma2_to64();
    lemma_decimal(124, 0xb3_3333, 35, 100, 25);
    lemma_decimal(124, 0xe6_6666, 45, 100, 25);
    lemma_decimal(126, 0xb3_3333, 14, 10, 23);
    lemma_decimal(126, 0xe6_6666, 18, 10, 23);
}

} // verus!
