//! Rounding to the magnitudes of IEEE 754 single precision.
//!
//! A magnitude is written as its bit pattern without the sign, from `0` (zero)
//! to [`INFINITE`]. Every finite magnitude is a whole multiple of 2^-149, and
//! the patterns are ordered as the magnitudes are, so a magnitude is modelled
//! here by that multiple, [`units`].
use vstd::arithmetic::div_mod::*;
use vstd::arithmetic::mul::*;
use vstd::arithmetic::power2::*;
use vstd::prelude::*;

verus! {

/// The pattern of infinity: one above the largest finite magnitude.
pub const INFINITE: u32 = 0x7f80_0000;

/// The smallest significand of a magnitude with the full 24 bits.
pub const HIDDEN: u32 = 0x80_0000;

/// The power of two by which the significand of pattern `m` is scaled.
pub open spec fn exponent(m: nat) -> nat {
    if m < HIDDEN {
        0
    } else {
        (m / HIDDEN as nat - 1) as nat
    }
}

/// The significand of pattern `m`, the hidden bit included.
pub open spec fn significand(m: nat) -> nat {
    (m - exponent(m) * HIDDEN) as nat
}

/// The magnitude of pattern `m`, in multiples of 2^-149. Infinity counts as
/// the magnitude that would follow the largest finite one.
pub open spec fn units(m: nat) -> nat {
    significand(m) * pow2(exponent(m))
}

/// Whether `m` is the pattern nearest to the quotient `n / d` of units, a tie
/// going to the even pattern.
pub open spec fn is_nearest(n: nat, d: nat, m: nat) -> bool {
    &&& m <= INFINITE
    &&& m > 0 ==> {
        let middle = (units((m - 1) as nat) + units(m)) * d;
        2 * n > middle || (2 * n == middle && m % 2 == 0)
    }
    &&& m < INFINITE ==> {
        let middle = (units(m) + units(m + 1)) * d;
        2 * n < middle || (2 * n == middle && m % 2 == 0)
    }
}

/// The pattern to which the quotient `n / d` of units is rounded.
pub open spec fn nearest(n: nat, d: nat) -> nat {
    choose|m: nat| is_nearest(n, d, m)
}

/// A significand and an exponent in range are the parts of the pattern that
/// they make up.
pub proof fn lemma_parts(e: nat, s: nat)
    requires
        s < 2 * HIDDEN,
        e == 0 || HIDDEN <= s,
    ensures
        exponent(e * HIDDEN as nat + s) == e,
        significand(e * HIDDEN as nat + s) == s,
        units(e * HIDDEN as nat + s) == s * pow2(e),
{
    let m = e * HIDDEN as nat + s;
    if s >= HIDDEN {
        assert(m / HIDDEN as nat == e + 1) by {
            lemma_fundamental_div_mod_converse(m as int, HIDDEN as int, (e + 1) as int, s - HIDDEN);
        }
    }
}

/// The parts of a pattern are in range.
pub proof fn lemma_range(m: nat)
    ensures
        significand(m) < 2 * HIDDEN,
        exponent(m) == 0 || HIDDEN <= significand(m),
        m == exponent(m) * HIDDEN as nat + significand(m),
        m <= INFINITE ==> exponent(m) <= 254,
        m < INFINITE ==> exponent(m) <= 253,
{
    lemma_fundamental_div_mod(m as int, HIDDEN as int);
}

/// Neighbouring patterns are one step of the lower one's exponent apart.
pub proof fn lemma_next(m: nat)
    ensures
        units(m + 1) == units(m) + pow2(exponent(m)),
        units(m) < units(m + 1),
{
    let e = exponent(m);
    let s = significand(m);
    lemma_range(m);
    lemma_pow2_pos(e);
    assert((s + 1) * pow2(e) == s * pow2(e) + pow2(e)) by (nonlinear_arith);
    if s + 1 < 2 * HIDDEN {
        lemma_parts(e, s + 1);
    } else {
        lemma_parts(e + 1, HIDDEN as nat);
        lemma_pow2_unfold(e + 1);
        assert((e + 1) * HIDDEN as nat + HIDDEN as nat == m + 1) by (nonlinear_arith)
            requires
                m == e * HIDDEN as nat + s,
                s + 1 == 2 * HIDDEN,
        ;
        assert(HIDDEN as nat * (2 * pow2(e)) == (2 * HIDDEN as nat) * pow2(e)) by (nonlinear_arith);
    }
}

/// A larger pattern stands for a larger magnitude.
pub proof fn lemma_increasing(a: nat, b: nat)
    requires
        a <= b,
    ensures
        units(a) <= units(b),
        a < b ==> units(a) < units(b),
    decreases b - a,
{
    if a < b {
        lemma_increasing(a, (b - 1) as nat);
        lemma_next((b - 1) as nat);
    }
}

/// Between two neighbouring patterns the middle decides.
pub proof fn lemma_between(n: nat, d: nat, m: nat)
    requires
        d > 0,
        m < INFINITE,
        units(m) * d <= n < units(m + 1) * d,
    ensures
        2 * n < (units(m) + units(m + 1)) * d ==> is_nearest(n, d, m),
        2 * n > (units(m) + units(m + 1)) * d ==> is_nearest(n, d, m + 1),
        2 * n == (units(m) + units(m + 1)) * d && m % 2 == 0 ==> is_nearest(n, d, m),
        2 * n == (units(m) + units(m + 1)) * d && m % 2 == 1 ==> is_nearest(n, d, m + 1),
{
    lemma_next(m);
    lemma_next(m + 1);
    let u = units(m);
    let v = units(m + 1);
    let w = units(m + 2);
    assert((m + 1) + 1 == m + 2);
    assert(2 * n < (v + w) * d) by (nonlinear_arith)
        requires
            n < v * d,
            v < w,
            d > 0,
    ;
    if m > 0 {
        lemma_next((m - 1) as nat);
        let t = units((m - 1) as nat);
        assert(2 * n > (t + u) * d) by (nonlinear_arith)
            requires
                n >= u * d,
                t < u,
                d > 0,
        ;
    }
}

/// From the step above the largest finite magnitude on, everything is
/// infinite.
pub proof fn lemma_overflow(n: nat, d: nat)
    requires
        d > 0,
        n >= units(INFINITE as nat) * d,
    ensures
        is_nearest(n, d, INFINITE as nat),
{
    let m = INFINITE as nat;
    lemma_next((m - 1) as nat);
    let t = units((m - 1) as nat);
    let u = units(m);
    assert(2 * n > (t + u) * d) by (nonlinear_arith)
        requires
            n >= u * d,
            t < u,
            d > 0,
    ;
}

/// At most one pattern is the nearest one, and a larger quotient is never
/// rounded to a smaller pattern.
pub proof fn lemma_monotone(n1: nat, d1: nat, a: nat, n2: nat, d2: nat, b: nat)
    requires
        d1 > 0,
        d2 > 0,
        n1 * d2 <= n2 * d1,
        is_nearest(n1, d1, a),
        is_nearest(n2, d2, b),
    ensures
        a <= b,
{
    if a > b {
        let x = units((a - 1) as nat) + units(a);
        let y = units(b) + units(b + 1);
        lemma_increasing(b, (a - 1) as nat);
        lemma_increasing(b + 1, a);
        assert(2 * n1 * d2 >= x * d1 * d2) by (nonlinear_arith)
            requires
                2 * n1 >= x * d1,
        ;
        assert(2 * n2 * d1 <= y * d2 * d1) by (nonlinear_arith)
            requires
                2 * n2 <= y * d2,
        ;
        assert(y * d2 * d1 == y * (d1 * d2)) by (nonlinear_arith);
        assert(x * d1 * d2 == x * (d1 * d2)) by (nonlinear_arith);
        assert(2 * n1 * d2 == 2 * (n1 * d2)) by (nonlinear_arith);
        assert(2 * n2 * d1 == 2 * (n2 * d1)) by (nonlinear_arith);
        let p = d1 * d2;
        assert(p > 0) by (nonlinear_arith)
            requires
                d1 > 0,
                d2 > 0,
                p == d1 * d2,
        ;
        assert(x <= y) by (nonlinear_arith)
            requires
                x * p <= y * p,
                p > 0,
        ;
        if b + 1 < a {
            lemma_increasing(b + 1, (a - 1) as nat);
            lemma_next((a - 1) as nat);
            lemma_next(b);
            assert(false);
        }
        assert(2 * n1 == x * d1) by (nonlinear_arith)
            requires
                2 * (n1 * d2) == x * (d1 * d2),
                2 * n1 >= x * d1,
                d2 > 0,
        ;
        assert(2 * n2 == y * d2) by (nonlinear_arith)
            requires
                2 * (n2 * d1) == y * (d1 * d2),
                2 * n2 <= y * d2,
                d1 > 0,
        ;
        assert(a % 2 == 0 && b % 2 == 0);
        assert(false);
    }
}

/// Some pattern up to `m` is the nearest one to a quotient below the
/// magnitude of `m`.
proof fn lemma_exists_below(n: nat, d: nat, m: nat)
    requires
        d > 0,
        m <= INFINITE,
        n < units(m) * d,
    ensures
        exists|k: nat| is_nearest(n, d, k),
    decreases m,
{
    if m == 0 {
        assert(units(0) == 0) by {
            lemma_parts(0, 0);
            lemma_mul_basics(pow2(0) as int);
        }
        assert(units(m) * d == 0) by (nonlinear_arith)
            requires
                units(m) == 0,
        ;
    } else {
        let l = (m - 1) as nat;
        if n < units(l) * d {
            lemma_exists_below(n, d, l);
        } else {
            lemma_between(n, d, l);
            assert(is_nearest(n, d, l) || is_nearest(n, d, l + 1));
        }
    }
}

/// Every quotient has a nearest pattern.
pub proof fn lemma_nearest(n: nat, d: nat)
    requires
        d > 0,
    ensures
        is_nearest(n, d, nearest(n, d)),
        nearest(n, d) <= INFINITE,
{
    if n >= units(INFINITE as nat) * d {
        lemma_overflow(n, d);
    } else {
        lemma_exists_below(n, d, INFINITE as nat);
    }
}

/// The nearest pattern is the only one.
pub proof fn lemma_nearest_is(n: nat, d: nat, m: nat)
    requires
        d > 0,
        is_nearest(n, d, m),
    ensures
        nearest(n, d) == m,
{
    lemma_nearest(n, d);
    lemma_monotone(n, d, m, n, d, nearest(n, d));
    lemma_monotone(n, d, nearest(n, d), n, d, m);
}

/// Equal quotients are rounded alike.
pub proof fn lemma_same_quotient(n1: nat, d1: nat, n2: nat, d2: nat)
    requires
        d1 > 0,
        d2 > 0,
        n1 * d2 == n2 * d1,
    ensures
        nearest(n1, d1) == nearest(n2, d2),
{
    lemma_nearest(n1, d1);
    lemma_nearest(n2, d2);
    lemma_monotone(n1, d1, nearest(n1, d1), n2, d2, nearest(n2, d2));
    lemma_monotone(n2, d2, nearest(n2, d2), n1, d1, nearest(n1, d1));
}

/// A magnitude that a pattern stands for is rounded to that pattern.
pub proof fn lemma_exact(m: nat, d: nat)
    requires
        d > 0,
        m <= INFINITE,
    ensures
        nearest(units(m) * d, d) == m,
{
    if m == INFINITE {
        lemma_overflow(units(m) * d, d);
    } else {
        lemma_next(m);
        let u = units(m);
        let v = units(m + 1);
        assert(u * d < v * d && 2 * (u * d) < (u + v) * d) by (nonlinear_arith)
            requires
                u < v,
                d > 0,
        ;
        lemma_between(u * d, d, m);
    }
    lemma_nearest_is(units(m) * d, d, m);
}

/// A quotient that reaches the middle below an even pattern, or lies above it,
/// is rounded to that pattern at least.
pub proof fn lemma_at_least(n: nat, d: nat, m: nat)
    requires
        d > 0,
        0 < m <= INFINITE,
        m % 2 == 0,
        2 * n >= (units((m - 1) as nat) + units(m)) * d,
    ensures
        nearest(n, d) >= m,
{
    let p = nearest(n, d);
    lemma_nearest(n, d);
    if p < m {
        lemma_increasing(p, (m - 1) as nat);
        lemma_increasing(p + 1, m);
        let x = units(p) + units(p + 1);
        let y = units((m - 1) as nat) + units(m);
        assert(x * d <= y * d) by (nonlinear_arith)
            requires
                x <= y,
        ;
        if p < m - 1 {
            lemma_increasing(p, (m - 1) as nat);
            assert(x * d < y * d) by (nonlinear_arith)
                requires
                    x < y,
                    d > 0,
            ;
        }
    }
}

/// Exponents grow with the patterns.
pub proof fn lemma_exponent_grows(a: nat, b: nat)
    requires
        a <= b,
    ensures
        exponent(a) <= exponent(b),
{
    lemma_div_is_ordered(a as int, b as int, HIDDEN as int);
}

/// A quotient that is at most the magnitude of a pattern is rounded to at most
/// that pattern, and one that is at least the magnitude to at least it.
pub proof fn lemma_bounds(n: nat, d: nat, m: nat)
    requires
        d > 0,
        m <= INFINITE,
    ensures
        n <= units(m) * d ==> nearest(n, d) <= m,
        n >= units(m) * d ==> nearest(n, d) >= m,
{
    let u = units(m) * d;
    lemma_exact(m, d);
    lemma_nearest(n, d);
    lemma_nearest(u, d);
    if n <= u {
        assert(n * d <= u * d) by (nonlinear_arith)
            requires
                n <= u,
        ;
        lemma_monotone(n, d, nearest(n, d), u, d, m);
    }
    if n >= u {
        assert(n * d >= u * d) by (nonlinear_arith)
            requires
                n >= u,
        ;
        lemma_monotone(u, d, m, n, d, nearest(n, d));
    }
}

/// Whether `sig * 2^t` is the quotient `n / d` of units cut off below its last
/// bit, `sticky` telling whether anything was cut off.
pub open spec fn scaled(n: nat, d: nat, sig: nat, t: int, sticky: bool) -> bool {
    let up = pow2(if t > 0 { t as nat } else { 0 });
    let down = pow2(if t < 0 { (-t) as nat } else { 0 });
    &&& sig * (up * d) <= n * down < (sig + 1) * (up * d)
    &&& sticky <==> n * down != sig * (up * d)
}

/// The bits that are cut off decide as the middle between the two neighbours
/// does.
proof fn lemma_assemble(n: nat, d: nat, sig: nat, t: int, sticky: bool, e: nat, r: nat)
    requires
        d > 0,
        scaled(n, d, sig, t, sticky),
        r > 0,
        e == t + r,
        e <= 253,
        sig / pow2(r) < 2 * HIDDEN,
        e == 0 || HIDDEN <= sig / pow2(r),
    ensures
        ({
            let s = sig / pow2(r);
            let rem = sig % pow2(r);
            let half = pow2((r - 1) as nat);
            let m = e * HIDDEN as nat + s;
            if rem > half || (rem == half && (sticky || s % 2 == 1)) {
                nearest(n, d) == m + 1
            } else {
                nearest(n, d) == m
            }
        }),
{
    let up = pow2(if t > 0 { t as nat } else { 0 });
    let down = pow2(if t < 0 { (-t) as nat } else { 0 });
    let p = pow2(r);
    let half = pow2((r - 1) as nat);
    let s = sig / p;
    let rem = sig % p;
    let m = e * HIDDEN as nat + s;
    let step = pow2(e);
    lemma_pow2_pos(r);
    lemma_pow2_pos(if t > 0 { t as nat } else { 0 });
    lemma_pow2_pos(if t < 0 { (-t) as nat } else { 0 });
    lemma_pow2_unfold(r);
    lemma_fundamental_div_mod(sig as int, p as int);
    assert(sig == s * p + rem) by (nonlinear_arith)
        requires
            sig == p * s + rem,
    ;
    assert(step * down == p * up) by {
        if t > 0 {
            lemma_pow2_adds(r, t as nat);
            assert(pow2(0) == 1) by {
                lemma2_to64();
            }
        } else {
            lemma_pow2_adds(e, (-t) as nat);
            assert(pow2(0) == 1) by {
                lemma2_to64();
            }
        }
    }
    lemma_parts(e, s);
    lemma_next(m);
    assert(units(m) == s * step && units(m + 1) == s * step + step);
    assert(m % 2 == s % 2);
    let g = up * d;
    assert(g > 0) by (nonlinear_arith)
        requires
            g == up * d,
            up > 0,
            d > 0,
    ;
    let big = step * d;
    assert(big * down == p * g) by (nonlinear_arith)
        requires
            big == step * d,
            g == up * d,
            step * down == p * up,
    ;
    assert(units(m) * d == s * big) by (nonlinear_arith)
        requires
            units(m) == s * step,
            big == step * d,
    ;
    assert(units(m + 1) * d == (s + 1) * big) by (nonlinear_arith)
        requires
            units(m + 1) == s * step + step,
            big == step * d,
    ;
    let middle = (units(m) + units(m + 1)) * d;
    assert(middle == (2 * s + 1) * big) by (nonlinear_arith)
        requires
            middle == (units(m) + units(m + 1)) * d,
            units(m) * d == s * big,
            units(m + 1) * d == (s + 1) * big,
    ;
    let nb = n * down;
    // Everything is compared after scaling by `down`.
    assert((s * big) * down == (s * p) * g) by (nonlinear_arith)
        requires
            big * down == p * g,
    ;
    assert(((s + 1) * big) * down == (s * p + p) * g) by (nonlinear_arith)
        requires
            big * down == p * g,
    ;
    assert(middle * down == 2 * ((s * p + half) * g)) by (nonlinear_arith)
        requires
            big * down == p * g,
            middle == (2 * s + 1) * big,
            p == 2 * half,
    ;
    assert((s * p) * g <= sig * g) by (nonlinear_arith)
        requires
            s * p <= sig,
            g > 0,
    ;
    assert((sig + 1) * g <= (s * p + p) * g) by (nonlinear_arith)
        requires
            sig + 1 <= s * p + p,
            g > 0,
    ;
    assert(s * big <= n) by (nonlinear_arith)
        requires
            (s * big) * down <= n * down,
            down > 0,
    ;
    assert(n < (s + 1) * big) by (nonlinear_arith)
        requires
            n * down < ((s + 1) * big) * down,
            down > 0,
    ;
    lemma_between(n, d, m);
    assert((2 * n) * down == 2 * nb) by (nonlinear_arith)
        requires
            nb == n * down,
    ;
    if rem < half {
        assert((sig + 1) * g <= (s * p + half) * g) by (nonlinear_arith)
            requires
                sig + 1 <= s * p + half,
                g > 0,
        ;
        assert(2 * n < middle) by (nonlinear_arith)
            requires
                (2 * n) * down < middle * down,
                down > 0,
        ;
        lemma_nearest_is(n, d, m);
    } else if rem > half {
        assert(sig * g >= (s * p + half) * g + g) by (nonlinear_arith)
            requires
                sig >= s * p + half + 1,
                g > 0,
        ;
        assert(2 * n > middle) by (nonlinear_arith)
            requires
                (2 * n) * down > middle * down,
                down > 0,
        ;
        lemma_nearest_is(n, d, m + 1);
    } else {
        assert(sig * g == (s * p + half) * g);
        if sticky {
            assert(2 * n > middle) by (nonlinear_arith)
                requires
                    (2 * n) * down > middle * down,
                    down > 0,
            ;
            lemma_nearest_is(n, d, m + 1);
        } else {
            assert(2 * n == middle) by (nonlinear_arith)
                requires
                    (2 * n) * down == middle * down,
                    down > 0,
            ;
            if s % 2 == 1 {
                lemma_nearest_is(n, d, m + 1);
            } else {
                lemma_nearest_is(n, d, m);
            }
        }
    }
}

/// A quotient whose leading bit is worth 2^277 units or more is infinite.
proof fn lemma_too_large(n: nat, d: nat, sig: nat, t: int, sticky: bool, len: nat)
    requires
        d > 0,
        scaled(n, d, sig, t, sticky),
        len > 0,
        pow2((len - 1) as nat) <= sig,
        len + t >= 278,
    ensures
        nearest(n, d) == INFINITE,
{
    let up = pow2(if t > 0 { t as nat } else { 0 });
    let down = pow2(if t < 0 { (-t) as nat } else { 0 });
    let lead = pow2((len - 1) as nat);
    lemma_pow2_pos(if t > 0 { t as nat } else { 0 });
    lemma_pow2_pos(if t < 0 { (-t) as nat } else { 0 });
    assert(pow2(0) == 1 && pow2(23) == HIDDEN) by {
        lemma2_to64();
    }
    lemma_parts(254, HIDDEN as nat);
    lemma_pow2_adds(23, 254);
    let top = units(INFINITE as nat);
    assert(top == pow2(277));
    assert(lead * up >= top * down) by {
        lemma_mul_basics(lead as int);
        lemma_mul_basics(top as int);
        if t > 0 {
            lemma_pow2_adds((len - 1) as nat, t as nat);
            if len - 1 + t > 277 {
                lemma_pow2_strictly_increases(277, (len - 1 + t) as nat);
            }
        } else {
            lemma_pow2_adds(277, (-t) as nat);
            if len - 1 > 277 - t {
                lemma_pow2_strictly_increases((277 - t) as nat, (len - 1) as nat);
            }
        }
    }
    assert(n * down >= top * d * down) by (nonlinear_arith)
        requires
            n * down >= sig * (up * d),
            sig >= lead,
            lead * up >= top * down,
            d > 0,
    ;
    assert(n >= top * d) by (nonlinear_arith)
        requires
            n * down >= top * d * down,
            down > 0,
    ;
    lemma_overflow(n, d);
    lemma_nearest_is(n, d, INFINITE as nat);
}

/// A quotient below half a unit is rounded to zero.
proof fn lemma_too_small(n: nat, d: nat, sig: nat, t: int, sticky: bool)
    requires
        d > 0,
        scaled(n, d, sig, t, sticky),
        t < 0,
        2 * (sig + 1) <= pow2((-t) as nat),
    ensures
        nearest(n, d) == 0,
{
    let down = pow2((-t) as nat);
    assert(pow2(0) == 1) by {
        lemma2_to64();
    }
    lemma_mul_basics(d as int);
    lemma_parts(0, 0);
    lemma_parts(0, 1);
    assert((units(0) + units(1)) * d == d);
    assert(2 * n < d) by (nonlinear_arith)
        requires
            n * down < (sig + 1) * d,
            2 * (sig + 1) <= down,
            d > 0,
    ;
    lemma_nearest_is(n, d, 0);
}

/// Nothing but what was cut off is rounded to zero.
proof fn lemma_nothing(n: nat, d: nat, t: int, sticky: bool)
    requires
        d > 0,
        scaled(n, d, 0, t, sticky),
        sticky ==> t < 0,
    ensures
        nearest(n, d) == 0,
{
    if sticky {
        lemma2_to64();
        if t < -1 {
            lemma_pow2_strictly_increases(1, (-t) as nat);
        }
        lemma_too_small(n, d, 0, t, sticky);
    } else {
        let up = pow2(if t > 0 { t as nat } else { 0 });
        let down = pow2(if t < 0 { (-t) as nat } else { 0 });
        lemma_pow2_pos(if t < 0 { (-t) as nat } else { 0 });
        assert(n == 0) by (nonlinear_arith)
            requires
                n * down == 0 * (up * d),
                down > 0,
        ;
        lemma_parts(0, 0);
        lemma_exact(0, d);
        lemma_mul_basics(pow2(0) as int);
        lemma_mul_basics(d as int);
    }
}

/// An exact product of a small significand is a magnitude of its own.
proof fn lemma_whole(n: nat, d: nat, sig: nat, t: nat, e: nat)
    requires
        d > 0,
        scaled(n, d, sig, t as int, false),
        e <= t,
        e <= 253,
        sig * pow2((t - e) as nat) < 2 * HIDDEN,
        e == 0 || HIDDEN <= sig * pow2((t - e) as nat),
    ensures
        nearest(n, d) == e * HIDDEN as nat + sig * pow2((t - e) as nat),
{
    let s = sig * pow2((t - e) as nat);
    let m = e * HIDDEN as nat + s;
    assert(pow2(0) == 1) by {
        lemma2_to64();
    }
    lemma_parts(e, s);
    lemma_pow2_adds((t - e) as nat, e);
    lemma_mul_basics(n as int);
    assert(n == units(m) * d) by (nonlinear_arith)
        requires
            n == sig * (pow2(t) * d),
            pow2(t) == pow2((t - e) as nat) * pow2(e),
            units(m) == s * pow2(e),
            s == sig * pow2((t - e) as nat),
    ;
    lemma_exact(m, d);
}

/// The power of two with exponent `e`.
pub fn power_of_two(e: u32) -> (p: u128)
    requires
        e < 128,
    ensures
        p == pow2(e as nat),
{
    let mut p: u128 = 1;
    let mut i: u32 = 0;
    assert(pow2(0) == 1 && pow2(127) == 0x8000_0000_0000_0000_0000_0000_0000_0000) by {
        lemma2_to64();
        lemma2_to64_rest();
        lemma_pow2_adds(63, 64);
    }
    while i < e
        invariant
            i <= e < 128,
            p == pow2(i as nat),
            pow2(127) == 0x8000_0000_0000_0000_0000_0000_0000_0000,
        decreases e - i,
    {
        proof {
            lemma_pow2_unfold((i + 1) as nat);
            if i + 1 < 127 {
                lemma_pow2_strictly_increases((i + 1) as nat, 127);
            }
        }
        p = p * 2;
        i = i + 1;
    }
    p
}

/// The number of bits up to the leading one of `sig`.
fn bit_length(sig: u128) -> (len: u32)
    requires
        sig < pow2(120),
    ensures
        len <= 120,
        sig < pow2(len as nat),
        len > 0 ==> pow2((len - 1) as nat) <= sig,
{
    let mut len: u32 = 0;
    let mut p: u128 = 1;
    assert(pow2(0) == 1 && pow2(120) == 0x100_0000_0000_0000_0000_0000_0000_0000) by {
        lemma2_to64();
        lemma2_to64_rest();
        lemma_pow2_adds(60, 60);
    }
    while p <= sig
        invariant
            sig < pow2(120),
            pow2(120) == 0x100_0000_0000_0000_0000_0000_0000_0000,
            len <= 120,
            p == pow2(len as nat),
            len > 0 ==> pow2((len - 1) as nat) <= sig,
        decreases 120 - len,
    {
        proof {
            if len == 120 {
                assert(false);
            }
            lemma_pow2_unfold((len + 1) as nat);
        }
        p = p * 2;
        len = len + 1;
    }
    len
}

/// The pattern nearest to `sig * 2^t` units and whatever was cut off below the
/// last bit of `sig`.
pub fn assemble(sig: u128, t: i32, sticky: bool) -> (m: u32)
    requires
        sig < pow2(120),
        -2000 <= t <= 2000,
        sticky ==> t < 0 || sig >= pow2(25),
    ensures
        m <= INFINITE,
        forall|n: nat, d: nat|
            d > 0 && #[trigger] scaled(n, d, sig as nat, t as int, sticky) ==> nearest(n, d) == m,
{
    if sig == 0 {
        proof {
            assert forall|n: nat, d: nat|
                d > 0 && #[trigger] scaled(n, d, sig as nat, t as int, sticky) implies nearest(
                n,
                d,
            ) == 0 by {
                lemma_pow2_pos(25);
                lemma_nothing(n, d, t as int, sticky);
            }
        }
        return 0;
    }
    let len = bit_length(sig);
    assert(pow2(0) == 1) by {
        lemma2_to64();
    }
    let lead: i32 = len as i32 + t;
    let e: i32 = if lead > 24 {
        lead - 24
    } else {
        0
    };
    proof {
        if sticky && t >= 0 && len < 26 {
            if len < 25 {
                lemma_pow2_strictly_increases(len as nat, 25);
            }
        }
    }
    if e >= 254 {
        proof {
            assert forall|n: nat, d: nat|
                d > 0 && #[trigger] scaled(n, d, sig as nat, t as int, sticky) implies nearest(
                n,
                d,
            ) == INFINITE by {
                lemma_too_large(n, d, sig as nat, t as int, sticky, len as nat);
            }
        }
        return INFINITE;
    }
    assert(pow2(24) == 2 * HIDDEN && pow2(23) == HIDDEN && pow2(0) == 1) by {
        lemma2_to64();
    }
    if e <= t {
        let shift: u32 = (t - e) as u32;
        let p = power_of_two(shift);
        let ghost q = pow2(shift as nat);
        proof {
            assert(len + shift <= 24);
            lemma_pow2_adds(len as nat, shift as nat);
            if len + shift < 24 {
                lemma_pow2_strictly_increases((len + shift) as nat, 24);
            }
            lemma_pow2_pos(shift as nat);
            assert(sig * q < pow2(len as nat) * q) by (nonlinear_arith)
                requires
                    sig < pow2(len as nat),
                    q > 0,
            ;
            if e > 0 {
                lemma_pow2_adds((len - 1) as nat, shift as nat);
                assert(sig * q >= pow2((len - 1) as nat) * q) by (nonlinear_arith)
                    requires
                        sig >= pow2((len - 1) as nat),
                ;
            }
        }
        let s: u32 = (sig * p) as u32;
        let m: u32 = e as u32 * HIDDEN + s;
        proof {
            assert forall|n: nat, d: nat|
                d > 0 && #[trigger] scaled(n, d, sig as nat, t as int, sticky) implies nearest(
                n,
                d,
            ) == m by {
                lemma_whole(n, d, sig as nat, t as nat, e as nat);
            }
        }
        return m;
    }
    let r: u32 = (e - t) as u32;
    if r >= 121 {
        proof {
            assert forall|n: nat, d: nat|
                d > 0 && #[trigger] scaled(n, d, sig as nat, t as int, sticky) implies nearest(
                n,
                d,
            ) == 0 by {
                lemma_pow2_unfold(121);
                if r > 121 {
                    lemma_pow2_strictly_increases(121, r as nat);
                }
                lemma_too_small(n, d, sig as nat, t as int, sticky);
            }
        }
        return 0;
    }
    let p = power_of_two(r);
    let half = power_of_two(r - 1);
    proof {
        lemma_pow2_pos(r as nat);
        if e > 0 {
            assert(r == len - 24);
            lemma_pow2_adds(r as nat, 24);
            lemma_pow2_adds(r as nat, 23);
            assert(sig / p >= HIDDEN) by {
                lemma_div_is_ordered(
                    (HIDDEN as int) * (p as int),
                    sig as int,
                    p as int,
                );
                lemma_div_by_multiple(HIDDEN as int, p as int);
                assert(p as int * HIDDEN as int == HIDDEN as int * p as int) by (nonlinear_arith);
            }
        } else {
            assert(len <= 24 + r);
            lemma_pow2_adds(r as nat, 24);
            if len < 24 + r {
                lemma_pow2_strictly_increases(len as nat, (r + 24) as nat);
            }
        }
        assert(sig / p < 2 * HIDDEN) by {
            lemma_multiply_divide_lt(sig as int, p as int, 2 * HIDDEN);
        }
    }
    let s: u32 = (sig / p) as u32;
    let rem: u128 = sig % p;
    let m: u32 = e as u32 * HIDDEN + s;
    let up: bool = rem > half || (rem == half && (sticky || s % 2 == 1));
    proof {
        assert forall|n: nat, d: nat|
            d > 0 && #[trigger] scaled(n, d, sig as nat, t as int, sticky) implies nearest(n, d) == (
        if up {
            m + 1
        } else {
            m as int
        }) by {
            lemma_assemble(n, d, sig as nat, t as int, sticky, e as nat, r as nat);
        }
    }
    if up {
        m + 1
    } else {
        m
    }
}

} // verus!
