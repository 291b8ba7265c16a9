//! What holds of the pace: the letter to look at lies in the word, about 35%
//! in, and every ending slows down.
use crate::pace;
use crate::pace::{
    CLAUSE, FASTEST, LONG, MINUTE, PARAGRAPH, PLAIN, RECOGNITION_SHARE, SENTENCE, SLOWEST,
};
use crate::rounding;
use crate::rounding::INFINITE;
use crate::single;
use crate::single::Single;
use vstd::arithmetic::div_mod::*;
use vstd::arithmetic::mul::*;
use vstd::arithmetic::power2::*;
use vstd::prelude::*;

verus! {

/// The pattern of two to the power `k`.
spec fn power_pattern(k: int) -> nat {
    ((127 + k) * 0x80_0000) as nat
}

proof fn lemma_power_pattern(k: int)
    requires
        -126 <= k <= 127,
    ensures
        rounding::units(power_pattern(k)) == pow2((149 + k) as nat),
        power_pattern(k) < INFINITE,
{
    rounding::lemma_parts((126 + k) as nat, 0x80_0000);
    lemma2_to64();
    lemma_pow2_adds(23, (126 + k) as nat);
}

/// Every positive number lies between two powers of two.
proof fn lemma_leading_power(n: nat) -> (k: nat)
    requires
        n > 0,
    ensures
        pow2(k) <= n < pow2(k + 1),
    decreases n,
{
    lemma2_to64();
    if n == 1 {
        0
    } else {
        let k = lemma_leading_power(n / 2);
        lemma_pow2_unfold(k + 1);
        lemma_pow2_unfold(k + 2);
        k + 1
    }
}

/// The share is below one half.
proof fn lemma_share()
    ensures
        rounding::units(RECOGNITION_SHARE as nat) == 11744051 * pow2(124),
        rounding::units(RECOGNITION_SHARE as nat) <= pow2(148),
{
    rounding::lemma_parts(124, 11744051);
    lemma2_to64();
    lemma_pow2_adds(24, 124);
    assert(11744051 * pow2(124) <= pow2(24) * pow2(124)) by (nonlinear_arith)
        requires
            pow2(24) == 16777216,
    ;
}

/// The letter to look at is a letter of the word.
pub proof fn recognition_point_is_inside(len: nat)
    requires
        0 < len <= usize::MAX,
    ensures
        pace::recognition_point(len) < len,
{
    let one = Single { bits: PLAIN };
    let share = Single { bits: RECOGNITION_SHARE };
    let unit = pow2(149);
    lemma_pow2_pos(149);
    lemma_pow2_pos(148);
    lemma_pow2_unfold(149);
    lemma2_to64();
    lemma_share();
    lemma_power_pattern(0);
    let k = lemma_leading_power(len);
    if k >= 64 {
        if k > 64 {
            lemma_pow2_strictly_increases(64, k);
        }
        lemma2_to64_rest();
        assert(false);
    }
    lemma_pow2_adds(k, 149);
    lemma_pow2_adds(k + 1, 149);
    lemma_power_pattern(k as int);
    lemma_power_pattern(k as int + 1);
    let whole = single::from_whole(len);
    let n = len * unit;
    let low = pow2(k) * unit;
    let high = pow2(k + 1) * unit;
    assert(low <= n <= high && unit <= n) by (nonlinear_arith)
        requires
            n == len * unit,
            low == pow2(k) * unit,
            high == pow2(k + 1) * unit,
            pow2(k) <= len < pow2(k + 1),
            len >= 1,
    ;
    // The length keeps its power of two.
    rounding::lemma_bounds(n, 1, power_pattern(k as int));
    rounding::lemma_bounds(n, 1, power_pattern(k as int + 1));
    rounding::lemma_bounds(n, 1, power_pattern(0));
    let f = rounding::nearest(n, 1);
    assert(power_pattern(k as int) <= f <= power_pattern(k as int + 1));
    assert(whole.pattern() == f && !whole.negative() && whole.finite());
    rounding::lemma_increasing(f, power_pattern(k as int + 1));
    rounding::lemma_increasing(power_pattern(0), f);
    let u = rounding::units(f);
    // The last index is no larger.
    assert(single::negation(one).negative() && single::negation(one).pattern() == PLAIN);
    assert(rounding::units(PLAIN as nat) == unit);
    let last = single::difference(whole, one);
    if u - unit != 0 {
        rounding::lemma_bounds((u - unit) as nat, 1, f);
        rounding::lemma_nearest((u - unit) as nat, 1);
    }
    assert(last.pattern() <= f && !last.negative());
    rounding::lemma_increasing(last.pattern(), f);
    let v = last.units();
    // The share of it is at most half.
    let w = share.units();
    let point = single::product(last, share);
    let top: int = if len == pow2(k) {
        k - 1
    } else {
        k as int
    };
    if k == 0 && len == 1 {
        assert(n == unit);
        assert(f == power_pattern(0)) by {
            rounding::lemma_exact(power_pattern(0), 1);
        }
        assert(u == unit);
        assert(last.pattern() == 0);
        rounding::lemma_parts(0, 0);
        lemma_mul_basics(pow2(0) as int);
        lemma_mul_basics(w as int);
        lemma_mul_basics(unit as int);
        assert(v * w == 0);
        rounding::lemma_exact(0, unit);
        assert(point.pattern() == 0 && point.units() == 0);
        lemma_basic_div(pow2(148) as int, unit as int);
    } else {
        if len == pow2(k) {
            rounding::lemma_exact(power_pattern(k as int), 1);
            lemma_mul_basics(n as int);
            assert(f == power_pattern(k as int));
        }
        lemma_power_pattern(top);
        lemma_pow2_unfold((150 + top) as nat);
        assert(u <= pow2((150 + top) as nat));
        let cap = rounding::units(power_pattern(top));
        assert(v * w <= cap * unit) by (nonlinear_arith)
            requires
                v <= 2 * cap,
                w <= pow2(148),
                unit == 2 * pow2(148),
        ;
        rounding::lemma_bounds(v * w, unit, power_pattern(top));
        rounding::lemma_nearest(v * w, unit);
        assert(point.pattern() <= power_pattern(top) && !point.negative());
        rounding::lemma_increasing(point.pattern(), power_pattern(top));
        lemma_pow2_adds(top as nat, 149);
        let whole_part = (point.units() + pow2(148)) / unit;
        assert(whole_part <= pow2(top as nat)) by {
            lemma_div_is_ordered(
                (point.units() + pow2(148)) as int,
                (pow2(top as nat) * unit + pow2(148)) as int,
                unit as int,
            );
            lemma_fundamental_div_mod_converse(
                (pow2(top as nat) * unit + pow2(148)) as int,
                unit as int,
                pow2(top as nat) as int,
                pow2(148) as int,
            );
        }
        if len == pow2(k) {
            lemma_pow2_strictly_increases(top as nat, k);
        }
    }
}

/// A larger base pace and a larger factor never make the stay shorter.
proof fn lemma_stay_grows(a: Single, b: Single, f: Single, g: Single)
    requires
        !a.negative(),
        !b.negative(),
        a.bits <= b.bits <= INFINITE,
        pace::is_factor(f),
        pace::is_factor(g),
        f.bits <= g.bits,
    ensures
        single::truncated(single::product(a, f), u64::MAX as nat) <= single::truncated(
            single::product(b, g),
            u64::MAX as nat,
        ),
{
    let unit = pow2(149);
    lemma_pow2_pos(149);
    lemma2_to64();
    rounding::lemma_parts(0, 0);
    lemma_mul_basics(pow2(0) as int);
    rounding::lemma_increasing(0, f.pattern());
    rounding::lemma_increasing(f.pattern(), g.pattern());
    rounding::lemma_increasing(a.pattern(), b.pattern());
    rounding::lemma_increasing(0, INFINITE as nat);
    let x = a.units() * f.units();
    let y = b.units() * g.units();
    rounding::lemma_nearest(x, unit);
    rounding::lemma_nearest(y, unit);
    let p = rounding::nearest(x, unit);
    let q = rounding::nearest(y, unit);
    single::lemma_number(false, p);
    single::lemma_number(false, q);
    if b.finite() {
        assert(x <= y && x * unit <= y * unit) by (nonlinear_arith)
            requires
                x == a.units() * f.units(),
                y == b.units() * g.units(),
                a.units() <= b.units(),
                f.units() <= g.units(),
        ;
        rounding::lemma_monotone(x, unit, p, y, unit, q);
        rounding::lemma_increasing(p, q);
        lemma_div_is_ordered(rounding::units(p) as int, rounding::units(q) as int, unit as int);
    } else {
        let r = if a.finite() {
            p
        } else {
            INFINITE as nat
        };
        rounding::lemma_increasing(r, INFINITE as nat);
        lemma_div_is_ordered(
            rounding::units(r) as int,
            rounding::units(INFINITE as nat) as int,
            unit as int,
        );
    }
}

/// What one minute divided by a pace comes to: a slower pace never less than
/// a faster one.
proof fn lemma_base_shrinks(wpm: Single, faster: Single)
    requires
        !wpm.negative(),
        !faster.negative(),
        single::at_most(wpm, faster),
    ensures
        ({
            let a = single::quotient(Single { bits: MINUTE }, faster);
            let b = single::quotient(Single { bits: MINUTE }, wpm);
            !a.negative() && !b.negative() && a.bits <= b.bits <= INFINITE
        }),
{
    let unit = pow2(149);
    lemma_pow2_pos(149);
    lemma2_to64();
    rounding::lemma_parts(0, 0);
    lemma_mul_basics(pow2(0) as int);
    rounding::lemma_increasing(0, MINUTE as nat);
    rounding::lemma_increasing(0, INFINITE as nat);
    let n = rounding::units(MINUTE as nat) * unit;
    let v = wpm.units();
    let w = faster.units();
    assert(v <= w);
    if wpm.pattern() > faster.pattern() {
        rounding::lemma_increasing(faster.pattern(), wpm.pattern());
    }
    if v > 0 {
        rounding::lemma_nearest(n, v);
        rounding::lemma_nearest(n, w);
        let p = rounding::nearest(n, w);
        let q = rounding::nearest(n, v);
        single::lemma_number(false, p);
        single::lemma_number(false, q);
        assert(n * v <= n * w) by (nonlinear_arith)
            requires
                v <= w,
        ;
        rounding::lemma_monotone(n, w, p, n, v, q);
    } else if w > 0 {
        rounding::lemma_nearest(n, w);
        single::lemma_number(false, rounding::nearest(n, w));
    }
}

/// At any pace that is not negative, a word with a larger factor never stays
/// shorter.
pub proof fn larger_factor_stays_longer(f: Single, g: Single, wpm: Single)
    requires
        pace::is_factor(f),
        pace::is_factor(g),
        f.bits <= g.bits,
        !wpm.nan(),
        !wpm.negative(),
    ensures
        pace::stay(f, wpm) <= pace::stay(g, wpm),
{
    let base = single::quotient(Single { bits: MINUTE }, wpm);
    lemma_base_shrinks(wpm, wpm);
    lemma_stay_grows(base, base, f, g);
}

/// At a faster pace no word stays longer.
pub proof fn faster_pace_stays_shorter(f: Single, wpm: Single, faster: Single)
    requires
        pace::is_factor(f),
        !wpm.negative(),
        single::at_most(wpm, faster),
    ensures
        pace::stay(f, faster) <= pace::stay(f, wpm),
{
    let a = single::quotient(Single { bits: MINUTE }, faster);
    let b = single::quotient(Single { bits: MINUTE }, wpm);
    if faster.negative() {
        // A negative zero, by which nothing stays.
        rounding::lemma_parts(0, 0);
        lemma2_to64();
        lemma_mul_basics(pow2(0) as int);
        rounding::lemma_increasing(0, MINUTE as nat);
        rounding::lemma_increasing(0, f.pattern());
        rounding::lemma_increasing(0, INFINITE as nat);
        assert(faster.units() == 0);
        if faster.infinite() {
            assert(false);
        }
        single::lemma_number(true, INFINITE as nat);
    } else {
        lemma_base_shrinks(wpm, faster);
        lemma_stay_grows(a, b, f, f);
    }
}

/// A word that ends a paragraph stays at least as long as one that ends a
/// sentence, that one at least as long as one that ends a clause, that one at
/// least as long as a long word, and that one at least as long as a plain one;
/// an ending never shortens the stay.
pub proof fn endings_are_ordered(wpm: Single)
    requires
        !wpm.nan(),
        !wpm.negative(),
    ensures
        pace::stay(Single { bits: PLAIN }, wpm) <= pace::stay(Single { bits: LONG }, wpm),
        pace::stay(Single { bits: LONG }, wpm) <= pace::stay(Single { bits: CLAUSE }, wpm),
        pace::stay(Single { bits: CLAUSE }, wpm) <= pace::stay(Single { bits: SENTENCE }, wpm),
        pace::stay(Single { bits: SENTENCE }, wpm) <= pace::stay(Single { bits: PARAGRAPH }, wpm),
{
    larger_factor_stays_longer(Single { bits: PLAIN }, Single { bits: LONG }, wpm);
    larger_factor_stays_longer(Single { bits: LONG }, Single { bits: CLAUSE }, wpm);
    larger_factor_stays_longer(Single { bits: CLAUSE }, Single { bits: SENTENCE }, wpm);
    larger_factor_stays_longer(Single { bits: SENTENCE }, Single { bits: PARAGRAPH }, wpm);
}

/// Rounding moves a quotient by at most one part in 2^24.
pub proof fn lemma_relative_error(n: nat, d: nat)
    requires
        d > 0,
        n >= 0x100_0000 * d,
        rounding::nearest(n, d) < INFINITE,
    ensures
        ({
            let u = rounding::units(rounding::nearest(n, d)) * d;
            0x100_0000 * u <= 0x100_0001 * n && 0x100_0000 * u >= 0xff_ffff * n
        }),
{
    let m = rounding::nearest(n, d);
    rounding::lemma_nearest(n, d);
    rounding::lemma_parts(1, 0x80_0000);
    lemma2_to64();
    rounding::lemma_bounds(n, d, 0x100_0000);
    let l = (m - 1) as nat;
    rounding::lemma_range(l);
    rounding::lemma_range(m);
    rounding::lemma_next(l);
    rounding::lemma_next(m);
    let q = pow2(rounding::exponent(l));
    let a = rounding::units(l);
    assert(a >= 0x80_0000 * q) by (nonlinear_arith)
        requires
            a == rounding::significand(l) * q,
            rounding::significand(l) >= 0x80_0000,
    ;
    let p = pow2(rounding::exponent(m));
    let b = rounding::units(m);
    assert(b >= 0x80_0000 * p) by (nonlinear_arith)
        requires
            b == rounding::significand(m) * p,
            rounding::significand(m) >= 0x80_0000,
    ;
    assert(b == a + q);
    assert(0x100_0000 * (b * d) <= 0x100_0001 * n) by (nonlinear_arith)
        requires
            2 * n >= (a + b) * d,
            b == a + q,
            a >= 0x80_0000 * q,
            d > 0,
    ;
    assert(0x100_0000 * (b * d) >= 0xff_ffff * n) by (nonlinear_arith)
        requires
            2 * n <= (b + (b + p)) * d,
            b >= 0x80_0000 * p,
            d > 0,
    ;
}

/// A number with at most 24 bits, scaled by a power of two, is a magnitude of its own.
pub proof fn lemma_short_is_exact(s: nat, t: nat) -> (m: nat)
    requires
        0 < s < 0x100_0000,
        24 <= t <= 200,
    ensures
        m < INFINITE,
        rounding::units(m) == s * pow2(t),
        m > 0x80_0000,
        s < 0x80_0000 ==> m % 2 == 0,
{
    let j = lemma_leading_power(s);
    lemma2_to64();
    if j >= 24 {
        if j > 24 {
            lemma_pow2_strictly_increases(24, j);
        }
        assert(false);
    }
    let k = (23 - j) as nat;
    let sig = s * pow2(k);
    let e = (t - k) as nat;
    lemma_pow2_pos(k);
    lemma_pow2_adds(j, k);
    lemma_pow2_adds(j + 1, k);
    lemma_pow2_adds(k, e);
    assert(0x80_0000 <= sig < 0x100_0000) by (nonlinear_arith)
        requires
            sig == s * pow2(k),
            pow2(j) <= s < pow2(j + 1),
            pow2(j) * pow2(k) == 0x80_0000,
            pow2(j + 1) * pow2(k) == 0x100_0000,
            pow2(k) > 0,
    ;
    rounding::lemma_parts(e, sig);
    assert(sig * pow2(e) == s * pow2(t)) by (nonlinear_arith)
        requires
            sig == s * pow2(k),
            pow2(t) == pow2(k) * pow2(e),
    ;
    if s < 0x80_0000 {
        if j == 23 {
            assert(false);
        }
        lemma_pow2_unfold(k);
        let h = pow2((k - 1) as nat);
        assert(sig == 2 * (s * h)) by (nonlinear_arith)
            requires
                sig == s * (2 * h),
        ;
    }
    e * 0x80_0000 + sig
}

/// For every word of fewer than 5991868 letters, the letter to look at is the
/// one nearest to 35% of the last index, halves upward. At that length the
/// product is first rounded across a half.
pub proof fn recognition_point_is_the_nearest_letter(len: nat)
    requires
        0 < len < 5991868,
    ensures
        pace::recognition_point(len) == (35 * (len - 1) + 50) / 100,
{
    let one = Single { bits: PLAIN };
    let share = Single { bits: RECOGNITION_SHARE };
    let unit = pow2(149);
    let fine = pow2(124);
    lemma_pow2_pos(149);
    lemma_pow2_pos(124);
    lemma_pow2_unfold(149);
    lemma2_to64();
    lemma2_to64_rest();
    lemma_pow2_adds(25, 124);
    lemma_pow2_adds(24, 124);
    assert(unit == 0x200_0000 * fine);
    lemma_share();
    lemma_power_pattern(0);
    let k = (len - 1) as nat;
    // The length and the last index are exact.
    let m = lemma_short_is_exact(len, 149);
    rounding::lemma_exact(m, 1);
    lemma_mul_basics((len * unit) as int);
    let whole = single::from_whole(len);
    assert(whole.pattern() == m && !whole.negative() && whole.units() == len * unit);
    assert(single::negation(one).negative() && single::negation(one).pattern() == PLAIN);
    let last = single::difference(whole, one);
    assert(len * unit - unit == k * unit) by (nonlinear_arith)
        requires
            len == k + 1,
    ;
    rounding::lemma_parts(0, 0);
    lemma_mul_basics(pow2(0) as int);
    if k == 0 {
        lemma_mul_basics(unit as int);
        assert(last.pattern() == 0);
        lemma_mul_basics(share.units() as int);
        rounding::lemma_exact(0, unit);
        assert(single::product(last, share).pattern() == 0);
        lemma_basic_div(pow2(148) as int, unit as int);
    } else {
        let l = lemma_short_is_exact(k, 149);
        rounding::lemma_exact(l, 1);
        lemma_mul_basics((k * unit) as int);
        assert(k * unit > 0) by (nonlinear_arith)
            requires
                k > 0,
                unit > 0,
        ;
        assert(last.pattern() == l && !last.negative() && last.units() == k * unit);
        let n = last.units() * share.units();
        let x = (k * 11744051) * fine;
        assert(n == x * unit) by (nonlinear_arith)
            requires
                n == (k * unit) * (11744051 * fine),
                x == (k * 11744051) * fine,
        ;
        lemma_mul_basics(x as int);
        rounding::lemma_same_quotient(n, unit, x, 1);
        let p = rounding::nearest(x, 1);
        let u = rounding::units(p);
        rounding::lemma_nearest(x, 1);
        assert(k * 11744051 >= 1 && fine >= 0x100_0000) by {
            lemma_pow2_strictly_increases(24, 124);
        }
        assert(x >= 0x100_0000) by (nonlinear_arith)
            requires
                x == (k * 11744051) * fine,
                k * 11744051 >= 1,
                fine >= 0x100_0000,
        ;
        // The rounded product stays in range.
        lemma_power_pattern(22);
        lemma_pow2_adds(47, 124);
        assert(x <= rounding::units(power_pattern(22))) by (nonlinear_arith)
            requires
                x == (k * 11744051) * fine,
                k <= 5991867,
                rounding::units(power_pattern(22)) == 0x8000_0000_0000 * fine,
        {
            assert(k * 11744051 <= 5991867 * 11744051);
        }
        rounding::lemma_bounds(x, 1, power_pattern(22));
        lemma_relative_error(x, 1);
        lemma_mul_basics(u as int);
        assert(single::product(last, share).pattern() == p);
        let q = (7 * k + 10) / 20;
        let r = (7 * k + 10) % 20;
        assert((35 * k + 50) / 100 == q);
        lemma_rounded_share(k, fine, x, u, p);
        assert((u + pow2(148)) / unit == q) by {
            assert((q + 1) * unit == q * unit + unit) by (nonlinear_arith);
            lemma_fundamental_div_mod_converse(
                (u + pow2(148)) as int,
                unit as int,
                q as int,
                u + pow2(148) - q * unit,
            );
        }
        assert(q <= usize::MAX);
    }
}

/// A product that lies more than half a step below a half letter is rounded to
/// less than it.
proof fn lemma_below_half(q: nat, fine: nat, x: nat)
    requires
        fine == pow2(124),
        q < 0x20_0000,
        x + 0x10_0000 * fine < (2 * q + 1) * (0x100_0000 * fine),
        q >= 0x10_0000 ==> x + 0x20_0000 * fine < (2 * q + 1) * (0x100_0000 * fine),
    ensures
        rounding::units(rounding::nearest(x, 1)) < (2 * q + 1) * (0x100_0000 * fine),
{
    lemma2_to64();
    lemma2_to64_rest();
    lemma_pow2_pos(124);
    lemma_pow2_adds(24, 124);
    let m = lemma_short_is_exact(2 * q + 1, 148);
    let h = rounding::units(m);
    let l = (m - 1) as nat;
    rounding::lemma_next(l);
    let gap = pow2(rounding::exponent(l));
    // The half lies below the next power of two, which bounds the step.
    let top: int = if q < 0x10_0000 {
        20
    } else {
        21
    };
    lemma_power_pattern(top);
    lemma_pow2_adds(45, 124);
    lemma_pow2_adds(46, 124);
    let cap = power_pattern(top);
    assert(h < rounding::units(cap)) by (nonlinear_arith)
        requires
            h == (2 * q + 1) * (0x100_0000 * fine),
            fine > 0,
            (q < 0x10_0000 && rounding::units(cap) == 0x2000_0000_0000 * fine) || (q < 0x20_0000
                && rounding::units(cap) == 0x4000_0000_0000 * fine),
    ;
    if m >= cap {
        rounding::lemma_increasing(cap, m);
    }
    rounding::lemma_exponent_grows(l, (cap - 1) as nat);
    let e = (125 + top) as nat;
    rounding::lemma_parts(e, 0xff_ffff);
    assert(cap - 1 == e * 0x80_0000 + 0xff_ffff);
    if rounding::exponent(l) < e {
        lemma_pow2_strictly_increases(rounding::exponent(l), e);
    }
    lemma_pow2_adds(21, 124);
    lemma_pow2_adds(22, 124);
    assert(gap <= pow2(e));
    assert(2 * x < rounding::units(l) + rounding::units(m));
    let p = rounding::nearest(x, 1);
    rounding::lemma_nearest(x, 1);
    if p >= m {
        rounding::lemma_increasing(l, (p - 1) as nat);
        rounding::lemma_increasing(m, p);
        lemma_mul_basics((rounding::units((p - 1) as nat) + rounding::units(p)) as int);
        assert(false);
    }
    rounding::lemma_increasing(p, l);
}

/// The rounded product of the last index `k` and the share lies half a letter
/// around the letter that is meant.
proof fn lemma_rounded_share(k: nat, fine: nat, x: nat, u: nat, p: nat)
    requires
        0 < k < 5991867,
        fine == pow2(124),
        x == (k * 11744051) * fine,
        p == rounding::nearest(x, 1),
        u == rounding::units(p),
        0x100_0000 * u <= 0x100_0001 * x,
        0x100_0000 * u >= 0xff_ffff * x,
    ensures
        ({
            let q = (7 * k + 10) / 20;
            q * (0x200_0000 * fine) <= u + 0x100_0000 * fine < (q + 1) * (0x200_0000 * fine)
        }),
{
    let q = (7 * k + 10) / 20;
    let r = (7 * k + 10) % 20;
    lemma_pow2_pos(124);
    let c: nat = k * 11744051;
    assert(20 * c == k * 0xe00_0000 - 4 * k);
    assert(7 * k + 10 == 20 * q + r);
    // In multiples of `fine`, twenty times over.
    assert(20 * c == (20 * q + r - 10) * 0x200_0000 - 4 * k);
    let h = (2 * q + 1) * (0x100_0000 * fine);
    assert((q + 1) * (0x200_0000 * fine) == h + 0x100_0000 * fine) by (nonlinear_arith)
        requires
            h == (2 * q + 1) * (0x100_0000 * fine),
    ;
    // The upper side: a twentieth of a letter, and what the share lacks.
    let d: nat = ((2 * q + 1) * 0x100_0000 - c) as nat;
    assert(20 * d == (20 - r) * 0x200_0000 + 4 * k);
    assert(h == x + d * fine) by (nonlinear_arith)
        requires
            h == (2 * q + 1) * (0x100_0000 * fine),
            x == c * fine,
            d == (2 * q + 1) * 0x100_0000 - c,
    ;
    if q < 0x20_0000 {
        assert(d > 0x10_0000);
        assert(q >= 0x10_0000 ==> d > 0x20_0000);
        assert(d * fine > 0x10_0000 * fine && (q >= 0x10_0000 ==> d * fine > 0x20_0000 * fine))
            by (nonlinear_arith)
            requires
                d > 0x10_0000,
                q >= 0x10_0000 ==> d > 0x20_0000,
                fine > 0,
        ;
        lemma_below_half(q, fine, x);
        assert(u < h);
    } else {
        assert(r <= 18);
        assert(u < h) by (nonlinear_arith)
            requires
                0x100_0000 * u <= 0x100_0001 * x,
                x == c * fine,
                h == x + d * fine,
                c < 0x100_0000 * d,
                fine > 0,
        ;
    }
    if r > 0 {
        // The lower side is a magnitude that the product reaches.
        let s = (2 * q - 1) as nat;
        lemma2_to64();
        lemma_pow2_adds(24, 124);
        if q == 0 {
            assert(q * (0x200_0000 * fine) == 0) by (nonlinear_arith)
                requires
                    q == 0,
            ;
        } else {
            let m = lemma_short_is_exact(s, 148);
            let g = s * (0x100_0000 * fine);
            assert(20 * c >= 20 * (s * 0x100_0000));
            assert(x >= g) by (nonlinear_arith)
                requires
                    x == c * fine,
                    g == s * (0x100_0000 * fine),
                    c >= s * 0x100_0000,
            ;
            lemma_mul_basics(g as int);
            rounding::lemma_bounds(x, 1, m);
            rounding::lemma_increasing(m, p);
            assert(q * (0x200_0000 * fine) == g + 0x100_0000 * fine) by (nonlinear_arith)
                requires
                    g == s * (0x100_0000 * fine),
                    s == 2 * q - 1,
            ;
        }
    } else {
        // A tie: the half itself is a magnitude, and the product is nearest to it.
        let s = (2 * q - 1) as nat;
        lemma2_to64();
        lemma_pow2_adds(24, 124);
        let m = lemma_short_is_exact(s, 148);
        let h = rounding::units(m);
        assert(h == s * (0x100_0000 * fine));
        let l = (m - 1) as nat;
        rounding::lemma_next(l);
        rounding::lemma_range(l);
        let gap = pow2(rounding::exponent(l));
        let a = rounding::units(l);
        assert(a < 0x100_0000 * gap) by (nonlinear_arith)
            requires
                a == rounding::significand(l) * gap,
                rounding::significand(l) < 0x100_0000,
                gap > 0,
        {
            lemma_pow2_pos(rounding::exponent(l));
        }
        assert(h == a + gap);
        // h - x == (k / 5) * fine, and h == (7 * k / 20) * 2^25 * fine.
        assert(20 * h == (7 * k * 0x200_0000) * fine) by (nonlinear_arith)
            requires
                h == s * (0x100_0000 * fine),
                7 * k == 10 * s,
        ;
        assert(20 * x == (k * 0xe00_0000 - 4 * k) * fine) by (nonlinear_arith)
            requires
                x == c * fine,
                20 * c == k * 0xe00_0000 - 4 * k,
        ;
        let kf = k * fine;
        assert(20 * h == 0xe00_0000 * kf && 20 * x == 0xdff_fffc * kf) by (nonlinear_arith)
            requires
                kf == k * fine,
                20 * h == (7 * k * 0x200_0000) * fine,
                20 * x == (k * 0xe00_0000 - 4 * k) * fine,
        ;
        assert(0x100_0001 * gap > h);
        assert(2 * (h - x) < gap);
        lemma_mul_basics((a + h) as int);
        rounding::lemma_next(m);
        lemma_mul_basics((h + rounding::units(m + 1)) as int);
        rounding::lemma_nearest_is(x, 1, m);
        assert(u == h);
        assert(u + 0x100_0000 * fine == q * (0x200_0000 * fine)) by (nonlinear_arith)
            requires
                u == s * (0x100_0000 * fine),
                s == 2 * q - 1,
        ;
    }
}

/// The significand of a factor over 2^23.
pub open spec fn coefficient(f: Single) -> nat {
    if f.bits == PLAIN {
        0x80_0000
    } else if f.bits == LONG {
        0xb3_3333
    } else if f.bits == CLAUSE {
        0xc0_0000
    } else if f.bits == SENTENCE {
        0x100_0000
    } else {
        0x140_0000
    }
}

pub proof fn lemma_coefficient(f: Single)
    requires
        pace::is_factor(f),
    ensures
        f.units() == coefficient(f) * pow2(126),
        f.finite(),
        !f.negative(),
{
    rounding::lemma_parts(126, 0x80_0000);
    rounding::lemma_parts(126, 0xb3_3333);
    rounding::lemma_parts(126, 0xc0_0000);
    rounding::lemma_parts(127, 0x80_0000);
    rounding::lemma_parts(127, 0xa0_0000);
    lemma_pow2_unfold(127);
    let p = pow2(126);
    assert(0x80_0000 * (2 * p) == 0x100_0000 * p && 0xa0_0000 * (2 * p) == 0x140_0000 * p)
        by (nonlinear_arith);
}

/// The paces on offer and a minute as multiples of the unit.
pub proof fn lemma_paces()
    ensures
        rounding::units(SLOWEST as nat) == 100 * pow2(149),
        rounding::units(FASTEST as nat) == 1000 * pow2(149),
        rounding::units(MINUTE as nat) == 60000 * pow2(149),
{
    let unit = pow2(149);
    lemma2_to64();
    rounding::lemma_parts(132, 0xc8_0000);
    rounding::lemma_parts(135, 0xfa_0000);
    rounding::lemma_parts(141, 0xea_6000);
    lemma_pow2_adds(131, 18);
    lemma_pow2_adds(131, 1);
    lemma_pow2_adds(131, 4);
    lemma_pow2_adds(131, 10);
    let g = pow2(131);
    assert(rounding::units(SLOWEST as nat) == 100 * unit) by (nonlinear_arith)
        requires
            rounding::units(SLOWEST as nat) == 0xc8_0000 * pow2(132),
            pow2(132) == g * 2,
            unit == g * 0x4_0000,
    ;
    assert(rounding::units(FASTEST as nat) == 1000 * unit) by (nonlinear_arith)
        requires
            rounding::units(FASTEST as nat) == 0xfa_0000 * pow2(135),
            pow2(135) == g * 16,
            unit == g * 0x4_0000,
    ;
    assert(rounding::units(MINUTE as nat) == 60000 * unit) by (nonlinear_arith)
        requires
            rounding::units(MINUTE as nat) == 0xea_6000 * pow2(141),
            pow2(141) == g * 1024,
            unit == g * 0x4_0000,
    ;
}

/// What one minute divided by a pace on offer is rounded to lies between 60 and
/// 600 milliseconds.
pub proof fn lemma_base(wpm: Single) -> (b: nat)
    requires
        single::at_most(Single { bits: SLOWEST }, wpm),
        single::at_most(wpm, Single { bits: FASTEST }),
    ensures
        ({
            let base = single::quotient(Single { bits: MINUTE }, wpm);
            base.finite() && !base.negative() && base.units() == b
        }),
        60 * pow2(149) <= b <= 600 * pow2(149),
{
    let unit = pow2(149);
    lemma_pow2_pos(149);
    lemma2_to64();
    lemma_paces();
    // 60 and 600, each as a significand and a power of two.
    rounding::lemma_parts(131, 0xf0_0000);
    rounding::lemma_parts(135, 0x96_0000);
    lemma_pow2_adds(131, 18);
    lemma_pow2_adds(131, 4);
    let g = pow2(131);
    assert(rounding::units(0x4270_0000) == 60 * unit) by (nonlinear_arith)
        requires
            rounding::units(0x4270_0000) == 0xf0_0000 * g,
            unit == g * 0x4_0000,
    ;
    assert(rounding::units(0x4416_0000) == 600 * unit) by (nonlinear_arith)
        requires
            rounding::units(0x4416_0000) == 0x96_0000 * pow2(135),
            pow2(135) == g * 16,
            unit == g * 0x4_0000,
    ;
    rounding::lemma_parts(0, 0);
    let w = wpm.units();
    assert(!wpm.negative() && 100 * unit <= w <= 1000 * unit);
    if wpm.infinite() {
        rounding::lemma_increasing(FASTEST as nat + 1, INFINITE as nat);
        rounding::lemma_increasing(FASTEST as nat, FASTEST as nat + 1);
        assert(false);
    }
    let n = (60000 * unit) * unit;
    assert((60 * unit) * w <= n <= (600 * unit) * w) by (nonlinear_arith)
        requires
            n == (60000 * unit) * unit,
            100 * unit <= w <= 1000 * unit,
    ;
    rounding::lemma_bounds(n, w, 0x4270_0000);
    rounding::lemma_bounds(n, w, 0x4416_0000);
    let m = rounding::nearest(n, w);
    rounding::lemma_increasing(0x4270_0000, m);
    rounding::lemma_increasing(m, 0x4416_0000);
    rounding::units(m)
}

/// The factors lie at least a tenth apart.
proof fn lemma_factors_apart(f: Single, g: Single)
    requires
        pace::is_factor(f),
        pace::is_factor(g),
        f.bits < g.bits,
    ensures
        coefficient(g) - coefficient(f) >= 838861,
        coefficient(g) <= 0x140_0000,
{
}

/// A tenth of at least 60 milliseconds outweighs what the rounding does.
proof fn lemma_apart(b: nat, unit: nat, cf: nat, cg: nat, u: nat, v: nat)
    requires
        b >= 60 * unit,
        cg - cf >= 838861,
        cg <= 0x140_0000,
        0x100_0000 * (u * 0x80_0000) <= 0x100_0001 * (b * cf),
        0x100_0000 * (v * 0x80_0000) >= 0xff_ffff * (b * cg),
    ensures
        v >= u + unit,
{
    let x = b * cf;
    let y = b * cg;
    assert(y - x == b * (cg - cf) && y <= b * 0x140_0000) by (nonlinear_arith)
        requires
            x == b * cf,
            y == b * cg,
            cg <= 0x140_0000,
    ;
    assert(b * (cg - cf) >= b * 838861) by (nonlinear_arith)
        requires
            cg - cf >= 838861,
    ;
}

/// At a pace on offer, the stay is the whole part of the rounded product.
pub proof fn lemma_stay(f: Single, wpm: Single, b: nat) -> (u: nat)
    requires
        pace::is_factor(f),
        60 * pow2(149) <= b <= 600 * pow2(149),
        ({
            let base = single::quotient(Single { bits: MINUTE }, wpm);
            base.finite() && !base.negative() && base.units() == b
        }),
    ensures
        pace::stay(f, wpm) == u / pow2(149),
        u == rounding::units(rounding::nearest(b * f.units(), pow2(149))),
        0x100_0000 * (u * 0x80_0000) <= 0x100_0001 * (b * coefficient(f)),
        0x100_0000 * (u * 0x80_0000) >= 0xff_ffff * (b * coefficient(f)),
{
    let unit = pow2(149);
    let u = lemma_product(b, f);
    lemma_coefficient(f);
    lemma_pow2_pos(149);
    let base = single::quotient(Single { bits: MINUTE }, wpm);
    let m = rounding::nearest(b * f.units(), unit);
    let p = single::product(base, f);
    assert(p == single::rounded(false, b * f.units(), unit));
    single::lemma_number(false, m);
    assert(p.units() == u);
    assert(u / unit <= 2048) by {
        lemma_div_is_ordered(u as int, (2048 * unit) as int, unit as int);
        lemma_div_by_multiple(2048, unit as int);
    }
    u
}

/// At every pace on offer each ending slows down: a word with a larger factor
/// stays longer by at least a millisecond.
pub proof fn every_ending_slows_down(f: Single, g: Single, wpm: Single)
    requires
        pace::is_factor(f),
        pace::is_factor(g),
        f.bits < g.bits,
        single::at_most(Single { bits: SLOWEST }, wpm),
        single::at_most(wpm, Single { bits: FASTEST }),
    ensures
        pace::stay(f, wpm) < pace::stay(g, wpm),
{
    let unit = pow2(149);
    lemma_pow2_pos(149);
    let b = lemma_base(wpm);
    let u = lemma_stay(f, wpm, b);
    let v = lemma_stay(g, wpm, b);
    lemma_factors_apart(f, g);
    lemma_apart(b, unit, coefficient(f), coefficient(g), u, v);
    lemma_div_is_ordered((u + unit) as int, v as int, unit as int);
    lemma_div_plus_one(u as int, unit as int);
}

/// The product of a base pace and a factor, rounded.
proof fn lemma_product(b: nat, f: Single) -> (u: nat)
    requires
        pace::is_factor(f),
        60 * pow2(149) <= b <= 600 * pow2(149),
    ensures
        rounding::nearest(b * f.units(), pow2(149)) < INFINITE,
        u == rounding::units(rounding::nearest(b * f.units(), pow2(149))),
        u <= 2048 * pow2(149),
        0x100_0000 * (u * 0x80_0000) <= 0x100_0001 * (b * coefficient(f)),
        0x100_0000 * (u * 0x80_0000) >= 0xff_ffff * (b * coefficient(f)),
{
    let unit = pow2(149);
    let p = pow2(126);
    let c = coefficient(f);
    lemma_coefficient(f);
    lemma2_to64();
    lemma2_to64_rest();
    lemma_pow2_pos(126);
    lemma_pow2_pos(149);
    lemma_pow2_adds(23, 126);
    let n = b * f.units();
    let x = b * c;
    assert(n * 0x80_0000 == x * unit) by (nonlinear_arith)
        requires
            n == b * (c * p),
            x == b * c,
            unit == 0x80_0000 * p,
    ;
    rounding::lemma_same_quotient(n, unit, x, 0x80_0000);
    lemma_power_pattern(11);
    lemma_pow2_adds(11, 149);
    assert(x <= (2048 * unit) * 0x80_0000) by (nonlinear_arith)
        requires
            x == b * c,
            b <= 600 * unit,
            c <= 0x140_0000,
    ;
    rounding::lemma_bounds(x, 0x80_0000, power_pattern(11));
    lemma_pow2_strictly_increases(48, 149);
    assert(x >= 0x100_0000 * 0x80_0000) by (nonlinear_arith)
        requires
            x == b * c,
            b >= 60 * unit,
            unit >= 0x1_0000_0000_0000,
            c >= 0x80_0000,
    ;
    lemma_relative_error(x, 0x80_0000);
    let m = rounding::nearest(x, 0x80_0000);
    rounding::lemma_increasing(m, power_pattern(11));
    rounding::units(m)
}

/// A pace that is a number is held to those on offer, and one on offer stays as
/// it is.
pub proof fn a_held_pace_is_on_offer(wpm: Single)
    ensures
        !wpm.nan() ==> pace::on_offer(pace::held(wpm)),
        pace::on_offer(wpm) ==> pace::held(wpm) == wpm,
{
    lemma_paces();
    lemma_pow2_pos(149);
}

/// The length of a word as a number: finite, and at least one if there is a
/// letter.
proof fn lemma_length(n: nat)
    requires
        n <= usize::MAX,
    ensures
        ({
            let w = single::from_whole(n);
            &&& w.finite() && !w.negative()
            &&& w.pattern() == rounding::nearest(n * pow2(149), 1)
            &&& n > 0 ==> w.units() >= pow2(149)
        }),
{
    let unit = pow2(149);
    let x = n * unit;
    lemma_pow2_pos(149);
    lemma2_to64();
    lemma2_to64_rest();
    lemma_power_pattern(64);
    lemma_pow2_adds(64, 149);
    lemma_power_pattern(0);
    let high = pow2(64) * unit;
    assert(x <= high && (n > 0 ==> x >= unit)) by (nonlinear_arith)
        requires
            x == n * unit,
            high == pow2(64) * unit,
            n <= pow2(64),
    ;
    rounding::lemma_bounds(x, 1, power_pattern(64));
    rounding::lemma_bounds(x, 1, power_pattern(0));
    let m = rounding::nearest(x, 1);
    rounding::lemma_nearest(x, 1);
    single::lemma_number(false, m);
    if n > 0 {
        rounding::lemma_increasing(power_pattern(0), m);
    }
}

/// The last index of a word, rounded.
proof fn lemma_last(n: nat) -> (m: nat)
    requires
        0 < n <= usize::MAX,
    ensures
        ({
            let w = single::from_whole(n);
            let last = single::difference(w, Single { bits: PLAIN });
            &&& w.units() >= pow2(149)
            &&& m == rounding::nearest((w.units() - pow2(149)) as nat, 1)
            &&& last.pattern() == m
            &&& last.finite() && !last.negative()
        }),
{
    let unit = pow2(149);
    let one = Single { bits: PLAIN };
    let w = single::from_whole(n);
    lemma_length(n);
    lemma_power_pattern(0);
    lemma_pow2_pos(149);
    rounding::lemma_parts(0, 0);
    lemma_mul_basics(pow2(0) as int);
    single::lemma_number(true, PLAIN as nat);
    assert(single::negation(one).signed() == -(unit as int));
    let exact = (w.units() - unit) as nat;
    let m = rounding::nearest(exact, 1);
    rounding::lemma_nearest(exact, 1);
    rounding::lemma_exact(0, 1);
    rounding::lemma_bounds(exact, 1, w.pattern());
    single::lemma_number(false, m);
    m
}

/// A larger number is never rounded to a smaller magnitude.
proof fn lemma_rounds_in_order(x: nat, y: nat, d: nat)
    requires
        d > 0,
        x <= y,
    ensures
        rounding::nearest(x, d) <= rounding::nearest(y, d) <= INFINITE,
        rounding::units(rounding::nearest(x, d)) <= rounding::units(rounding::nearest(y, d)),
{
    rounding::lemma_nearest(x, d);
    rounding::lemma_nearest(y, d);
    assert(x * d <= y * d) by (nonlinear_arith)
        requires
            x <= y,
    ;
    rounding::lemma_monotone(x, d, rounding::nearest(x, d), y, d, rounding::nearest(y, d));
    rounding::lemma_increasing(rounding::nearest(x, d), rounding::nearest(y, d));
}

/// In a longer word the letter to look at never stands earlier.
pub proof fn a_longer_word_has_no_earlier_letter(a: nat, b: nat)
    requires
        a <= b,
        b <= usize::MAX,
    ensures
        pace::recognition_point(a) <= pace::recognition_point(b),
{
    let unit = pow2(149);
    let one = Single { bits: PLAIN };
    let share = Single { bits: RECOGNITION_SHARE };
    lemma_pow2_pos(149);
    lemma_length(a);
    if a == 0 {
        // The last index is negative, and so is its share.
        rounding::lemma_parts(0, 0);
        lemma_mul_basics(pow2(0) as int);
        lemma_mul_basics(unit as int);
        rounding::lemma_exact(0, 1);
        lemma_power_pattern(0);
        rounding::lemma_exact(power_pattern(0), 1);
        single::lemma_number(true, PLAIN as nat);
        let last = single::difference(single::from_whole(0), one);
        assert(last.negative() && last.pattern() == PLAIN);
        rounding::lemma_nearest(last.units() * share.units(), unit);
        single::lemma_number(true, rounding::nearest(last.units() * share.units(), unit));
        assert(pace::recognition_point(0) == 0);
    } else {
        let m = lemma_last(a);
        let n = lemma_last(b);
        assert(a * unit <= b * unit) by (nonlinear_arith)
            requires
                a <= b,
        ;
        lemma_length(b);
        lemma_rounds_in_order(a * unit, b * unit, 1);
        let u = single::from_whole(a).units();
        let v = single::from_whole(b).units();
        lemma_rounds_in_order((u - unit) as nat, (v - unit) as nat, 1);
        let w = share.units();
        let x = rounding::units(m) * w;
        let y = rounding::units(n) * w;
        assert(x <= y) by (nonlinear_arith)
            requires
                x == rounding::units(m) * w,
                y == rounding::units(n) * w,
                rounding::units(m) <= rounding::units(n),
        ;
        lemma_rounds_in_order(x, y, unit);
        single::lemma_number(false, rounding::nearest(x, unit));
        single::lemma_number(false, rounding::nearest(y, unit));
        lemma_div_is_ordered(
            (rounding::units(rounding::nearest(x, unit)) + pow2(148)) as int,
            (rounding::units(rounding::nearest(y, unit)) + pow2(148)) as int,
            unit as int,
        );
    }
}

/// The letter to look at is 0.35 times the length less one, each step in single
/// precision, rounded with halves upward, for words of any length.
pub proof fn the_recognition_point_is_a_share_of_the_length(len: nat)
    ensures
        pace::recognition_point(len) == single::to_whole(
            single::product(
                single::difference(single::from_whole(len), (Single { bits: 0x3f80_0000 })),
                (Single { bits: 0x3eb3_3333 }),
            ),
            usize::MAX as nat,
        ),
{
}

/// The factor of a word is 2.5 at the end of a paragraph; otherwise 2 behind a
/// full stop, an exclamation mark or a question mark; otherwise 1.5 behind a
/// comma, a semicolon or a colon; otherwise 1.4 for more than eight letters;
/// otherwise 1. Nothing but the last letter, the number of letters and the
/// paragraph end matters.
pub proof fn the_factor_is_the_largest_earned(word: Seq<char>, para_end: bool)
    ensures
        ({
            let bits = pace::factor(word, para_end).bits;
            let stop = word.len() > 0 && (word[word.len() - 1] == '.' || word[word.len() - 1] == '!'
                || word[word.len() - 1] == '?');
            let pause = word.len() > 0 && (word[word.len() - 1] == ',' || word[word.len() - 1]
                == ';' || word[word.len() - 1] == ':');
            &&& bits == 0x4020_0000 <==> para_end
            &&& bits == 0x4000_0000 <==> !para_end && stop
            &&& bits == 0x3fc0_0000 <==> !para_end && pause
            &&& bits == 0x3fb3_3333 <==> !para_end && !stop && !pause && word.len() > 8
            &&& bits == 0x3f80_0000 <==> !para_end && !stop && !pause && word.len() <= 8
        }),
{
}

/// What a word earns is never lost: its factor is at least that of each of its
/// properties alone.
pub proof fn every_property_counts(word: Seq<char>, para_end: bool)
    ensures
        single::at_most((Single { bits: 0x3f80_0000 }), pace::factor(word, para_end)),
        word.len() > 8 ==> single::at_most(
            (Single { bits: 0x3fb3_3333 }),
            pace::factor(word, para_end),
        ),
        single::at_most(pace::factor(word, false), pace::factor(word, para_end)),
        para_end ==> pace::factor(word, para_end).bits == 0x4020_0000,
{
    rounding::lemma_increasing(PLAIN as nat, LONG as nat);
    rounding::lemma_increasing(LONG as nat, CLAUSE as nat);
    rounding::lemma_increasing(CLAUSE as nat, SENTENCE as nat);
    rounding::lemma_increasing(SENTENCE as nat, PARAGRAPH as nat);
}

/// At every pace on offer, whole or not, a word stays for a minute over the
/// pace, times its factor, up to one part in four million and the part of a
/// millisecond that is cut off.
pub proof fn the_stay_is_close_to_its_share(f: Single, wpm: Single)
    requires
        pace::is_factor(f),
        single::at_most((Single { bits: 0x42c8_0000 }), wpm),
        single::at_most(wpm, (Single { bits: 0x447a_0000 })),
    ensures
        ({
            let ms = pace::stay(f, wpm);
            let exact = (60000 * f.units()) * 0x40_0000;
            &&& ms * wpm.units() * 0x40_0000 <= exact + 60000 * f.units()
            &&& (ms + 1) * wpm.units() * 0x40_0000 > exact - 60000 * f.units()
        }),
{
    let unit = pow2(149);
    lemma_pow2_pos(149);
    lemma2_to64();
    lemma_paces();
    let b = lemma_base(wpm);
    let u = lemma_stay(f, wpm, b);
    lemma_coefficient(f);
    let c = coefficient(f);
    let w = wpm.units();
    let p = pow2(126);
    lemma_pow2_pos(126);
    lemma_pow2_adds(23, 126);
    assert(100 * unit <= w);
    // The base is within one part in 2^24 of its share.
    let n = (60000 * unit) * unit;
    lemma_pow2_strictly_increases(24, 149);
    assert(n >= 0x100_0000 * w) by (nonlinear_arith)
        requires
            n == (60000 * unit) * unit,
            w <= 1000 * unit,
            unit >= 0x100_0000,
    ;
    assert(wpm.finite() && !wpm.negative()) by {
        rounding::lemma_parts(0, 0);
        rounding::lemma_increasing(FASTEST as nat, INFINITE as nat);
        if wpm.infinite() {
            rounding::lemma_next(FASTEST as nat);
            rounding::lemma_increasing(FASTEST as nat + 1, INFINITE as nat);
        }
    }
    let m = rounding::nearest(n, w);
    rounding::lemma_nearest(n, w);
    single::lemma_number(false, m);
    assert(b == rounding::units(m));
    lemma_relative_error(n, w);
    let ms = u / unit;
    let rest = u % unit;
    lemma_fundamental_div_mod(u as int, unit as int);
    assert(ms * unit <= u < (ms + 1) * unit) by (nonlinear_arith)
        requires
            u == unit * ms + rest,
            0 <= rest < unit,
    ;
    lemma_close_share(b, u, c, w, unit, ms, p);
}

/// Two roundings of one part in 2^24 each make less than one part in 2^22.
proof fn lemma_close_share(b: nat, u: nat, c: nat, w: nat, unit: nat, ms: nat, p: nat)
    requires
        unit == 0x80_0000 * p,
        p > 0,
        c > 0,
        ms * unit <= u < (ms + 1) * unit,
        0x100_0000 * (b * w) <= 0x100_0001 * ((60000 * unit) * unit),
        0x100_0000 * (b * w) >= 0xff_ffff * ((60000 * unit) * unit),
        0x100_0000 * (u * 0x80_0000) <= 0x100_0001 * (b * c),
        0x100_0000 * (u * 0x80_0000) >= 0xff_ffff * (b * c),
    ensures
        ({
            let f = c * p;
            let exact = (60000 * f) * 0x40_0000;
            &&& ms * w * 0x40_0000 <= exact + 60000 * f
            &&& (ms + 1) * w * 0x40_0000 > exact - 60000 * f
        }),
{
    let f = c * p;
    let bw = b * w;
    let uw = u * w;
    let s = (60000 * unit) * unit;
    let x = bw * c;
    let y = s * c;
    // u * w, twice scaled, against the exact share.
    assert(0x100_0000 * (uw * 0x80_0000) <= 0x100_0001 * x && 0x100_0000 * (uw * 0x80_0000)
        >= 0xff_ffff * x) by (nonlinear_arith)
        requires
            uw == u * w,
            bw == b * w,
            x == bw * c,
            0x100_0000 * (u * 0x80_0000) <= 0x100_0001 * (b * c),
            0x100_0000 * (u * 0x80_0000) >= 0xff_ffff * (b * c),
    ;
    assert(0x100_0000 * x <= 0x100_0001 * y && 0x100_0000 * x >= 0xff_ffff * y)
        by (nonlinear_arith)
        requires
            x == bw * c,
            y == s * c,
            0x100_0000 * bw <= 0x100_0001 * s,
            0x100_0000 * bw >= 0xff_ffff * s,
    ;
    let z = (60000 * f) * unit;
    assert(y == z * 0x80_0000 && z > 0) by (nonlinear_arith)
        requires
            y == s * c,
            s == (60000 * unit) * unit,
            z == (60000 * f) * unit,
            f == c * p,
            unit == 0x80_0000 * p,
            p > 0,
            c > 0,
    ;
    assert(uw * 0x40_0000 <= z * 0x40_0000 + z);
    assert(uw * 0x40_0000 >= z * 0x40_0000 - z);
    let lo = ms * w;
    let hi = (ms + 1) * w;
    assert(lo * unit <= uw && hi * unit >= uw) by (nonlinear_arith)
        requires
            lo == ms * w,
            hi == (ms + 1) * w,
            uw == u * w,
            ms * unit <= u < (ms + 1) * unit,
    ;
    let g = 60000 * f;
    assert(lo * 0x40_0000 <= g * 0x40_0000 + g) by (nonlinear_arith)
        requires
            (lo * unit) * 0x40_0000 <= (g * unit) * 0x40_0000 + g * unit,
            unit > 0,
    ;
    if w > 0 {
        assert(hi * unit > uw) by (nonlinear_arith)
            requires
                hi == (ms + 1) * w,
                uw == u * w,
                u < (ms + 1) * unit,
                w > 0,
        ;
    } else {
        assert(uw == 0) by (nonlinear_arith)
            requires
                uw == u * w,
                w == 0,
        ;
    }
    assert(hi * 0x40_0000 > g * 0x40_0000 - g) by (nonlinear_arith)
        requires
            (hi * unit) * 0x40_0000 > (g * unit) * 0x40_0000 - g * unit,
            unit > 0,
    ;
}

/// The stay, at any pace whatever: 60000 over the pace, times the factor, each
/// step in single precision, cut off to whole milliseconds of 64 bits.
pub proof fn the_stay_is_computed_in_single_precision(f: Single, wpm: Single)
    ensures
        pace::stay(f, wpm) == single::truncated(
            single::product(single::quotient((Single { bits: 0x476a_6000 }), wpm), f),
            0xffff_ffff_ffff_ffff,
        ),
{
}

/// A pace below 100 becomes 100, one above 1000 becomes 1000, any other stays.
pub proof fn paces_are_held_between_100_and_1000(wpm: Single)
    ensures
        single::less(wpm, (Single { bits: 0x42c8_0000 })) ==> pace::held(wpm).bits == 0x42c8_0000,
        single::less((Single { bits: 0x447a_0000 }), wpm) ==> pace::held(wpm).bits == 0x447a_0000,
        !single::less(wpm, (Single { bits: 0x42c8_0000 })) && !single::less(
            (Single { bits: 0x447a_0000 }),
            wpm,
        ) ==> pace::held(wpm) == wpm,
        pace::on_offer(wpm) <==> single::at_most((Single { bits: 0x42c8_0000 }), wpm)
            && single::at_most(wpm, (Single { bits: 0x447a_0000 })),
{
    lemma_paces();
    lemma_pow2_pos(149);
}

} // verus!
