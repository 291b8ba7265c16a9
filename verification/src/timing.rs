//! How long words stay at whole paces: a minute divided by the pace, times the
//! factor, in whole milliseconds.
use crate::pace;
use crate::pace::{CLAUSE, FASTEST, LONG, MINUTE, PARAGRAPH, PLAIN, SENTENCE, SLOWEST};
use crate::pace_laws;
use crate::rounding;
use crate::rounding::INFINITE;
use crate::single;
use crate::single::Single;
use vstd::arithmetic::div_mod::*;
use vstd::arithmetic::mul::*;
use vstd::arithmetic::power2::*;
use vstd::prelude::*;

verus! {

/// The factors in tenths.
pub open spec fn tenths(f: Single) -> nat {
    if f.bits == PLAIN {
        10
    } else if f.bits == LONG {
        14
    } else if f.bits == CLAUSE {
        15
    } else if f.bits == SENTENCE {
        20
    } else {
        25
    }
}

/// A minute divided by a whole pace, as it is rounded.
proof fn lemma_whole_base(n: nat) -> (m: nat)
    requires
        100 <= n <= 1000,
    ensures
        single::at_most(Single { bits: SLOWEST }, single::from_whole(n)),
        single::at_most(single::from_whole(n), Single { bits: FASTEST }),
        m == rounding::nearest(60000 * pow2(149), n),
        m < INFINITE,
        rounding::is_nearest(60000 * pow2(149), n, m),
        single::quotient(Single { bits: MINUTE }, single::from_whole(n)).pattern() == m,
        60 * pow2(149) <= rounding::units(m) <= 600 * pow2(149),
{
    let unit = pow2(149);
    lemma_pow2_pos(149);
    pace_laws::lemma_paces();
    let p = pace_laws::lemma_short_is_exact(n, 149);
    rounding::lemma_exact(p, 1);
    lemma_mul_basics((n * unit) as int);
    let wpm = single::from_whole(n);
    single::lemma_number(false, p);
    assert(wpm.units() == n * unit);
    assert(100 * unit <= n * unit <= 1000 * unit) by (nonlinear_arith)
        requires
            100 <= n <= 1000,
    ;
    let b = pace_laws::lemma_base(wpm);
    assert((60000 * unit * unit) * n == (60000 * unit) * (n * unit)) by (nonlinear_arith);
    rounding::lemma_same_quotient(60000 * unit * unit, n * unit, 60000 * unit, n);
    let m = rounding::nearest(60000 * unit, n);
    rounding::lemma_nearest(60000 * unit, n);
    assert(n * unit > 0);
    single::lemma_number(false, m);
    m
}

/// The rounded minute over the pace, as a significand and a power of two.
proof fn lemma_pieces(n: nat, m: nat) -> (r: (nat, nat))
    requires
        100 <= n <= 1000,
        m < INFINITE,
        rounding::is_nearest(60000 * pow2(149), n, m),
        60 * pow2(149) <= rounding::units(m) <= 600 * pow2(149),
    ensures
        ({
            let (s, t) = r;
            &&& 0x80_0000 <= s < 0x100_0000
            &&& s == rounding::significand(m)
            &&& 14 <= t <= 18
            &&& t + rounding::exponent(m) == 149
            &&& rounding::units(m) == s * pow2(rounding::exponent(m))
            &&& pow2(149) == pow2(t) * pow2(rounding::exponent(m))
            &&& 120000 * pow2(t) <= (2 * s + 1) * n
            &&& (2 * s - 1) * n <= 120000 * pow2(t)
        }),
{
    let unit = pow2(149);
    let e = rounding::exponent(m);
    let s = rounding::significand(m);
    let step = pow2(e);
    lemma_pow2_pos(e);
    lemma_pow2_pos(149);
    lemma2_to64();
    rounding::lemma_range(m);
    if e <= 130 {
        if e < 130 {
            lemma_pow2_strictly_increases(e, 130);
        }
        lemma_pow2_adds(19, 130);
        assert(s * step < 0x100_0000 * pow2(130)) by (nonlinear_arith)
            requires
                s < 0x100_0000,
                0 < step <= pow2(130),
        ;
        assert(false);
    }
    if e >= 136 {
        if e > 136 {
            lemma_pow2_strictly_increases(136, e);
        }
        lemma_pow2_adds(13, 136);
        assert(s * step >= 0x80_0000 * pow2(136)) by (nonlinear_arith)
            requires
                s >= 0x80_0000,
                step >= pow2(136),
        ;
        assert(false);
    }
    let t = (149 - e) as nat;
    lemma_pow2_adds(t, e);
    let w = pow2(t);
    rounding::lemma_next(m);
    rounding::lemma_next((m - 1) as nat);
    rounding::lemma_exponent_grows((m - 1) as nat, m);
    if rounding::exponent((m - 1) as nat) < e {
        lemma_pow2_strictly_increases(rounding::exponent((m - 1) as nat), e);
    }
    let below = rounding::units((m - 1) as nat);
    assert(below + step >= s * step);
    assert(120000 * w <= (2 * s + 1) * n) by (nonlinear_arith)
        requires
            2 * (60000 * unit) <= (s * step + (s * step + step)) * n,
            unit == w * step,
            step > 0,
    ;
    assert((2 * s - 1) * n <= 120000 * w) by (nonlinear_arith)
        requires
            2 * (60000 * unit) >= (below + s * step) * n,
            below + step >= s * step,
            unit == w * step,
            step > 0,
    ;
    (s, t)
}

/// The stay lies below the next whole millisecond, and, unless the quotient is
/// whole, not below its own.
proof fn lemma_close(f: Single, n: nat, b: nat, u: nat, q: nat, r: nat)
    requires
        pace::is_factor(f),
        100 <= n <= 1000,
        6000 * tenths(f) == q * n + r,
        r < n,
        0x100_0000 * (b * n) <= 0x100_0001 * (60000 * pow2(149)),
        0x100_0000 * (b * n) >= 0xff_ffff * (60000 * pow2(149)),
        0x100_0000 * (u * 0x80_0000) <= 0x100_0001 * (b * pace_laws::coefficient(f)),
        0x100_0000 * (u * 0x80_0000) >= 0xff_ffff * (b * pace_laws::coefficient(f)),
    ensures
        u < (q + 1) * pow2(149),
        r > 0 ==> u >= q * pow2(149),
{
    let v = pow2(149);
    lemma_pow2_pos(149);
    let c = pace_laws::coefficient(f);
    let t = tenths(f);
    let x = u * n;
    let y = b * n;
    let p = c * v;
    let yc = y * c;
    let z = t * v;
    assert(t * 0x80_0000 - 2 <= 10 * c <= t * 0x80_0000);
    assert(10 * p <= 0x80_0000 * z && 10 * p >= 0x80_0000 * z - 2 * v) by (nonlinear_arith)
        requires
            p == c * v,
            z == t * v,
            t * 0x80_0000 - 2 <= 10 * c <= t * 0x80_0000,
    ;
    assert(0x100_0000 * (x * 0x80_0000) <= 0x100_0001 * yc && 0x100_0000 * (x * 0x80_0000)
        >= 0xff_ffff * yc) by (nonlinear_arith)
        requires
            x == u * n,
            y == b * n,
            yc == y * c,
            0x100_0000 * (u * 0x80_0000) <= 0x100_0001 * (b * c),
            0x100_0000 * (u * 0x80_0000) >= 0xff_ffff * (b * c),
    ;
    assert(0x100_0000 * yc <= 0x100_0001 * (60000 * p) && 0x100_0000 * yc >= 0xff_ffff * (60000
        * p)) by (nonlinear_arith)
        requires
            yc == y * c,
            p == c * v,
            0x100_0000 * y <= 0x100_0001 * (60000 * v),
            0x100_0000 * y >= 0xff_ffff * (60000 * v),
    ;
    let whole = (q * n) * v;
    assert(6000 * z == whole + r * v) by (nonlinear_arith)
        requires
            z == t * v,
            whole == (q * n) * v,
            6000 * t == q * n + r,
    ;
    assert(r * v + v <= n * v && z <= 25 * v && (r > 0 ==> r * v >= v)) by (nonlinear_arith)
        requires
            r < n,
            z == t * v,
            t <= 25,
    ;
    assert(x < whole + n * v);
    assert(u < (q + 1) * v) by (nonlinear_arith)
        requires
            x == u * n,
            whole == (q * n) * v,
            x < whole + n * v,
            n > 0,
    ;
    if r > 0 {
        assert(x >= whole);
        assert(u >= q * v) by (nonlinear_arith)
            requires
                x == u * n,
                whole == (q * n) * v,
                x >= whole,
                n > 0,
        ;
    }
}

/// What comes within half a step of a whole millisecond is rounded up to it.
proof fn lemma_reaches(f: Single, m: nat, s: nat, t: nat, q: nat, mq: nat, gap: nat)
    requires
        pace::is_factor(f),
        rounding::units(m) == s * pow2(rounding::exponent(m)),
        pow2(149) == pow2(t) * pow2(rounding::exponent(m)),
        0 < mq < INFINITE,
        mq % 2 == 0,
        rounding::units(mq) == q * pow2(149),
        pow2(rounding::exponent((mq - 1) as nat)) == gap * pow2(rounding::exponent(m)),
        2 * (s * pace_laws::coefficient(f)) >= (2 * (q * pow2(t)) - gap) * 0x80_0000,
    ensures
        rounding::nearest(rounding::units(m) * f.units(), pow2(149)) >= mq,
{
    let unit = pow2(149);
    let step = pow2(rounding::exponent(m));
    let w = pow2(t);
    let c = pace_laws::coefficient(f);
    let b = rounding::units(m);
    pace_laws::lemma_coefficient(f);
    lemma_pow2_pos(149);
    lemma_pow2_pos(126);
    lemma2_to64();
    lemma_pow2_adds(23, 126);
    let p = pow2(126);
    assert((b * (c * p)) * 0x80_0000 == (b * c) * (0x80_0000 * p)) by (nonlinear_arith);
    rounding::lemma_same_quotient(b * f.units(), unit, b * c, 0x80_0000);
    let l = (mq - 1) as nat;
    rounding::lemma_next(l);
    let x = 2 * (q * w) - gap;
    assert(2 * (b * c) >= (x * step) * 0x80_0000) by (nonlinear_arith)
        requires
            b == s * step,
            2 * (s * c) >= x * 0x80_0000,
    ;
    assert(x * step == 2 * (q * unit) - gap * step) by (nonlinear_arith)
        requires
            x == 2 * (q * w) - gap,
            unit == w * step,
    ;
    assert(rounding::units(l) + rounding::units(mq) == x * step);
    rounding::lemma_at_least(b * c, 0x80_0000, mq);
}

/// The step below a whole millisecond is at least the step of a smaller number,
/// and at least twice the step of a number of less than half the size.
proof fn lemma_gap(m: nat, mq: nat) -> (gap: nat)
    requires
        0x80_0000 <= m < INFINITE,
        m < mq,
    ensures
        pow2(rounding::exponent((mq - 1) as nat)) == gap * pow2(rounding::exponent(m)),
        gap >= 1,
        2 * rounding::units(m) < rounding::units(mq) ==> gap >= 2,
        rounding::exponent((mq - 1) as nat) > rounding::exponent(m) ==> gap >= 2,
        rounding::exponent((mq - 1) as nat) == rounding::exponent(m) ==> gap == 1,
{
    let l = (mq - 1) as nat;
    let e = rounding::exponent(m);
    rounding::lemma_exponent_grows(m, l);
    let k = (rounding::exponent(l) - e) as nat;
    lemma_pow2_adds(k, e);
    lemma_pow2_pos(k);
    lemma2_to64();
    if k > 0 {
        lemma_pow2_unfold(k);
        lemma_pow2_pos((k - 1) as nat);
    }
    if 2 * rounding::units(m) < rounding::units(mq) && k == 0 {
        rounding::lemma_range(m);
        rounding::lemma_parts(e + 1, rounding::significand(m));
        lemma_pow2_unfold(e + 1);
        let s = rounding::significand(m);
        assert(s * pow2(e + 1) == 2 * (s * pow2(e))) by (nonlinear_arith)
            requires
                pow2(e + 1) == 2 * pow2(e),
        ;
        let twice = m + 0x80_0000;
        assert(rounding::units(twice) == 2 * rounding::units(m));
        if twice >= mq {
            rounding::lemma_increasing(mq, twice);
        }
        rounding::lemma_exponent_grows(twice, l);
    }
    pow2(k)
}

/// A whole quotient is reached, for every factor but the one that is itself
/// rounded.
proof fn lemma_whole_quotient(f: Single, n: nat, m: nat, q: nat)
    requires
        pace::is_factor(f),
        f.bits != LONG,
        100 <= n <= 1000,
        q * n == 6000 * tenths(f),
        m < INFINITE,
        rounding::is_nearest(60000 * pow2(149), n, m),
        60 * pow2(149) <= rounding::units(m) <= 600 * pow2(149),
    ensures
        rounding::units(rounding::nearest(rounding::units(m) * f.units(), pow2(149))) >= q * pow2(
            149,
        ),
{
    let unit = pow2(149);
    let (s, t) = lemma_pieces(n, m);
    let w = pow2(t);
    let c = pace_laws::coefficient(f);
    let step = pow2(rounding::exponent(m));
    lemma_pow2_pos(149);
    lemma_pow2_pos(rounding::exponent(m));
    lemma_pow2_unfold(t);
    let qw = q * w;
    assert((q + 1) * n == q * n + n) by (nonlinear_arith);
    lemma_quotient_range(f, n, q);
    assert(tenths(f) * (2 * s + 1) >= 20 * qw) by (nonlinear_arith)
        requires
            120000 * w <= (2 * s + 1) * n,
            q * n == 6000 * tenths(f),
            qw == q * w,
            n > 0,
    ;
    let half = q * pow2((t - 1) as nat);
    assert(qw == 2 * half) by (nonlinear_arith)
        requires
            qw == q * (2 * pow2((t - 1) as nat)),
            half == q * pow2((t - 1) as nat),
    ;
    let mq = pace_laws::lemma_short_is_exact(q, 149);
    let b = rounding::units(m);
    if m >= mq {
        // The base alone is large enough.
        rounding::lemma_increasing(mq, m);
        lemma_at_least_one(f);
        assert(b * f.units() >= (q * unit) * unit) by (nonlinear_arith)
            requires
                b >= q * unit,
                f.units() >= unit,
        ;
        rounding::lemma_bounds(b * f.units(), unit, mq);
    } else {
        let gap = lemma_gap(m, mq);
        assert(q * unit == qw * step) by (nonlinear_arith)
            requires
                unit == w * step,
                qw == q * w,
        ;
        if f.bits == PARAGRAPH {
            // Five halves of the base are the quotient: the base is below its half.
            assert(25 * (2 * s - 1) <= 20 * qw) by (nonlinear_arith)
                requires
                    (2 * s - 1) * n <= 120000 * w,
                    q * n == 6000 * 25,
                    qw == q * w,
                    n > 0,
            ;
            assert(2 * (s * step) < qw * step) by (nonlinear_arith)
                requires
                    2 * s < qw,
                    step > 0,
            ;
        }
        let k: int = if f.bits == PLAIN {
            2
        } else if f.bits == CLAUSE {
            3
        } else if f.bits == SENTENCE {
            4
        } else {
            5
        };
        // The factor is `k` halves, and they come within half a step.
        lemma_halves(tenths(f) as int, k, s as int, qw as int, half as int, gap as int);
        assert(2 * (s * c) == (k * s) * 0x80_0000) by (nonlinear_arith)
            requires
                2 * c == k * 0x80_0000,
        ;
        lemma_reaches(f, m, s, t, q, mq, gap);
    }
    rounding::lemma_nearest(b * f.units(), unit);
    rounding::lemma_increasing(mq, rounding::nearest(b * f.units(), unit));
}

/// A multiple of five tenths that is a number of halves.
proof fn lemma_halves(tenths: int, k: int, s: int, qw: int, half: int, gap: int)
    requires
        tenths == 5 * k,
        2 <= k <= 5,
        tenths * (2 * s + 1) >= 20 * qw,
        qw == 2 * half,
        gap >= 1,
        k == 5 ==> gap >= 2,
    ensures
        k * s + gap >= 2 * qw,
{
    assert(k * (2 * s + 1) >= 4 * qw) by (nonlinear_arith)
        requires
            tenths == 5 * k,
            tenths * (2 * s + 1) >= 20 * qw,
    ;
    assert(k * (2 * s + 1) == 2 * (k * s) + k) by (nonlinear_arith);
    let y = k * s;
    if k == 4 {
        assert(y == 4 * s) by (nonlinear_arith)
            requires
                y == k * s,
                k == 4,
        ;
    }
    assert(2 * y + k >= 8 * half);
}

/// Every factor is at least one.
proof fn lemma_at_least_one(f: Single)
    requires
        pace::is_factor(f),
    ensures
        f.units() >= pow2(149),
{
    pace_laws::lemma_coefficient(f);
    lemma2_to64();
    lemma_pow2_adds(23, 126);
    let p = pow2(126);
    let c = pace_laws::coefficient(f);
    assert(c * p >= 0x80_0000 * p) by (nonlinear_arith)
        requires
            c >= 0x80_0000,
    ;
}

/// The quotients that occur.
proof fn lemma_quotient_range(f: Single, n: nat, q: nat)
    requires
        100 <= n <= 1000,
        q * n <= 6000 * tenths(f) < (q + 1) * n,
    ensures
        60 <= q <= 1500,
{
    let r = 6000 * tenths(f);
    assert(60 <= q <= 1500) by (nonlinear_arith)
        requires
            100 <= n <= 1000,
            q * n <= r < (q + 1) * n,
            60000 <= r <= 150000,
    ;
}

/// The stay at a whole pace, once a whole quotient is known to be reached.
proof fn lemma_stay_is(f: Single, n: nat, m: nat)
    requires
        pace::is_factor(f),
        100 <= n <= 1000,
        single::at_most(Single { bits: SLOWEST }, single::from_whole(n)),
        single::at_most(single::from_whole(n), Single { bits: FASTEST }),
        m == rounding::nearest(60000 * pow2(149), n),
        m < INFINITE,
        60 * pow2(149) <= rounding::units(m) <= 600 * pow2(149),
        single::quotient(Single { bits: MINUTE }, single::from_whole(n)).pattern() == m,
        ({
            let q = (6000 * tenths(f)) as nat / n;
            q * n == 6000 * tenths(f) ==> rounding::units(
                rounding::nearest(rounding::units(m) * f.units(), pow2(149)),
            ) >= q * pow2(149)
        }),
    ensures
        pace::stay(f, single::from_whole(n)) == (6000 * tenths(f)) as nat / n,
{
    let unit = pow2(149);
    lemma_pow2_pos(149);
    let wpm = single::from_whole(n);
    let b = pace_laws::lemma_base(wpm);
    assert(b == rounding::units(m));
    let u = pace_laws::lemma_stay(f, wpm, b);
    let top = (6000 * tenths(f)) as nat;
    let q = top / n;
    let r = top % n;
    lemma_fundamental_div_mod(top as int, n as int);
    lemma_mul_is_commutative(n as int, q as int);
    lemma2_to64();
    lemma_pow2_strictly_increases(32, 149);
    assert(60000 * unit >= 0x100_0000 * n);
    pace_laws::lemma_relative_error(60000 * unit, n);
    lemma_close(f, n, b, u, q, r);
    assert(u / unit == q) by {
        assert((q + 1) * unit == q * unit + unit) by (nonlinear_arith);
        lemma_fundamental_div_mod_converse(u as int, unit as int, q as int, u - q * unit);
    }
}

/// The whole quotients at which the base and the quotient have the same step.
proof fn lemma_divisors(n: u32, q: u32)
    requires
        n * q == 84000,
        100 <= n <= 1000,
        n != 875,
    ensures
        90 <= q <= 128 ==> q == 100 || q == 105 || q == 112 || q == 120 || q == 125,
        180 <= q <= 256 ==> q == 200 || q == 210 || q == 224 || q == 240 || q == 250,
        359 <= q <= 512 ==> q == 375 || q == 400 || q == 420 || q == 480 || q == 500,
        717 <= q ==> q == 750 || q == 800 || q == 840,
{
    assert(q <= 840) by (nonlinear_arith)
        requires
            n * q == 84000,
            100 <= n,
    ;
    assert(90 <= q <= 128 && n * q == 84000 && 100 <= n <= 1000 && n != 875 ==> q == 100 || q
        == 105 || q == 112 || q == 120 || q == 125) by (bit_vector);
    assert(180 <= q <= 256 && n * q == 84000 && 100 <= n <= 1000 ==> q == 200 || q == 210 || q
        == 224 || q == 240 || q == 250) by (bit_vector);
    assert(359 <= q <= 512 && n * q == 84000 && 100 <= n <= 1000 ==> q == 375 || q == 400 || q
        == 420 || q == 480 || q == 500) by (bit_vector);
    assert(717 <= q <= 840 && n * q == 84000 && 100 <= n <= 1000 ==> q == 750 || q == 800 || q
        == 840) by (bit_vector);
}

/// Where the base and the quotient have the same step, the error of the base
/// and that of the factor stay within half of it.
proof fn lemma_same_step(n: int, q: int, s: int, t: nat)
    requires
        100 <= n <= 1000,
        n != 875,
        84 <= q <= 840,
        n * q == 84000,
        14 <= t <= 18,
        -6 <= 10 * (q * pow2(t)) - 14 * s <= 6,
        0x80_0000 <= s < 0x100_0000,
        q * pow2(t) <= 0x100_0000,
    ensures
        (20 * (q * pow2(t)) - 28 * s) * 0x80_0000 + 4 * s <= 0x500_0000,
{
    lemma2_to64();
    lemma_divisors(n as u32, q as u32);
    if t == 14 {
        assert(q * 0x4000 == q * pow2(14));
        assert(717 <= q);
    } else if t == 15 {
        assert(q * 0x8000 == q * pow2(15));
        assert(359 <= q <= 512);
    } else if t == 16 {
        assert(q * 0x1_0000 == q * pow2(16));
        assert(180 <= q <= 256);
    } else if t == 17 {
        assert(q * 0x2_0000 == q * pow2(17));
        assert(90 <= q <= 128);
    } else {
        assert(q * 0x4_0000 == q * pow2(18));
    }
}

/// A whole quotient is reached for long words too, at every pace but one.
proof fn lemma_long_quotient(n: nat, m: nat, q: nat)
    requires
        100 <= n <= 1000,
        n != 875,
        q * n == 84000,
        m < INFINITE,
        rounding::is_nearest(60000 * pow2(149), n, m),
        60 * pow2(149) <= rounding::units(m) <= 600 * pow2(149),
    ensures
        rounding::units(
            rounding::nearest(rounding::units(m) * (Single { bits: LONG }).units(), pow2(149)),
        ) >= q * pow2(149),
{
    let f = Single { bits: LONG };
    let unit = pow2(149);
    let (s, t) = lemma_pieces(n, m);
    let w = pow2(t);
    let c = pace_laws::coefficient(f);
    let step = pow2(rounding::exponent(m));
    lemma_pow2_pos(149);
    lemma_pow2_pos(rounding::exponent(m));
    let qw = q * w;
    assert((q + 1) * n == q * n + n) by (nonlinear_arith);
    lemma_quotient_range(f, n, q);
    assert(n * q == q * n && 84 <= q <= 840) by (nonlinear_arith)
        requires
            q * n == 84000,
            100 <= n <= 1000,
    ;
    assert(14 * (2 * s + 1) >= 20 * qw && 14 * (2 * s - 1) <= 20 * qw) by (nonlinear_arith)
        requires
            120000 * w <= (2 * s + 1) * n,
            (2 * s - 1) * n <= 120000 * w,
            q * n == 84000,
            qw == q * w,
            n > 0,
    ;
    assert(-6 <= 10 * qw - 14 * s <= 6);
    let mq = pace_laws::lemma_short_is_exact(q, 149);
    let b = rounding::units(m);
    if m >= mq {
        // The base alone is large enough.
        rounding::lemma_increasing(mq, m);
        lemma_at_least_one(f);
        assert(b * f.units() >= (q * unit) * unit) by (nonlinear_arith)
            requires
                b >= q * unit,
                f.units() >= unit,
        ;
        rounding::lemma_bounds(b * f.units(), unit, mq);
    } else {
        let gap = lemma_gap(m, mq);
        let l = (mq - 1) as nat;
        if rounding::exponent(l) == rounding::exponent(m) {
            rounding::lemma_range(l);
            rounding::lemma_next(l);
            let sl = rounding::significand(l);
            assert(qw <= 0x100_0000) by (nonlinear_arith)
                requires
                    q * unit == sl * step + step,
                    sl < 0x100_0000,
                    unit == w * step,
                    qw == q * w,
                    step > 0,
            ;
            lemma_same_step(n as int, q as int, s as int, t);
            assert(gap == 1);
            assert((20 * qw - 28 * s) * 0x80_0000 + 4 * s <= 0x500_0000);
        } else {
            rounding::lemma_exponent_grows(m, l);
            assert(gap >= 2);
            assert((20 * qw - 28 * s) * 0x80_0000 + 4 * s <= 0xa00_0000);
        }
        assert((20 * qw - 28 * s) * 0x80_0000 + 4 * s <= 0x500_0000 * gap);
        lemma_reaches(f, m, s, t, q, mq, gap);
    }
    rounding::lemma_nearest(b * f.units(), unit);
    rounding::lemma_increasing(mq, rounding::nearest(b * f.units(), unit));
}

/// At every whole pace on offer a word stays for its share of a minute in whole
/// milliseconds: one minute over the pace, times 1, 1.4, 1.5, 2 or 2.5. The one
/// exception is a long word at 875 words a minute, where rounding makes 95 of
/// the 96 milliseconds.
pub proof fn stay_at_a_whole_pace(f: Single, n: nat)
    requires
        pace::is_factor(f),
        100 <= n <= 1000,
        !(f.bits == LONG && n == 875),
    ensures
        pace::stay(f, single::from_whole(n)) == (6000 * tenths(f)) as nat / n,
{
    let m = lemma_whole_base(n);
    let q = (6000 * tenths(f)) as nat / n;
    if q * n == 6000 * tenths(f) {
        if f.bits == LONG {
            lemma_long_quotient(n, m, q);
        } else {
            lemma_whole_quotient(f, n, m, q);
        }
    }
    lemma_stay_is(f, n, m);
}

} // verus!
