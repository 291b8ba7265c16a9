//! Reading decimal numerals as single precision numbers.
use crate::big::Big;
use crate::rounding;
use crate::rounding::INFINITE;
use crate::single;
use crate::single::Single;
use vstd::arithmetic::div_mod::*;
use vstd::arithmetic::mul::*;
use vstd::arithmetic::power2::*;
use vstd::prelude::*;
use vstd::slice::*;

verus! {

/// A decimal digit.
pub open spec fn digit(c: char) -> bool {
    '0' <= c <= '9'
}

/// How many digits `s` begins with.
pub open spec fn digit_run(s: Seq<char>) -> nat
    decreases s.len(),
{
    if s.len() > 0 && digit(s[0]) {
        1 + digit_run(s.skip(1))
    } else {
        0
    }
}

/// The whole number that the digits `s` write.
pub open spec fn value(s: Seq<char>) -> nat
    decreases s.len(),
{
    if s.len() == 0 {
        0
    } else {
        (value(s.drop_last()) * 10 + (s.last() as nat - '0' as nat)) as nat
    }
}

/// Ten to the power `k`.
pub open spec fn ten(k: nat) -> nat
    decreases k,
{
    if k == 0 {
        1
    } else {
        10 * ten((k - 1) as nat)
    }
}

/// Whether `s` begins with a minus sign.
pub open spec fn minus(s: Seq<char>) -> bool {
    s.len() > 0 && s[0] == '-'
}

/// `s` without the sign that it may begin with.
pub open spec fn unsigned(s: Seq<char>) -> Seq<char> {
    if s.len() > 0 && (s[0] == '-' || s[0] == '+') {
        s.skip(1)
    } else {
        s
    }
}

/// The power of ten that `s` names behind the digits: zero if `s` is empty,
/// otherwise the number behind an `e`.
pub open spec fn power(s: Seq<char>) -> Option<int> {
    if s.len() == 0 {
        Some(0)
    } else if s[0] == 'e' || s[0] == 'E' {
        let digits = unsigned(s.skip(1));
        if digits.len() > 0 && digit_run(digits) == digits.len() {
            if minus(s.skip(1)) {
                Some(-(value(digits) as int))
            } else {
                Some(value(digits) as int)
            }
        } else {
            None
        }
    } else {
        None
    }
}

/// The digits of an unsigned numeral before and behind its point, and what
/// follows them.
pub open spec fn split(s: Seq<char>) -> (Seq<char>, Seq<char>, Seq<char>) {
    let i = digit_run(s) as int;
    let rest = s.skip(i);
    if rest.len() > 0 && rest[0] == '.' {
        let tail = rest.skip(1);
        let j = digit_run(tail) as int;
        (s.take(i), tail.take(j), tail.skip(j))
    } else {
        (s.take(i), Seq::empty(), rest)
    }
}

/// The unsigned numeral `s` as a whole number and a power of ten to scale it
/// by.
pub open spec fn decimal(s: Seq<char>) -> Option<(nat, int)> {
    let (whole, fraction, tail) = split(s);
    match power(tail) {
        Some(e) => if whole.len() + fraction.len() > 0 {
            Some((value(whole + fraction), e - fraction.len()))
        } else {
            None
        },
        None => None,
    }
}

/// The pattern nearest to `d * 10^e`.
pub open spec fn decimal_pattern(d: nat, e: int) -> nat {
    if e >= 0 {
        rounding::nearest(d * ten(e as nat) * pow2(149), 1)
    } else {
        rounding::nearest(d * pow2(149), ten((-e) as nat))
    }
}

/// The lower case of an ASCII letter.
pub open spec fn lower(c: char) -> char {
    if 'A' <= c <= 'Z' {
        (c as u32 + 32) as char
    } else {
        c
    }
}

/// Whether `s` is `name`, upper and lower case being the same.
pub open spec fn named(s: Seq<char>, name: Seq<char>) -> bool {
    s.len() == name.len() && forall|i: int| 0 <= i < s.len() ==> lower(s[i]) == name[i]
}

/// The number that the numeral `s` writes: an optional sign, then digits with
/// an optional point among them and an optional power of ten, or `inf`,
/// `infinity` or `nan`.
pub open spec fn parsed(s: Seq<char>) -> Option<Single> {
    let body = unsigned(s);
    if named(body, seq!['i', 'n', 'f']) || named(
        body,
        seq!['i', 'n', 'f', 'i', 'n', 'i', 't', 'y'],
    ) {
        Some(single::number(minus(s), INFINITE as nat))
    } else if named(body, seq!['n', 'a', 'n']) {
        Some(single::number(minus(s), single::not_a_number().pattern()))
    } else {
        match decimal(body) {
            Some((d, e)) => Some(single::number(minus(s), decimal_pattern(d, e))),
            None => None,
        }
    }
}

/// A run of digits lies within the text and holds digits only.
proof fn lemma_run(s: Seq<char>)
    ensures
        digit_run(s) <= s.len(),
        forall|i: int| 0 <= i < digit_run(s) ==> digit(#[trigger] s[i]),
    decreases s.len(),
{
    if s.len() > 0 && digit(s[0]) {
        lemma_run(s.skip(1));
        assert forall|i: int| 0 <= i < digit_run(s) implies digit(#[trigger] s[i]) by {
            if i > 0 {
                assert(s.skip(1)[i - 1] == s[i]);
            }
        }
    }
}

/// Powers of ten multiply.
proof fn lemma_ten_adds(a: nat, b: nat)
    ensures
        ten(a + b) == ten(a) * ten(b),
        ten(a) > 0,
    decreases a,
{
    if a > 0 {
        lemma_ten_adds((a - 1) as nat, b);
        let x = ten((a - 1) as nat);
        let y = ten(b);
        assert(10 * (x * y) == (10 * x) * y) by (nonlinear_arith);
    } else {
        assert(1 * ten(b) == ten(b));
    }
}

/// Powers of ten grow.
proof fn lemma_ten_grows(a: nat, b: nat)
    requires
        a <= b,
    ensures
        0 < ten(a) <= ten(b),
{
    lemma_ten_adds(a, (b - a) as nat);
    lemma_ten_adds((b - a) as nat, 0);
    let x = ten(a);
    let y = ten((b - a) as nat);
    assert(x * y >= x) by (nonlinear_arith)
        requires
            x > 0,
            y > 0,
    ;
}

/// Digits below ten stay below a power of ten; a leading digit that is not
/// zero keeps the number at least the one below.
proof fn lemma_value_range(s: Seq<char>)
    requires
        forall|i: int| 0 <= i < s.len() ==> digit(#[trigger] s[i]),
    ensures
        value(s) < ten(s.len()),
        s.len() > 0 && s[0] != '0' ==> value(s) >= ten((s.len() - 1) as nat),
    decreases s.len(),
{
    if s.len() > 0 {
        lemma_value_range(s.drop_last());
        assert(digit(s.last()));
        if s.len() > 1 {
            assert(s.drop_last()[0] == s[0]);
        }
    }
}

/// Zeros in front do not change the number.
proof fn lemma_leading_zero(s: Seq<char>)
    requires
        s.len() > 0,
        s[0] == '0',
    ensures
        value(s.skip(1)) == value(s),
    decreases s.len(),
{
    if s.len() == 1 {
        assert(s.drop_last() =~= Seq::<char>::empty());
        assert(s.skip(1) =~= Seq::<char>::empty());
    } else {
        lemma_leading_zero(s.drop_last());
        assert(s.skip(1).drop_last() =~= s.drop_last().skip(1));
    }
}

/// Two powers that are larger than the range of magnitudes.
proof fn lemma_ten_wide()
    ensures
        ten(50) >= pow2(128),
        ten(61) >= pow2(151),
{
    lemma2_to64();
    lemma2_to64_rest();
    lemma_pow2_adds(64, 64);
    lemma_pow2_adds(128, 23);
    let w = pow2(64);
    let b = ten(10);
    assert(b == 10_000_000_000) by {
        reveal_with_fuel(ten, 11);
    }
    lemma_ten_adds(10, 10);
    lemma_ten_adds(20, 20);
    lemma_ten_adds(40, 10);
    assert(ten(20) >= w) by (nonlinear_arith)
        requires
            ten(20) == b * b,
            b == 10_000_000_000,
            w == 0x1_0000_0000_0000_0000,
    ;
    assert(ten(40) >= w * w) by (nonlinear_arith)
        requires
            ten(40) == ten(20) * ten(20),
            ten(20) >= w,
    ;
    assert(ten(50) >= (w * w) * b) by (nonlinear_arith)
        requires
            ten(50) == ten(40) * b,
            ten(40) >= w * w,
    ;
    assert((w * w) * b >= w * w && (w * w) * b >= (w * w) * 0x80_0000) by (nonlinear_arith)
        requires
            b == 10_000_000_000,
            w >= 0,
    ;
    assert(ten(61) >= ten(50)) by {
        lemma_ten_grows(50, 61);
    }
}

/// What has too many digits before the point is infinite.
proof fn lemma_huge(d: nat, e: int, n: nat)
    requires
        n > 0,
        d >= ten((n - 1) as nat),
        n + e > 50,
    ensures
        decimal_pattern(d, e) == INFINITE,
{
    lemma_ten_wide();
    lemma2_to64();
    rounding::lemma_parts(254, 0x80_0000);
    lemma_pow2_adds(23, 254);
    lemma_pow2_adds(128, 149);
    let top = rounding::units(INFINITE as nat);
    assert(top == pow2(277));
    let p = pow2(149);
    let w = pow2(128);
    if e >= 0 {
        lemma_ten_adds((n - 1) as nat, e as nat);
        lemma_ten_grows(50, (n - 1 + e) as nat);
        lemma_ten_adds(e as nat, 0);
        let t = ten(e as nat);
        assert(d * t >= ten((n - 1) as nat) * t) by (nonlinear_arith)
            requires
                d >= ten((n - 1) as nat),
                t > 0,
        ;
        assert(d * t * p >= w * p) by (nonlinear_arith)
            requires
                d * t >= w,
        ;
        rounding::lemma_overflow(d * t * p, 1);
        rounding::lemma_nearest_is(d * t * p, 1, INFINITE as nat);
    } else {
        let k = (-e) as nat;
        let t = ten(k);
        lemma_ten_adds(50, k);
        lemma_ten_adds(k, 0);
        lemma_ten_grows(50 + k, (n - 1) as nat);
        assert(d * p >= (w * p) * t) by (nonlinear_arith)
            requires
                d >= ten(50) * t,
                ten(50) >= w,
        ;
        rounding::lemma_overflow(d * p, t);
        rounding::lemma_nearest_is(d * p, t, INFINITE as nat);
    }
}

/// What has too many zeros behind the point is zero.
proof fn lemma_tiny(d: nat, e: int, n: nat)
    requires
        d < ten(n),
        n + e < -60,
    ensures
        decimal_pattern(d, e) == 0,
{
    lemma_ten_wide();
    lemma2_to64();
    let k = (-e) as nat;
    let t = ten(k);
    let p = pow2(149);
    lemma_pow2_pos(149);
    lemma_pow2_adds(149, 2);
    lemma_ten_adds(n, 61);
    lemma_ten_adds(k, 0);
    lemma_ten_grows(n + 61, k);
    assert(2 * (d * p) < t) by (nonlinear_arith)
        requires
            d < ten(n),
            t >= ten(n) * ten(61),
            ten(61) >= p * 4,
            p > 0,
    ;
    rounding::lemma_parts(0, 0);
    rounding::lemma_parts(0, 1);
    assert((rounding::units(0) + rounding::units(1)) * t == t) by {
        lemma_mul_basics(t as int);
    }
    rounding::lemma_nearest_is(d * p, t, 0);
}

/// Nothing is zero, whatever the power.
proof fn lemma_none(e: int)
    ensures
        decimal_pattern(0, e) == 0,
{
    let t = ten(if e >= 0 { e as nat } else { (-e) as nat });
    let p = pow2(149);
    lemma_ten_adds(if e >= 0 { e as nat } else { (-e) as nat }, 0);
    lemma2_to64();
    rounding::lemma_parts(0, 0);
    lemma_mul_basics(pow2(0) as int);
    lemma_mul_basics(t as int);
    lemma_mul_basics(p as int);
    rounding::lemma_exact(0, 1);
    rounding::lemma_exact(0, t);
}

/// How many digits `s` begins with.
fn run_of_digits(s: &[char]) -> (r: usize)
    ensures
        r == digit_run(s@),
        r <= s@.len(),
{
    let mut i: usize = 0;
    assert(s@.skip(0) =~= s@);
    while i < s.len() && '0' <= s[i] && s[i] <= '9'
        invariant
            i <= s.len(),
            digit_run(s@) == i + digit_run(s@.skip(i as int)),
        decreases s.len() - i,
    {
        assert(s@.skip(i as int).skip(1) =~= s@.skip(i + 1));
        i = i + 1;
    }
    i
}

/// Whether `s` is `name`, upper and lower case being the same.
fn is_named(s: &[char], name: &[char]) -> (r: bool)
    ensures
        r == named(s@, name@),
{
    if s.len() != name.len() {
        return false;
    }
    let mut i: usize = 0;
    while i < s.len()
        invariant
            i <= s.len(),
            s.len() == name.len(),
            forall|j: int| 0 <= j < i ==> lower(s@[j]) == name@[j],
        decreases s.len() - i,
    {
        let c: char = s[i];
        let l: char = if 'A' <= c && c <= 'Z' {
            (c as u8 + 32) as char
        } else {
            c
        };
        assert(l == lower(s@[i as int]));
        if l != name[i] {
            return false;
        }
        i = i + 1;
    }
    true
}

/// The magnitude of pattern `m` times `d`.
fn units_times(m: u32, d: &Big) -> (r: Big)
    requires
        m <= INFINITE,
    ensures
        r@ == rounding::units(m as nat) * d@,
{
    let (s, e) = (Single { bits: m }).parts();
    let r = d.mul_add(s, 0).shifted(e);
    assert(d@ * s * pow2(e as nat) == (s * pow2(e as nat)) * d@) by (nonlinear_arith);
    r
}

/// The pattern nearest to the quotient `n / d`, found by halving the range.
fn nearest_quotient(n: &Big, d: &Big) -> (m: u32)
    requires
        d@ > 0,
    ensures
        m == rounding::nearest(n@, d@),
        m <= INFINITE,
{
    let top = units_times(INFINITE, d);
    if top.le(n) {
        proof {
            rounding::lemma_overflow(n@, d@);
            rounding::lemma_nearest_is(n@, d@, INFINITE as nat);
        }
        return INFINITE;
    }
    let mut low: u32 = 0;
    let mut high: u32 = INFINITE;
    proof {
        rounding::lemma_parts(0, 0);
        lemma_mul_basics(pow2(0) as int);
        lemma_mul_basics(d@ as int);
    }
    while high - low > 1
        invariant
            low < high <= INFINITE,
            rounding::units(low as nat) * d@ <= n@ < rounding::units(high as nat) * d@,
        decreases high - low,
    {
        let middle: u32 = low + (high - low) / 2;
        let product = units_times(middle, d);
        if product.le(n) {
            low = middle;
        } else {
            high = middle;
        }
    }
    proof {
        rounding::lemma_between(n@, d@, low as nat);
        rounding::lemma_next(low as nat);
    }
    let twice = n.mul_add(2, 0);
    let (s, e) = (Single { bits: low }).parts();
    let middle = d.mul_add(2 * s + 1, 0).shifted(e);
    proof {
        let p = pow2(e as nat);
        assert(rounding::units(high as nat) == rounding::units(low as nat) + p);
        assert(d@ * (2 * s + 1) * p == (s * p + (s * p + p)) * d@) by (nonlinear_arith);
    }
    if twice.le(&middle) {
        if middle.le(&twice) && low % 2 == 1 {
            proof {
                rounding::lemma_nearest_is(n@, d@, high as nat);
            }
            high
        } else {
            proof {
                rounding::lemma_nearest_is(n@, d@, low as nat);
            }
            low
        }
    } else {
        proof {
            rounding::lemma_nearest_is(n@, d@, high as nat);
        }
        high
    }
}

/// The pattern nearest to `d / 10^k`, for a number with few digits.
fn short_decimal(d: u64, k: u32) -> (m: u32)
    requires
        k <= 8,
    ensures
        m == decimal_pattern(d as nat, -(k as int)),
        m <= INFINITE,
{
    let mut div: u128 = 1;
    let mut i: u32 = 0;
    while i < k
        invariant
            i <= k <= 8,
            div == ten(i as nat),
            1 <= div <= 100_000_000,
            i < 8 ==> div <= 10_000_000,
            i < 7 ==> div <= 1_000_000,
            i < 6 ==> div <= 100_000,
            i < 5 ==> div <= 10_000,
            i < 4 ==> div <= 1_000,
            i < 3 ==> div <= 100,
            i < 2 ==> div <= 10,
            i < 1 ==> div <= 1,
        decreases k - i,
    {
        div = div * 10;
        i = i + 1;
    }
    let high: u128 = d as u128 * 0x80_0000_0000_0000;
    let sig: u128 = high / div;
    let rem: u128 = high % div;
    let sticky: bool = rem != 0;
    proof {
        lemma2_to64();
        lemma2_to64_rest();
        lemma_pow2_adds(60, 60);
        lemma_fundamental_div_mod(high as int, div as int);
        assert(sig <= high) by (nonlinear_arith)
            requires
                high == div * sig + rem,
                div >= 1,
                rem >= 0,
                sig >= 0,
        ;
        if d > 0 {
            assert(sig >= 0x200_0000) by (nonlinear_arith)
                requires
                    high == div * sig + rem,
                    high >= 0x80_0000_0000_0000,
                    div <= 100_000_000,
                    rem < div,
            ;
        } else {
            assert(rem == 0) by (nonlinear_arith)
                requires
                    0 == div * sig + rem,
                    div >= 1,
                    rem >= 0,
                    sig >= 0,
            ;
        }
        let n = d as nat * pow2(149);
        let up = pow2(94);
        lemma_pow2_pos(94);
        lemma_pow2_adds(55, 94);
        assert(n == high * up) by (nonlinear_arith)
            requires
                n == d * pow2(149),
                pow2(149) == pow2(55) * up,
                high == d * pow2(55),
        ;
        assert(high * up == sig * (up * div) + rem * up) by (nonlinear_arith)
            requires
                high == div * sig + rem,
        ;
        assert((sig + 1) * (up * div) == sig * (up * div) + up * div) by (nonlinear_arith);
        assert(rem * up < up * div) by (nonlinear_arith)
            requires
                rem < div,
                up > 0,
        ;
        assert(rem * up == 0 <==> rem == 0) by (nonlinear_arith)
            requires
                up > 0,
                rem >= 0,
        ;
        lemma_mul_basics(n as int);
        assert(rounding::scaled(n, div as nat, sig as nat, 94, sticky));
        if k == 0 {
            lemma_mul_basics(d as int);
            assert(ten(0) == 1);
            assert(d as nat * ten(0) * pow2(149) == n);
        }
    }
    rounding::assemble(sig, 94, sticky)
}

/// The pattern nearest to `value(digits) * 10^e`.
fn long_decimal(digits: &[char], e: i128) -> (m: u32)
    requires
        forall|i: int| 0 <= i < digits@.len() ==> digit(#[trigger] digits@[i]),
        -0x4_0000_0000_0000_0000 <= e <= 0x4_0000_0000_0000_0000,
    ensures
        m == decimal_pattern(value(digits@), e as int),
        m <= INFINITE,
{
    let mut n = Big::from_u32(0);
    let mut i: usize = 0;
    while i < digits.len()
        invariant
            i <= digits.len(),
            n@ == value(digits@.take(i as int)),
            forall|i: int| 0 <= i < digits@.len() ==> digit(#[trigger] digits@[i]),
        decreases digits.len() - i,
    {
        assert(digit(digits@[i as int]));
        n = n.mul_add(10, digits[i] as u32 - '0' as u32);
        assert(digits@.take(i + 1).drop_last() =~= digits@.take(i as int));
        i = i + 1;
    }
    assert(digits@.take(digits@.len() as int) =~= digits@);
    let ghost v = value(digits@);
    if e >= 0 {
        let mut k: i128 = 0;
        proof {
            lemma_mul_basics(v as int);
        }
        while k < e
            invariant
                0 <= k <= e,
                n@ == v * ten(k as nat),
            decreases e - k,
        {
            n = n.mul_add(10, 0);
            proof {
                let t = ten(k as nat);
                assert((v * t) * 10 == v * (10 * t)) by (nonlinear_arith);
            }
            k = k + 1;
        }
        let n = n.shifted(149);
        let d = Big::from_u32(1);
        nearest_quotient(&n, &d)
    } else {
        let n = n.shifted(149);
        let mut d = Big::from_u32(1);
        let mut k: i128 = 0;
        while k < -e
            invariant
                -0x4_0000_0000_0000_0000 <= e < 0,
                0 <= k <= -e,
                d@ == ten(k as nat),
            decreases -e - k,
        {
            d = d.mul_add(10, 0);
            k = k + 1;
        }
        proof {
            lemma_ten_adds(k as nat, 0);
        }
        nearest_quotient(&n, &d)
    }
}

/// The largest power of ten that is told from the larger ones.
const POWER_LIMIT: i128 = 1_000_000_000_000_000_000_000_000_000_000;

/// Whether `x` is `e`, held to the limit.
spec fn clipped(x: int, e: int) -> bool {
    ||| x == e
    ||| x == POWER_LIMIT && e >= POWER_LIMIT
    ||| x == -POWER_LIMIT && e <= -POWER_LIMIT
}

/// The number that the digits `s` write, held to the limit.
fn limited_value(s: &[char]) -> (r: i128)
    requires
        forall|i: int| 0 <= i < s@.len() ==> digit(#[trigger] s@[i]),
    ensures
        r == (if value(s@) < POWER_LIMIT {
            value(s@) as int
        } else {
            POWER_LIMIT as int
        }),
{
    let mut r: i128 = 0;
    let mut i: usize = 0;
    while i < s.len()
        invariant
            i <= s.len(),
            forall|i: int| 0 <= i < s@.len() ==> digit(#[trigger] s@[i]),
            0 <= r <= POWER_LIMIT,
            ({
                let v = value(s@.take(i as int));
                r == (if v < POWER_LIMIT {
                    v as int
                } else {
                    POWER_LIMIT as int
                })
            }),
        decreases s.len() - i,
    {
        assert(digit(s@[i as int]));
        assert(s@.take(i + 1).drop_last() =~= s@.take(i as int));
        let next: i128 = r * 10 + (s[i] as i128 - '0' as i128);
        r = if next < POWER_LIMIT {
            next
        } else {
            POWER_LIMIT
        };
        i = i + 1;
    }
    assert(s@.take(s@.len() as int) =~= s@);
    r
}

/// The power of ten that `s` names behind the digits, held to the limit.
fn power_of(s: &[char]) -> (r: Option<i128>)
    ensures
        match power(s@) {
            Some(e) => r matches Some(x) && clipped(x as int, e) && -POWER_LIMIT <= x
                <= POWER_LIMIT,
            None => r is None,
        },
{
    if s.len() == 0 {
        return Some(0);
    }
    if s[0] != 'e' && s[0] != 'E' {
        return None;
    }
    let rest = slice_subrange(s, 1, s.len());
    assert(rest@ =~= s@.skip(1));
    let digits = without_sign(rest);
    if digits.len() == 0 || run_of_digits(digits) != digits.len() {
        return None;
    }
    proof {
        lemma_run(digits@);
    }
    let v = limited_value(digits);
    if rest[0] == '-' {
        Some(-v)
    } else {
        Some(v)
    }
}

/// `s` without the sign that it may begin with.
fn without_sign<'a>(s: &'a [char]) -> (r: &'a [char])
    ensures
        r@ == unsigned(s@),
        r@.len() > 0 ==> s@.len() > 0,
{
    if s.len() > 0 && (s[0] == '-' || s[0] == '+') {
        assert(s@.subrange(1, s@.len() as int) =~= s@.skip(1));
        slice_subrange(s, 1, s.len())
    } else {
        s
    }
}

/// The pattern that the unsigned numeral `s` writes.
fn decimal_of(s: &[char]) -> (r: Option<u32>)
    ensures
        match decimal(s@) {
            Some((d, e)) => r matches Some(m) && m == decimal_pattern(d, e) && m <= INFINITE,
            None => r is None,
        },
{
    let i = run_of_digits(s);
    let rest = slice_subrange(s, i, s.len());
    assert(rest@ =~= s@.skip(i as int));
    let mut digits: Vec<char> = Vec::new();
    let mut k: usize = 0;
    while k < i
        invariant
            k <= i <= s.len(),
            digits@ == s@.take(k as int),
        decreases i - k,
    {
        digits.push(s[k]);
        k = k + 1;
    }
    let mut places: usize = 0;
    let mut tail: &[char] = rest;
    proof {
        lemma_run(s@);
    }
    if rest.len() > 0 && rest[0] == '.' {
        let behind = slice_subrange(rest, 1, rest.len());
        assert(behind@ =~= rest@.skip(1));
        places = run_of_digits(behind);
        let mut j: usize = 0;
        assert(digits@ =~= s@.take(i as int) + behind@.take(0));
        while j < places
            invariant
                j <= places <= behind.len(),
                digits@ == s@.take(i as int) + behind@.take(j as int),
            decreases places - j,
        {
            digits.push(behind[j]);
            assert(digits@ =~= s@.take(i as int) + behind@.take(j + 1));
            j = j + 1;
        }
        tail = slice_subrange(behind, places, behind.len());
        proof {
            lemma_run(behind@);
            assert(tail@ =~= behind@.skip(places as int));
        }
    } else {
        assert(digits@ =~= s@.take(i as int) + Seq::<char>::empty());
    }
    assert(split(s@).0 + split(s@).1 == digits@ && split(s@).2 == tail@ && split(s@).1.len()
        == places);
    let x = match power_of(tail) {
        Some(x) => x,
        None => {
            return None;
        },
    };
    if digits.len() == 0 {
        return None;
    }
    let ghost d = value(digits@);
    let ghost e = power(tail@)->0 - places;
    assert(forall|i: int| 0 <= i < digits@.len() ==> digit(#[trigger] digits@[i])) by {
        lemma_run(s@);
    }
    let exponent: i128 = x - places as i128;
    if digits.len() <= 19 && exponent <= 0 && exponent >= -8 {
        let mut v: u64 = 0;
        let mut j: usize = 0;
        assert(ten(0) == 1);
        while j < digits.len()
            invariant
                j <= digits.len() <= 19,
                forall|i: int| 0 <= i < digits@.len() ==> digit(#[trigger] digits@[i]),
                v == value(digits@.take(j as int)),
            decreases digits.len() - j,
        {
            assert(digit(digits@[j as int]));
            assert(digits@.take(j + 1).drop_last() =~= digits@.take(j as int));
            assert(v * 10 + 9 < 10_000_000_000_000_000_000) by {
                lemma_value_range(digits@.take(j as int));
                lemma_ten_grows(j as nat, 18);
                assert(ten(18) == 1_000_000_000_000_000_000) by {
                    reveal_with_fuel(ten, 19);
                }
            }
            v = v * 10 + (digits[j] as u64 - '0' as u64);
            j = j + 1;
        }
        assert(digits@.take(digits@.len() as int) =~= digits@);
        return Some(short_decimal(v, (-exponent) as u32));
    }
    let mut zeros: usize = 0;
    assert(digits@.skip(0) =~= digits@);
    while zeros < digits.len() && digits[zeros] == '0'
        invariant
            zeros <= digits.len(),
            value(digits@.skip(zeros as int)) == value(digits@),
        decreases digits.len() - zeros,
    {
        proof {
            lemma_leading_zero(digits@.skip(zeros as int));
            assert(digits@.skip(zeros as int).skip(1) =~= digits@.skip(zeros + 1));
        }
        zeros = zeros + 1;
    }
    let ghost lead = digits@.skip(zeros as int);
    if zeros == digits.len() {
        proof {
            lemma_none(e);
        }
        return Some(0);
    }
    proof {
        lemma_value_range(lead);
    }
    let count: i128 = (digits.len() - zeros) as i128;
    if count + exponent > 50 {
        proof {
            lemma_huge(d, e, lead.len());
        }
        return Some(INFINITE);
    }
    if count + exponent < -60 {
        proof {
            lemma_tiny(d, e, lead.len());
        }
        return Some(0);
    }
    Some(long_decimal(digits.as_slice(), exponent))
}

/// The number that the numeral `s` writes, if it is one.
pub fn parse(s: &[char]) -> (r: Option<Single>)
    ensures
        r == parsed(s@),
{
    let negative: bool = s.len() > 0 && s[0] == '-';
    let body = without_sign(s);
    let inf = ['i', 'n', 'f'];
    let infinity = ['i', 'n', 'f', 'i', 'n', 'i', 't', 'y'];
    let nan = ['n', 'a', 'n'];
    assert(inf@ =~= seq!['i', 'n', 'f']);
    assert(infinity@ =~= seq!['i', 'n', 'f', 'i', 'n', 'i', 't', 'y']);
    assert(nan@ =~= seq!['n', 'a', 'n']);
    if is_named(body, inf.as_slice()) || is_named(body, infinity.as_slice()) {
        return Some(Single::make(negative, INFINITE));
    }
    if is_named(body, nan.as_slice()) {
        return Some(Single::make(negative, 0x7fc0_0000));
    }
    match decimal_of(body) {
        Some(m) => Some(Single::make(negative, m)),
        None => None,
    }
}

/// A run of digits ends where the digits do.
proof fn lemma_run_is(digits: Seq<char>, rest: Seq<char>)
    requires
        forall|i: int| 0 <= i < digits.len() ==> digit(#[trigger] digits[i]),
        rest.len() > 0 ==> !digit(rest[0]),
    ensures
        digit_run(digits + rest) == digits.len(),
    decreases digits.len(),
{
    let s = digits + rest;
    if digits.len() == 0 {
        assert(s =~= rest);
    } else {
        let tail = digits.skip(1);
        assert(digit(digits[0]) && s[0] == digits[0]);
        assert forall|i: int| 0 <= i < tail.len() implies digit(#[trigger] tail[i]) by {
            assert(tail[i] == digits[i + 1]);
        }
        assert(s.skip(1) =~= tail + rest);
        lemma_run_is(tail, rest);
    }
}

/// Digits with a point among them, with or without a minus sign, are read as
/// the number nearest to the decimal fraction that they write.
pub proof fn a_decimal_fraction_is_read(negative: bool, whole: Seq<char>, fraction: Seq<char>)
    requires
        whole.len() > 0,
        forall|i: int| 0 <= i < whole.len() ==> digit(#[trigger] whole[i]),
        forall|i: int| 0 <= i < fraction.len() ==> digit(#[trigger] fraction[i]),
    ensures
        ({
            let body = whole + (seq!['.'] + fraction);
            let s = if negative {
                seq!['-'] + body
            } else {
                body
            };
            parsed(s) == Some(
                single::rounded(
                    negative,
                    value(whole + fraction) * pow2(149),
                    ten(fraction.len()),
                ),
            )
        }),
{
    let behind = seq!['.'] + fraction;
    let body = whole + behind;
    let s = if negative {
        seq!['-'] + body
    } else {
        body
    };
    let none = Seq::<char>::empty();
    assert(digit(whole[0]) && body[0] == whole[0]);
    assert(unsigned(s) =~= body);
    assert(lower(body[0]) == body[0]);
    lemma_run_is(whole, behind);
    lemma_run_is(fraction, none);
    assert(fraction + none =~= fraction);
    assert(body.skip(whole.len() as int) =~= behind);
    assert(behind.skip(1) =~= fraction);
    assert(body.take(whole.len() as int) =~= whole);
    assert(fraction.take(fraction.len() as int) =~= fraction);
    assert(fraction.skip(fraction.len() as int) =~= none);
    assert(decimal(body) == Some((value(whole + fraction), -(fraction.len() as int))));
    if fraction.len() == 0 {
        assert(value(whole + fraction) * ten(0) == value(whole + fraction)) by (nonlinear_arith)
            requires
                ten(0) == 1,
        ;
    }
}

/// Digits, with or without a minus sign, are read as the number nearest to the
/// whole number that they write.
pub proof fn a_whole_number_is_read(negative: bool, whole: Seq<char>)
    requires
        whole.len() > 0,
        forall|i: int| 0 <= i < whole.len() ==> digit(#[trigger] whole[i]),
    ensures
        ({
            let s = if negative {
                seq!['-'] + whole
            } else {
                whole
            };
            parsed(s) == Some(single::rounded(negative, value(whole) * pow2(149), 1))
        }),
{
    let s = if negative {
        seq!['-'] + whole
    } else {
        whole
    };
    let none = Seq::<char>::empty();
    assert(digit(whole[0]));
    assert(unsigned(s) =~= whole);
    assert(lower(whole[0]) == whole[0]);
    lemma_run_is(whole, none);
    assert(whole + none =~= whole);
    assert(whole.take(whole.len() as int) =~= whole);
    assert(whole.skip(whole.len() as int) =~= none);
    assert(decimal(whole) == Some((value(whole), 0int)));
    assert(value(whole) * ten(0) == value(whole)) by (nonlinear_arith)
        requires
            ten(0) == 1,
    ;
}

/// The value of digits, one by one: each further digit makes it ten times as
/// large and adds itself.
pub proof fn digits_are_worth_ten_times_the_next(s: Seq<char>, c: char)
    requires
        '0' <= c <= '9',
    ensures
        forall|x: char| #[trigger] digit(x) <==> 48 <= x as int <= 57,
        value(Seq::<char>::empty()) == 0,
        value(s.push(c)) == 10 * value(s) + (c as int - '0' as int),
        ten(0) == 1,
        forall|k: nat| #[trigger] ten(k + 1) == 10 * ten(k),
{
    assert(s.push(c).drop_last() =~= s);
}

/// The parts of a numeral: a sign or none, digits, a point and more digits or
/// neither, and a power or none.
pub open spec fn assembled(
    sign: Seq<char>,
    whole: Seq<char>,
    point: bool,
    fraction: Seq<char>,
    tail: Seq<char>,
) -> Seq<char> {
    sign + (whole + (if point {
        seq!['.'] + (fraction + tail)
    } else {
        tail
    }))
}

/// Every numeral of that form with a digit in it is read, whether or not there
/// are digits on both sides of the point: as the number nearest to what it
/// writes, negative behind a minus sign, scaled by its power of ten.
pub proof fn every_decimal_numeral_is_read(
    sign: Seq<char>,
    whole: Seq<char>,
    point: bool,
    fraction: Seq<char>,
    tail: Seq<char>,
    e: int,
)
    requires
        sign == Seq::<char>::empty() || sign == seq!['+'] || sign == seq!['-'],
        forall|i: int| 0 <= i < whole.len() ==> digit(#[trigger] whole[i]),
        forall|i: int| 0 <= i < fraction.len() ==> digit(#[trigger] fraction[i]),
        !point ==> fraction.len() == 0,
        whole.len() + fraction.len() > 0,
        power(tail) == Some(e),
    ensures
        ({
            let d = value(whole + fraction);
            let k = e - fraction.len();
            let negative = sign == seq!['-'];
            &&& k >= 0 ==> parsed(assembled(sign, whole, point, fraction, tail)) == Some(
                single::rounded(negative, d * ten(k as nat) * pow2(149), 1),
            )
            &&& k < 0 ==> parsed(assembled(sign, whole, point, fraction, tail)) == Some(
                single::rounded(negative, d * pow2(149), ten((-k) as nat)),
            )
        }),
{
    let behind = if point {
        seq!['.'] + (fraction + tail)
    } else {
        tail
    };
    let body = whole + behind;
    lemma_parts_of_a_numeral(whole, point, fraction, tail, e);
    lemma_unsigned(sign, body);
    assert(decimal(body) == Some((value(whole + fraction), e - fraction.len())));
    lemma_unnamed(body);
}

/// A sign is taken off.
proof fn lemma_unsigned(sign: Seq<char>, body: Seq<char>)
    requires
        sign == Seq::<char>::empty() || sign == seq!['+'] || sign == seq!['-'],
        body.len() > 0,
        body[0] != '+' && body[0] != '-',
    ensures
        unsigned(sign + body) == body,
        minus(sign + body) == (sign == seq!['-']),
{
    let s = sign + body;
    if sign.len() == 0 {
        assert(s =~= body);
    } else {
        assert(s[0] == sign[0]);
        assert(s.skip(1) =~= body);
    }
}

/// What begins with a digit or a point is no name.
proof fn lemma_unnamed(body: Seq<char>)
    requires
        body.len() > 0,
        digit(body[0]) || body[0] == '.',
    ensures
        !named(body, seq!['i', 'n', 'f']),
        !named(body, seq!['i', 'n', 'f', 'i', 'n', 'i', 't', 'y']),
        !named(body, seq!['n', 'a', 'n']),
{
    assert(lower(body[0]) == body[0]);
}

/// The digits and the power of an unsigned numeral.
proof fn lemma_parts_of_a_numeral(
    whole: Seq<char>,
    point: bool,
    fraction: Seq<char>,
    tail: Seq<char>,
    e: int,
)
    requires
        forall|i: int| 0 <= i < whole.len() ==> digit(#[trigger] whole[i]),
        forall|i: int| 0 <= i < fraction.len() ==> digit(#[trigger] fraction[i]),
        !point ==> fraction.len() == 0,
        whole.len() + fraction.len() > 0,
        power(tail) == Some(e),
    ensures
        ({
            let body = whole + (if point {
                seq!['.'] + (fraction + tail)
            } else {
                tail
            });
            &&& decimal(body) == Some((value(whole + fraction), e - fraction.len()))
            &&& body.len() > 0
            &&& digit(body[0]) || body[0] == '.'
        }),
{
    let behind = if point {
        seq!['.'] + (fraction + tail)
    } else {
        tail
    };
    let body = whole + behind;
    assert(tail.len() > 0 ==> tail[0] == 'e' || tail[0] == 'E');
    if whole.len() > 0 {
        assert(digit(whole[0]) && body[0] == whole[0]);
    } else {
        assert(body[0] == '.');
    }
    lemma_run_is(whole, behind);
    assert(body.skip(whole.len() as int) =~= behind);
    assert(body.take(whole.len() as int) =~= whole);
    if point {
        assert(behind.skip(1) =~= fraction + tail);
        lemma_run_is(fraction, tail);
        assert((fraction + tail).take(fraction.len() as int) =~= fraction);
        assert((fraction + tail).skip(fraction.len() as int) =~= tail);
    } else {
        assert(fraction =~= Seq::<char>::empty());
    }
}

/// The power of a numeral: none, or an `e` of either case, a sign or none, and
/// digits.
pub proof fn the_power_of_a_numeral(e: char, sign: Seq<char>, digits: Seq<char>)
    requires
        e == 'e' || e == 'E',
        sign == Seq::<char>::empty() || sign == seq!['+'] || sign == seq!['-'],
        digits.len() > 0,
        forall|i: int| 0 <= i < digits.len() ==> digit(#[trigger] digits[i]),
    ensures
        power(Seq::<char>::empty()) == Some(0int),
        power(seq![e] + (sign + digits)) == Some(
            if sign == seq!['-'] {
                -(value(digits) as int)
            } else {
                value(digits) as int
            },
        ),
{
    let tail = seq![e] + (sign + digits);
    let rest = sign + digits;
    assert(tail.skip(1) =~= rest);
    assert(digit(digits[0]));
    assert(unsigned(rest) =~= digits) by {
        if sign.len() == 0 {
            assert(rest =~= digits);
        } else {
            assert(rest[0] == sign[0]);
            assert(rest.skip(1) =~= digits);
        }
    }
    if sign.len() == 0 {
        assert(rest =~= digits);
    } else {
        assert(rest[0] == sign[0]);
    }
    lemma_run_is(digits, Seq::empty());
    assert(digits + Seq::<char>::empty() =~= digits);
}

/// The names of what is no finite number, in either case.
pub proof fn the_names_are_read(sign: Seq<char>, name: Seq<char>)
    requires
        sign == Seq::<char>::empty() || sign == seq!['+'] || sign == seq!['-'],
        name.len() > 0,
        name[0] != '+' && name[0] != '-',
    ensures
        named(name, seq!['i', 'n', 'f']) || named(
            name,
            seq!['i', 'n', 'f', 'i', 'n', 'i', 't', 'y'],
        ) ==> parsed(sign + name) == Some(
            (Single {
                bits: if sign == seq!['-'] {
                    0xff80_0000
                } else {
                    0x7f80_0000
                },
            }),
        ),
        named(name, seq!['n', 'a', 'n']) ==> parsed(sign + name) is Some && parsed(
            sign + name,
        )->0.nan(),
{
    let s = sign + name;
    assert(unsigned(s) =~= name) by {
        if sign.len() == 0 {
            assert(s =~= name);
        } else {
            assert(s[0] == sign[0]);
            assert(s.skip(1) =~= name);
        }
    }
    if sign.len() == 0 {
        assert(s =~= name);
    } else {
        assert(s[0] == sign[0]);
    }
    if named(name, seq!['n', 'a', 'n']) {
        assert(name.len() == 3);
        assert(seq!['n', 'a', 'n'].len() == 3);
        assert(lower(name[0]) == 'n');
        assert(!named(name, seq!['i', 'n', 'f']));
        single::lemma_number(minus(s), 0x7fc0_0000);
    }
}

/// Whether two texts of ASCII letters are the same but for the case.
pub proof fn names_ignore_the_case(s: Seq<char>, name: Seq<char>)
    ensures
        named(s, name) <==> s.len() == name.len() && forall|i: int|
            0 <= i < s.len() ==> {
                ||| 'A' <= #[trigger] s[i] <= 'Z' && name[i] as int == s[i] as int + 32
                ||| !('A' <= s[i] <= 'Z') && name[i] == s[i]
            },
{
    assert forall|i: int| 0 <= i < s.len() implies (lower(s[i]) == name[i]) == {
        ||| 'A' <= #[trigger] s[i] <= 'Z' && name[i] as int == s[i] as int + 32
        ||| !('A' <= s[i] <= 'Z') && name[i] == s[i]
    } by {
        let c = s[i];
        if 'A' <= c <= 'Z' {
            assert(lower(c) as int == c as int + 32);
        }
    }
    if s.len() == name.len() {
        if named(s, name) {
            assert forall|i: int| 0 <= i < s.len() implies {
                ||| 'A' <= #[trigger] s[i] <= 'Z' && name[i] as int == s[i] as int + 32
                ||| !('A' <= s[i] <= 'Z') && name[i] == s[i]
            } by {
                assert(lower(s[i]) == name[i]);
            }
        }
    }
}

/// Nothing else is a numeral: what is read is one of the names, behind a sign
/// or none, or such an assembly with a digit in it.
pub proof fn nothing_else_is_a_numeral(s: Seq<char>)
    requires
        parsed(s) is Some,
        !named(unsigned(s), seq!['i', 'n', 'f']),
        !named(unsigned(s), seq!['i', 'n', 'f', 'i', 'n', 'i', 't', 'y']),
        !named(unsigned(s), seq!['n', 'a', 'n']),
    ensures
        exists|
            sign: Seq<char>,
            whole: Seq<char>,
            point: bool,
            fraction: Seq<char>,
            tail: Seq<char>,
        |
            {
                &&& s == #[trigger] assembled(sign, whole, point, fraction, tail)
                &&& sign == Seq::<char>::empty() || sign == seq!['+'] || sign == seq!['-']
                &&& forall|i: int| 0 <= i < whole.len() ==> digit(#[trigger] whole[i])
                &&& forall|i: int| 0 <= i < fraction.len() ==> digit(#[trigger] fraction[i])
                &&& !point ==> fraction.len() == 0
                &&& whole.len() + fraction.len() > 0
                &&& power(tail) is Some
            },
{
    let body = unsigned(s);
    let sign = if body.len() < s.len() {
        seq![s[0]]
    } else {
        Seq::<char>::empty()
    };
    assert(s =~= sign + body);
    let i = digit_run(body) as int;
    lemma_run(body);
    let rest = body.skip(i);
    let (whole, fraction, tail) = split(body);
    let point = rest.len() > 0 && rest[0] == '.';
    assert forall|j: int| 0 <= j < whole.len() implies digit(#[trigger] whole[j]) by {
        assert(digit(body[j]));
    }
    if point {
        let behind = rest.skip(1);
        lemma_run(behind);
        assert forall|j: int| 0 <= j < fraction.len() implies digit(#[trigger] fraction[j]) by {
            assert(digit(behind[j]));
        }
        assert(behind =~= fraction + tail);
        assert(rest =~= seq!['.'] + (fraction + tail));
    }
    assert(body =~= whole + rest);
    assert(s =~= assembled(sign, whole, point, fraction, tail));
}

/// A power that is neither empty nor an `e`, a sign or none and digits, is no
/// power.
pub proof fn nothing_else_is_a_power(tail: Seq<char>)
    requires
        power(tail) is Some,
        tail.len() > 0,
    ensures
        exists|sign: Seq<char>, digits: Seq<char>|
            {
                &&& tail == seq![tail[0]] + #[trigger] (sign + digits)
                &&& tail[0] == 'e' || tail[0] == 'E'
                &&& sign == Seq::<char>::empty() || sign == seq!['+'] || sign == seq!['-']
                &&& digits.len() > 0
                &&& forall|i: int| 0 <= i < digits.len() ==> digit(#[trigger] digits[i])
            },
{
    let rest = tail.skip(1);
    let digits = unsigned(rest);
    let sign = if digits.len() < rest.len() {
        seq![rest[0]]
    } else {
        Seq::<char>::empty()
    };
    lemma_run(digits);
    assert(rest =~= sign + digits);
    assert(tail =~= seq![tail[0]] + (sign + digits));
}

} // verus!
