//! Numbers written out in decimal, and that an attribute which holds one is
//! read back as that number.
use crate::label;
use crate::numeral;
use crate::printed;
use crate::rounding;
use crate::single;
use crate::single::Single;
use crate::xml;
use vstd::arithmetic::div_mod::*;
use vstd::arithmetic::power2::*;
use vstd::prelude::*;

verus! {

/// Whether `s` is made of digits.
pub open spec fn digits(s: Seq<char>) -> bool {
    forall|i: int| 0 <= i < s.len() ==> numeral::digit(#[trigger] s[i])
}

/// A decimal text: a minus sign if `negative`, digits, and, unless there is no
/// fraction, a point and more digits.
pub open spec fn decimal_text(negative: bool, whole: Seq<char>, fraction: Seq<char>) -> Seq<char> {
    let body = if fraction.len() == 0 {
        whole
    } else {
        whole + (seq!['.'] + fraction)
    };
    if negative {
        seq!['-'] + body
    } else {
        body
    }
}

/// Whether the digits write the magnitude of `x`: no other number is nearer to
/// the decimal fraction that they stand for, a tie going to the even pattern.
/// So it is with every way of writing a number that tells it from its
/// neighbours, the shortest one among them.
pub open spec fn writes(whole: Seq<char>, fraction: Seq<char>, x: Single) -> bool {
    &&& whole.len() > 0
    &&& digits(whole)
    &&& digits(fraction)
    &&& rounding::is_nearest(
        numeral::value(whole + fraction) * pow2(149),
        numeral::ten(fraction.len()),
        x.pattern(),
    )
}

/// The last `k` digits of `n`.
pub open spec fn padded(n: nat, k: nat) -> Seq<char>
    decreases k,
{
    if k == 0 {
        Seq::empty()
    } else {
        padded(n / 10, (k - 1) as nat).push(label::digit(n % 10))
    }
}

/// Five to the power `k`.
pub open spec fn five(k: nat) -> nat
    decreases k,
{
    if k == 0 {
        1
    } else {
        5 * five((k - 1) as nat)
    }
}

/// The magnitude of `x` in multiples of ten to the power -149, of which every
/// finite magnitude is one.
pub open spec fn decimal_units(x: Single) -> nat {
    x.units() * five(149)
}

/// The digits of `x` before its point.
pub open spec fn whole_digits(x: Single) -> Seq<char> {
    label::written(decimal_units(x) / numeral::ten(149))
}

/// All the digits of `x` behind its point.
pub open spec fn fraction_digits(x: Single) -> Seq<char> {
    padded(decimal_units(x) % numeral::ten(149), 149)
}

/// `x` written out in full.
pub open spec fn spelled(x: Single) -> Seq<char> {
    decimal_text(x.negative(), whole_digits(x), fraction_digits(x))
}

/// Padded digits continue a number.
proof fn lemma_padded(a: Seq<char>, n: nat, k: nat)
    requires
        n < numeral::ten(k),
    ensures
        padded(n, k).len() == k,
        digits(padded(n, k)),
        numeral::value(a + padded(n, k)) == numeral::value(a) * numeral::ten(k) + n,
    decreases k,
{
    if k == 0 {
        assert(a + padded(n, k) =~= a);
        assert(numeral::value(a) * 1 == numeral::value(a));
    } else {
        let l = (k - 1) as nat;
        lemma_padded(a, n / 10, l);
        let s = a + padded(n, k);
        assert(s.drop_last() =~= a + padded(n / 10, l));
        assert(s.last() == label::digit(n % 10));
        let v = numeral::value(a);
        let t = numeral::ten(l);
        assert((v * t + n / 10) * 10 + n % 10 == v * (10 * t) + n) by (nonlinear_arith)
            requires
                n == 10 * (n / 10) + n % 10,
        ;
    }
}

/// Ten is two times five.
proof fn lemma_ten_is(k: nat)
    ensures
        numeral::ten(k) == five(k) * pow2(k),
        numeral::ten(k) > 0,
    decreases k,
{
    lemma2_to64();
    if k > 0 {
        let l = (k - 1) as nat;
        lemma_ten_is(l);
        lemma_pow2_unfold(k);
        let f = five(l);
        let p = pow2(l);
        assert(10 * (f * p) == (5 * f) * (2 * p)) by (nonlinear_arith);
    }
}

/// A number is its sign and its pattern.
proof fn lemma_sign_and_pattern(x: Single)
    ensures
        single::number(x.negative(), x.pattern()) == x,
{
}

/// However a finite number is written out in decimal, it is read back.
pub proof fn what_writes_a_number_is_read_as_it(x: Single, whole: Seq<char>, fraction: Seq<char>)
    requires
        x.finite(),
        writes(whole, fraction, x),
    ensures
        numeral::parsed(decimal_text(x.negative(), whole, fraction)) == Some(x),
{
    let n = numeral::value(whole + fraction) * pow2(149);
    let d = numeral::ten(fraction.len());
    lemma_ten_is(fraction.len());
    rounding::lemma_nearest_is(n, d, x.pattern());
    lemma_sign_and_pattern(x);
    if fraction.len() == 0 {
        numeral::a_whole_number_is_read(x.negative(), whole);
        assert(whole + fraction =~= whole);
    } else {
        numeral::a_decimal_fraction_is_read(x.negative(), whole, fraction);
    }
}

/// Written out in full, a finite number is written.
pub proof fn spelling_writes_the_number(x: Single)
    requires
        x.finite(),
    ensures
        writes(whole_digits(x), fraction_digits(x), x),
{
    let t = numeral::ten(149);
    let d = decimal_units(x);
    let a = d / t;
    let b = d % t;
    lemma_ten_is(149);
    label::written_is_read_back(a);
    lemma_mod_bound(d as int, t as int);
    lemma_padded(label::written(a), b, 149);
    lemma_fundamental_div_mod(d as int, t as int);
    let v = numeral::value(whole_digits(x) + fraction_digits(x));
    assert(v == d) by (nonlinear_arith)
        requires
            v == a * t + b,
            d == t * a + b,
    ;
    let u = x.units();
    let f = five(149);
    let p = pow2(149);
    assert(d * p == u * t) by (nonlinear_arith)
        requires
            d == u * f,
            t == f * p,
    ;
    rounding::lemma_exact(x.pattern(), t);
    rounding::lemma_nearest(u * t, t);
}

/// A decimal text has no quote in it.
proof fn lemma_no_quote(negative: bool, whole: Seq<char>, fraction: Seq<char>)
    requires
        digits(whole),
        digits(fraction),
    ensures
        forall|i: int|
            0 <= i < decimal_text(negative, whole, fraction).len() ==> decimal_text(
                negative,
                whole,
                fraction,
            )[i] != '"',
{
    let body = if fraction.len() == 0 {
        whole
    } else {
        whole + (seq!['.'] + fraction)
    };
    let text = decimal_text(negative, whole, fraction);
    assert forall|i: int| 0 <= i < body.len() implies body[i] != '"' by {
        if i < whole.len() {
            assert(numeral::digit(whole[i]) && body[i] == whole[i]);
        } else if i > whole.len() {
            let j = i - whole.len() - 1;
            assert(numeral::digit(fraction[j]) && body[i] == fraction[j]);
        }
    }
    assert forall|i: int| 0 <= i < text.len() implies text[i] != '"' by {
        if negative && i > 0 {
            assert(text[i] == body[i - 1]);
        }
    }
}

/// An attribute that a finite number is written to, in whichever decimal way,
/// is read back unchanged, whatever its key is and whatever follows it.
pub proof fn a_written_attribute_is_read_back(
    key: Seq<char>,
    x: Single,
    whole: Seq<char>,
    fraction: Seq<char>,
    rest: Seq<char>,
)
    requires
        x.finite(),
        writes(whole, fraction, x),
    ensures
        xml::attribute(
            key + (decimal_text(x.negative(), whole, fraction) + (seq!['"'] + rest)),
            key,
        ) == Some(x),
{
    lemma_no_quote(x.negative(), whole, fraction);
    what_writes_a_number_is_read_as_it(x, whole, fraction);
    printed::an_attribute_is_what_stands_in_it(
        key,
        decimal_text(x.negative(), whole, fraction),
        rest,
    );
}

/// An attribute that a finite number is written to in full is read back
/// unchanged.
pub proof fn a_spelled_attribute_is_read_back(key: Seq<char>, x: Single, rest: Seq<char>)
    requires
        x.finite(),
    ensures
        xml::attribute(key + (spelled(x) + (seq!['"'] + rest)), key) == Some(x),
{
    spelling_writes_the_number(x);
    a_written_attribute_is_read_back(key, x, whole_digits(x), fraction_digits(x), rest);
}

} // verus!
