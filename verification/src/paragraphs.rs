//! Where paragraphs end: with the last word, with a page, and before a gap of
//! more than 1.8 lines, and nowhere else.
use crate::arithmetic;
use crate::extract;
use crate::pace_laws;
use crate::rounding;
use crate::single;
use crate::single::Single;
use vstd::arithmetic::mul::*;
use vstd::arithmetic::power2::*;
use vstd::prelude::*;

verus! {

/// In every document the last word ends a paragraph, and so does the last word
/// of each page. Any other word does exactly if the top of the next one lies
/// more than 1.8 times its height below its own, computed in single precision.
/// Texts, sides and other words do not matter.
pub proof fn a_paragraph_ends_at_a_gap(xml: Seq<char>, i: int)
    requires
        extract::document(xml) matches Ok((words, pages)) && 0 <= i < words.len(),
    ensures
        ({
            let words = extract::document(xml)->Ok_0.0;
            let a = words[i];
            let b = words[i + 1];
            &&& i == words.len() - 1 ==> a.para_end
            &&& i < words.len() - 1 && a.page != b.page ==> a.para_end
            &&& i < words.len() - 1 && a.page == b.page ==> (a.para_end <==> single::less(
                single::product(
                    (Single { bits: 0x3fe6_6666 }),
                    single::difference(a.rect.max.y, a.rect.min.y),
                ),
                single::difference(b.rect.min.y, a.rect.min.y),
            ))
        }),
{
}

/// Marking paragraph ends changes nothing else: the same words, in the same
/// order, with the same texts, pages and places.
pub proof fn marking_keeps_the_words(words: Seq<extract::WordView>)
    ensures
        extract::marked(words).len() == words.len(),
        forall|i: int|
            #![trigger extract::marked(words)[i]]
            0 <= i < words.len() ==> {
                &&& extract::marked(words)[i].text == words[i].text
                &&& extract::marked(words)[i].page == words[i].page
                &&& extract::marked(words)[i].rect == words[i].rect
            },
{
}

/// A sum is at most one part in 2^24 off, if it is not too large.
proof fn lemma_sum_error(a: Single, b: Single)
    requires
        a.finite(),
        b.finite(),
        -pow2(250) <= a.signed() <= pow2(250),
        -pow2(250) <= b.signed() <= pow2(250),
    ensures
        ({
            let r = single::sum(a, b);
            let exact = a.signed() + b.signed();
            &&& r.finite()
            &&& exact >= 0 ==> 0xff_ffff * exact <= 0x100_0000 * r.signed() <= 0x100_0001 * exact
            &&& exact <= 0 ==> r.signed() <= 0
        }),
{
    let exact = a.signed() + b.signed();
    let n = (if exact < 0 {
        -exact
    } else {
        exact
    }) as nat;
    lemma2_to64();
    lemma_pow2_unfold(251);
    lemma_pow2_adds(23, 228);
    rounding::lemma_parts(228, 0x80_0000);
    let top: nat = 228 * 0x80_0000 + 0x80_0000;
    rounding::lemma_bounds(n, 1, top);
    lemma_mul_basics(rounding::units(top) as int);
    let m = rounding::nearest(n, 1);
    rounding::lemma_nearest(n, 1);
    single::lemma_number(exact < 0, m);
    single::lemma_number(true, 0);
    single::lemma_number(false, 0);
    rounding::lemma_parts(0, 0);
    lemma_mul_basics(pow2(0) as int);
    rounding::lemma_increasing(0, m);
    lemma_mul_basics(rounding::units(m) as int);
    if n >= 0x100_0000 {
        pace_laws::lemma_relative_error(n, 1);
    } else {
        if n < 0x100_0000 {
            rounding::lemma_parts(0, n);
            lemma_mul_basics(n as int);
        }
        rounding::lemma_exact(n, 1);
    }
}

/// 1.8 times a height is at most one part in 2^24 off.
proof fn lemma_scaled_height(h: Single) -> (p: nat)
    requires
        h.finite(),
        !h.negative(),
        0x100_0000 <= h.units() <= pow2(252),
    ensures
        ({
            let r = single::product((Single { bits: 0x3fe6_6666 }), h);
            &&& r.finite() && !r.negative() && r.units() == p
            &&& 0x100_0000 * (p * 0x80_0000) <= 0x100_0001 * (0xe6_6666 * h.units())
            &&& 0x100_0000 * (p * 0x80_0000) >= 0xff_ffff * (0xe6_6666 * h.units())
        }),
{
    let f = Single { bits: 0x3fe6_6666 };
    let one = pow2(149);
    let g = pow2(126);
    lemma2_to64();
    lemma_pow2_pos(126);
    lemma_pow2_pos(149);
    lemma_pow2_adds(23, 126);
    rounding::lemma_parts(126, 0xe6_6666);
    let u = h.units();
    let n = f.units() * u;
    let x = 0xe6_6666 * u;
    assert(n * 0x80_0000 == x * one) by (nonlinear_arith)
        requires
            n == (0xe6_6666 * g) * u,
            x == 0xe6_6666 * u,
            one == 0x80_0000 * g,
    ;
    rounding::lemma_same_quotient(n, one, x, 0x80_0000);
    lemma_pow2_adds(23, 230);
    lemma_pow2_unfold(253);
    rounding::lemma_parts(230, 0x80_0000);
    let top: nat = 230 * 0x80_0000 + 0x80_0000;
    assert(x <= rounding::units(top) * 0x80_0000) by (nonlinear_arith)
        requires
            x == 0xe6_6666 * u,
            u <= pow2(252),
            rounding::units(top) == 2 * pow2(252),
    ;
    rounding::lemma_bounds(x, 0x80_0000, top);
    let m = rounding::nearest(x, 0x80_0000);
    rounding::lemma_nearest(x, 0x80_0000);
    single::lemma_number(false, m);
    pace_laws::lemma_relative_error(x, 0x80_0000);
    rounding::units(m)
}

/// In exact numbers: of two neighbours on one page, the first ends a paragraph
/// if the second one's top lies more than 1.8 heights below its own, and does
/// not if it lies less than that below it, or above it, up to one part in a
/// million. All places are counted in multiples of 2^-149 points; they are at
/// most 2^101 points, and the height at least 2^-125.
pub proof fn a_gap_of_lines_decides(xml: Seq<char>, i: int)
    requires
        extract::document(xml) matches Ok((words, pages)) && 0 <= i < words.len() - 1,
        ({
            let words = extract::document(xml)->Ok_0.0;
            let top = words[i].rect.min.y;
            let bottom = words[i].rect.max.y;
            let next = words[i + 1].rect.min.y;
            &&& words[i].page == words[i + 1].page
            &&& top.finite() && bottom.finite() && next.finite()
            &&& -pow2(250) <= top.signed() <= pow2(250)
            &&& -pow2(250) <= bottom.signed() <= pow2(250)
            &&& -pow2(250) <= next.signed() <= pow2(250)
            &&& bottom.signed() - top.signed() >= 0x200_0000
        }),
    ensures
        ({
            let words = extract::document(xml)->Ok_0.0;
            let height = words[i].rect.max.y.signed() - words[i].rect.min.y.signed();
            let gap = words[i + 1].rect.min.y.signed() - words[i].rect.min.y.signed();
            &&& 10 * gap * 1_000_000 > 18 * height * 1_000_001 ==> words[i].para_end
            &&& 10 * gap * 1_000_000 < 18 * height * 999_999 ==> !words[i].para_end
        }),
{
    a_paragraph_ends_at_a_gap(xml, i);
    let words = extract::document(xml)->Ok_0.0;
    let top = words[i].rect.min.y;
    let bottom = words[i].rect.max.y;
    let next = words[i + 1].rect.min.y;
    arithmetic::a_difference_is_a_sum(bottom, top);
    arithmetic::a_difference_is_a_sum(next, top);
    lemma_sum_error(bottom, single::negation(top));
    lemma_sum_error(next, single::negation(top));
    let h = single::difference(bottom, top);
    let g = single::difference(next, top);
    let height = bottom.signed() - top.signed();
    lemma_pow2_unfold(251);
    lemma_pow2_unfold(252);
    rounding::lemma_parts(0, 0);
    lemma_mul_basics(pow2(0) as int);
    assert(!h.negative());
    let p = lemma_scaled_height(h);
}

} // verus!
