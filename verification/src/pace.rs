//! The pace of reading: where in a word the eye should land, and how long a
//! word stays.
use crate::extract::Word;
use crate::rounding;
use crate::single;
use crate::single::Single;
use vstd::prelude::*;
use vstd::string::*;

verus! {

/// 0.35, the share of a word that lies before the letter to look at.
pub const RECOGNITION_SHARE: u32 = 0x3eb3_3333;

/// 60000, the milliseconds of a minute.
pub const MINUTE: u32 = 0x476a_6000;

/// 1, the factor of a plain word.
pub const PLAIN: u32 = 0x3f80_0000;

/// 1.4, the factor of a long word.
pub const LONG: u32 = 0x3fb3_3333;

/// 1.5, the factor of a word that ends a clause.
pub const CLAUSE: u32 = 0x3fc0_0000;

/// 2, the factor of a word that ends a sentence.
pub const SENTENCE: u32 = 0x4000_0000;

/// 2.5, the factor of a word that ends a paragraph.
pub const PARAGRAPH: u32 = 0x4020_0000;

/// 100, the slowest pace on offer.
pub const SLOWEST: u32 = 0x42c8_0000;

/// 1000, the fastest pace on offer.
pub const FASTEST: u32 = 0x447a_0000;

/// A pace held to those on offer: the slowest one for what is slower, the
/// fastest one for what is faster, and any other as it is.
pub open spec fn held(wpm: Single) -> Single {
    if single::less(wpm, Single { bits: SLOWEST }) {
        Single { bits: SLOWEST }
    } else if single::less(Single { bits: FASTEST }, wpm) {
        Single { bits: FASTEST }
    } else {
        wpm
    }
}

/// Whether a pace is one on offer.
pub open spec fn on_offer(wpm: Single) -> bool {
    single::at_most(Single { bits: SLOWEST }, wpm) && single::at_most(
        wpm,
        Single { bits: FASTEST },
    )
}

/// The index of the letter to look at in a word of `len` letters: 35% of the
/// last index, rounded to a whole number.
pub open spec fn recognition_point(len: nat) -> nat {
    single::to_whole(
        single::product(
            single::difference(single::from_whole(len), Single { bits: PLAIN }),
            Single { bits: RECOGNITION_SHARE },
        ),
        usize::MAX as nat,
    )
}

/// How much longer than a plain word a word stays: the largest of the factors
/// that it earns.
pub open spec fn factor(text: Seq<char>, para_end: bool) -> Single {
    let last = text.last();
    Single {
        bits: if para_end {
            PARAGRAPH
        } else if text.len() > 0 && (last == '.' || last == '!' || last == '?') {
            SENTENCE
        } else if text.len() > 0 && (last == ',' || last == ';' || last == ':') {
            CLAUSE
        } else if text.len() > 8 {
            LONG
        } else {
            PLAIN
        },
    }
}

/// Whether `f` is one of the factors.
pub open spec fn is_factor(f: Single) -> bool {
    f.bits == PLAIN || f.bits == LONG || f.bits == CLAUSE || f.bits == SENTENCE || f.bits
        == PARAGRAPH
}

/// How long a word with the given factor stays at `wpm` words a minute, in
/// whole milliseconds.
pub open spec fn stay(factor: Single, wpm: Single) -> nat {
    single::truncated(
        single::product(single::quotient(Single { bits: MINUTE }, wpm), factor),
        u64::MAX as nat,
    )
}

/// The pace, held to those on offer.
pub fn hold(wpm: Single) -> (r: Single)
    ensures
        r == held(wpm),
{
    let slowest = Single { bits: SLOWEST };
    let fastest = Single { bits: FASTEST };
    if wpm.lt(slowest) {
        slowest
    } else if fastest.lt(wpm) {
        fastest
    } else {
        wpm
    }
}

/// Optimal recognition point: the letter your eye should land on, about 35%
/// in.
pub fn orp_index(len: usize) -> (r: usize)
    ensures
        r == recognition_point(len as nat),
{
    let last = Single::from_u64(len as u64).minus(Single { bits: PLAIN });
    last.times(Single { bits: RECOGNITION_SHARE }).round(usize::MAX as u64) as usize
}

/// How long `word` stays at `wpm` words a minute, in milliseconds.
pub fn delay_for(word: &Word, wpm: Single) -> (ms: u64)
    ensures
        ms == stay(factor(word@.text, word@.para_end), wpm),
{
    let base = (Single { bits: MINUTE }).over(wpm);
    let len = word.text.as_str().unicode_len();
    let mut m = Single { bits: PLAIN };
    if len > 8 {
        m = Single { bits: LONG };
    }
    proof {
        lemma_factors();
    }
    if len > 0 {
        let last = word.text.as_str().get_char(len - 1);
        if last == '.' || last == '!' || last == '?' {
            m = m.max(Single { bits: SENTENCE });
        } else if last == ',' || last == ';' || last == ':' {
            m = m.max(Single { bits: CLAUSE });
        }
    }
    if word.para_end {
        m = m.max(Single { bits: PARAGRAPH });
    }
    base.times(m).truncate(u64::MAX)
}

/// The factors grow from one to the next.
proof fn lemma_factors()
    ensures
        single::larger(Single { bits: PLAIN }, Single { bits: CLAUSE }).bits == CLAUSE,
        single::larger(Single { bits: LONG }, Single { bits: CLAUSE }).bits == CLAUSE,
        single::larger(Single { bits: PLAIN }, Single { bits: SENTENCE }).bits == SENTENCE,
        single::larger(Single { bits: LONG }, Single { bits: SENTENCE }).bits == SENTENCE,
        forall|m: u32|
            m == PLAIN || m == LONG || m == CLAUSE || m == SENTENCE ==> (#[trigger] single::larger(
                Single { bits: m },
                Single { bits: PARAGRAPH },
            )).bits == PARAGRAPH,
{
    rounding::lemma_increasing(PLAIN as nat, CLAUSE as nat);
    rounding::lemma_increasing(LONG as nat, CLAUSE as nat);
    rounding::lemma_increasing(CLAUSE as nat, SENTENCE as nat);
    rounding::lemma_increasing(SENTENCE as nat, PARAGRAPH as nat);
}

} // verus!
