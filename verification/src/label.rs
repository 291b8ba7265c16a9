//! Whole numbers written out, for labels and for the arguments of tools.
use crate::numeral;
use vstd::prelude::*;
use vstd::string::*;

verus! {

/// The digit `d`.
pub open spec fn digit(d: nat) -> char {
    (d + '0' as nat) as char
}

/// `n` in decimal, without leading zeros.
pub open spec fn written(n: nat) -> Seq<char>
    decreases n,
{
    if n < 10 {
        seq![digit(n)]
    } else {
        written(n / 10).push(digit(n % 10))
    }
}

/// A number that is written out is read back.
pub proof fn written_is_read_back(n: nat)
    ensures
        numeral::value(written(n)) == n,
        forall|i: int| 0 <= i < written(n).len() ==> numeral::digit(#[trigger] written(n)[i]),
        n > 0 ==> written(n)[0] != '0',
        written(n).len() > 0,
    decreases n,
{
    if n < 10 {
        assert(written(n).drop_last() =~= Seq::<char>::empty());
        assert(numeral::value(Seq::<char>::empty()) == 0);
    } else {
        written_is_read_back(n / 10);
        assert(written(n).drop_last() =~= written(n / 10));
    }
}

/// `n` in decimal.
pub fn write_decimal(n: usize) -> (s: String)
    ensures
        s@ == written(n as nat),
{
    let mut left: usize = n;
    let mut digits: Vec<char> = Vec::new();
    while left >= 10
        invariant
            written(n as nat) == written(left as nat) + digits@.reverse(),
        decreases left,
    {
        let d: char = ((left % 10) as u8 + 48u8) as char;
        let ghost before = digits@;
        digits.push(d);
        assert(digits@.reverse() =~= seq![d] + before.reverse());
        assert(written(left as nat) + before.reverse() =~= written(left as nat / 10) + (seq![d]
            + before.reverse()));
        left = left / 10;
    }
    let d: char = (left as u8 + 48u8) as char;
    let ghost before = digits@;
    digits.push(d);
    assert(digits@.reverse() =~= seq![d] + before.reverse());
    let mut s = String::new();
    let mut i: usize = digits.len();
    while i > 0
        invariant
            i <= digits.len(),
            s@ == digits@.reverse().take(digits@.len() - i),
        decreases i,
    {
        i = i - 1;
        s.push(digits[i]);
        assert(s@ =~= digits@.reverse().take(digits@.len() - i));
    }
    assert(s@ =~= digits@.reverse());
    s
}

/// `a` followed by `b`.
pub fn join(a: &str, b: &str) -> (s: String)
    ensures
        s@ == a@ + b@,
{
    a.to_string().concat(b)
}

/// Numbers are written digit by digit: one digit below ten, and otherwise the
/// tenth part and the last digit.
pub proof fn numbers_are_written_digit_by_digit(n: nat)
    ensures
        n < 10 ==> written(n).len() == 1 && written(n)[0] as int == '0' as int + n,
        n >= 10 ==> written(n).len() == written(n / 10).len() + 1 && written(n).drop_last()
            == written(n / 10) && written(n).last() as int == '0' as int + n % 10,
{
    if n >= 10 {
        assert(written(n).drop_last() =~= written(n / 10));
    }
}

} // verus!
