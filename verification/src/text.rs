//! Text as sequences of characters: searching, cutting, trimming, replacing.
use vstd::prelude::*;
use vstd::slice::*;

verus! {

/// `String::push` appends one character.
pub assume_specification[ String::push ](s: &mut String, c: char)
    ensures
        final(s)@ == old(s)@.push(c),
;

/// The characters with the Unicode property White_Space.
pub open spec fn whitespace(c: char) -> bool {
    ||| '\u{9}' <= c <= '\u{d}'
    ||| c == ' '
    ||| c == '\u{85}'
    ||| c == '\u{a0}'
    ||| c == '\u{1680}'
    ||| '\u{2000}' <= c <= '\u{200a}'
    ||| c == '\u{2028}'
    ||| c == '\u{2029}'
    ||| c == '\u{202f}'
    ||| c == '\u{205f}'
    ||| c == '\u{3000}'
}

/// `s` without the whitespace at both ends.
pub open spec fn trimmed(s: Seq<char>) -> Seq<char>
    decreases s.len(),
{
    if s.len() > 0 && whitespace(s[0]) {
        trimmed(s.skip(1))
    } else if s.len() > 0 && whitespace(s.last()) {
        trimmed(s.drop_last())
    } else {
        s
    }
}

/// Where `c` first stands in `s`; the length of `s` if nowhere.
pub open spec fn position(s: Seq<char>, c: char) -> nat
    decreases s.len(),
{
    if s.len() == 0 || s[0] == c {
        0
    } else {
        1 + position(s.skip(1), c)
    }
}

/// What stands before the first `c`: all of `s` if there is none.
pub open spec fn before(s: Seq<char>, c: char) -> Seq<char> {
    s.take(position(s, c) as int)
}

/// What stands behind the first `c`, if there is one.
pub open spec fn after(s: Seq<char>, c: char) -> Option<Seq<char>> {
    if position(s, c) < s.len() {
        Some(s.skip(position(s, c) as int + 1))
    } else {
        None
    }
}

/// Where `key` first begins in `s`, if anywhere.
pub open spec fn found(s: Seq<char>, key: Seq<char>) -> Option<nat>
    decreases s.len(),
{
    if key.is_prefix_of(s) {
        Some(0)
    } else if s.len() == 0 {
        None
    } else {
        match found(s.skip(1), key) {
            Some(i) => Some(i + 1),
            None => None,
        }
    }
}

/// `s` with every `from` in it, read from the left without overlap, turned
/// into `to`.
pub open spec fn replaced(s: Seq<char>, from: Seq<char>, to: Seq<char>) -> Seq<char>
    decreases s.len(),
{
    if s.len() == 0 {
        s
    } else if from.len() > 0 && from.is_prefix_of(s) {
        to + replaced(s.skip(from.len() as int), from, to)
    } else {
        seq![s[0]] + replaced(s.skip(1), from, to)
    }
}

/// A key that is found lies within the text.
pub proof fn lemma_found(s: Seq<char>, key: Seq<char>)
    ensures
        found(s, key) matches Some(i) ==> i + key.len() <= s.len() && s.subrange(
            i as int,
            i as int + key.len(),
        ) == key,
    decreases s.len(),
{
    if key.is_prefix_of(s) {
        assert(s.subrange(0, key.len() as int) =~= key);
    } else if s.len() > 0 {
        lemma_found(s.skip(1), key);
        if let Some(i) = found(s.skip(1), key) {
            assert(s.subrange(i as int + 1, i as int + 1 + key.len()) =~= s.skip(1).subrange(
                i as int,
                i as int + key.len(),
            ));
        }
    }
}

/// The characters of `s`.
pub fn chars_of(s: &str) -> (v: Vec<char>)
    ensures
        v@ == s@,
{
    let mut v: Vec<char> = Vec::new();
    for c in it: s.chars()
        invariant
            it.seq() == s@,
            v@ == s@.take(it.index() as int),
    {
        v.push(c);
    }
    v
}

/// The string of the characters `v`.
pub fn string_of(v: &[char]) -> (s: String)
    ensures
        s@ == v@,
{
    let mut s = String::new();
    let mut i: usize = 0;
    while i < v.len()
        invariant
            i <= v.len(),
            s@ == v@.take(i as int),
        decreases v.len() - i,
    {
        s.push(v[i]);
        i = i + 1;
    }
    assert(v@.take(v@.len() as int) =~= v@);
    s
}

/// Whether `c` has the Unicode property White_Space.
pub fn is_whitespace(c: char) -> (r: bool)
    ensures
        r == whitespace(c),
{
    ('\u{9}' <= c && c <= '\u{d}') || c == ' ' || c == '\u{85}' || c == '\u{a0}' || c == '\u{1680}'
        || ('\u{2000}' <= c && c <= '\u{200a}') || c == '\u{2028}' || c == '\u{2029}' || c
        == '\u{202f}' || c == '\u{205f}' || c == '\u{3000}'
}

/// `s` without the whitespace at both ends.
pub fn trim<'a>(s: &'a [char]) -> (r: &'a [char])
    ensures
        r@ == trimmed(s@),
{
    let mut i: usize = 0;
    let mut j: usize = s.len();
    assert(s@.subrange(0, s@.len() as int) =~= s@);
    while i < j && is_whitespace(s[i])
        invariant
            i <= j,
            j == s.len(),
            trimmed(s@) == trimmed(s@.subrange(i as int, j as int)),
        decreases j - i,
    {
        assert(s@.subrange(i as int, j as int).skip(1) =~= s@.subrange(i + 1, j as int));
        i = i + 1;
    }
    while i < j && is_whitespace(s[j - 1])
        invariant
            i <= j <= s.len(),
            i < j ==> !whitespace(s@[i as int]),
            trimmed(s@) == trimmed(s@.subrange(i as int, j as int)),
        decreases j - i,
    {
        assert(s@.subrange(i as int, j as int).drop_last() =~= s@.subrange(i as int, j - 1));
        j = j - 1;
    }
    slice_subrange(s, i, j)
}

/// Where `c` first stands in `s`; the length of `s` if nowhere.
pub fn position_of(s: &[char], c: char) -> (r: usize)
    ensures
        r == position(s@, c),
        r <= s@.len(),
{
    let mut i: usize = 0;
    assert(s@.skip(0) =~= s@);
    while i < s.len() && s[i] != c
        invariant
            i <= s.len(),
            position(s@, c) == i + position(s@.skip(i as int), c),
        decreases s.len() - i,
    {
        assert(s@.skip(i as int).skip(1) =~= s@.skip(i + 1));
        i = i + 1;
    }
    i
}

/// What stands before the first `c`.
pub fn part_before<'a>(s: &'a [char], c: char) -> (r: &'a [char])
    ensures
        r@ == before(s@, c),
{
    let i = position_of(s, c);
    slice_subrange(s, 0, i)
}

/// What stands behind the first `c`, if there is one.
pub fn part_after<'a>(s: &'a [char], c: char) -> (r: Option<&'a [char]>)
    ensures
        match after(s@, c) {
            Some(t) => r matches Some(x) && x@ == t,
            None => r is None,
        },
{
    let i = position_of(s, c);
    if i < s.len() {
        assert(s@.subrange(i + 1, s@.len() as int) =~= s@.skip(i + 1));
        Some(slice_subrange(s, i + 1, s.len()))
    } else {
        None
    }
}

/// Whether `key` stands in `s` at `i`.
fn stands_at(s: &[char], key: &[char], i: usize) -> (r: bool)
    requires
        i <= s@.len(),
    ensures
        r == key@.is_prefix_of(s@.skip(i as int)),
{
    if key.len() > s.len() - i {
        return false;
    }
    let mut k: usize = 0;
    while k < key.len()
        invariant
            i <= s.len(),
            key.len() <= s.len() - i,
            k <= key.len(),
            forall|j: int| 0 <= j < k ==> key@[j] == s@[i + j],
        decreases key.len() - k,
    {
        if s[i + k] != key[k] {
            assert(s@.skip(i as int).subrange(0, key@.len() as int)[k as int] == s@[i + k]);
            return false;
        }
        k = k + 1;
    }
    assert(key@ =~= s@.skip(i as int).subrange(0, key@.len() as int));
    true
}

/// Whether `s` begins with `key`.
pub fn begins_with(s: &[char], key: &[char]) -> (r: bool)
    ensures
        r == key@.is_prefix_of(s@),
{
    assert(s@.skip(0) =~= s@);
    stands_at(s, key, 0)
}

/// Where `key` first begins in `s`, if anywhere.
pub fn find(s: &[char], key: &[char]) -> (r: Option<usize>)
    ensures
        match found(s@, key@) {
            Some(i) => r matches Some(x) && x == i && x + key@.len() <= s@.len(),
            None => r is None,
        },
{
    let mut i: usize = 0;
    assert(s@.skip(0) =~= s@);
    proof {
        lemma_found(s@, key@);
    }
    loop
        invariant
            i <= s@.len(),
            found(s@, key@) matches Some(k) ==> k + key@.len() <= s@.len(),
            match found(s@.skip(i as int), key@) {
                Some(k) => found(s@, key@) == Some(i as nat + k),
                None => found(s@, key@) is None,
            },
        decreases s@.len() - i,
    {
        if stands_at(s, key, i) {
            return Some(i);
        }
        if i == s.len() {
            return None;
        }
        assert(s@.skip(i as int).skip(1) =~= s@.skip(i + 1));
        i = i + 1;
    }
}

/// `s` with every `from` in it turned into `to`.
pub fn replace(s: &[char], from: &[char], to: &[char]) -> (r: Vec<char>)
    requires
        from@.len() > 0,
    ensures
        r@ == replaced(s@, from@, to@),
{
    let mut out: Vec<char> = Vec::new();
    let mut i: usize = 0;
    assert(s@.skip(0) =~= s@);
    assert(out@ + replaced(s@, from@, to@) =~= replaced(s@, from@, to@));
    while i < s.len()
        invariant
            from@.len() > 0,
            i <= s.len(),
            out@ + replaced(s@.skip(i as int), from@, to@) == replaced(s@, from@, to@),
        decreases s.len() - i,
    {
        let ghost rest = s@.skip(i as int);
        let ghost done = out@;
        if stands_at(s, from, i) {
            let mut k: usize = 0;
            while k < to.len()
                invariant
                    k <= to.len(),
                    out@ == done + to@.take(k as int),
                decreases to.len() - k,
            {
                out.push(to[k]);
                k = k + 1;
            }
            assert(to@.take(to@.len() as int) =~= to@);
            assert(rest.skip(from@.len() as int) =~= s@.skip(i + from@.len()));
            assert(done + (to@ + replaced(rest.skip(from@.len() as int), from@, to@)) =~= out@
                + replaced(rest.skip(from@.len() as int), from@, to@));
            i = i + from.len();
        } else {
            out.push(s[i]);
            assert(rest.skip(1) =~= s@.skip(i + 1));
            assert(done + (seq![rest[0]] + replaced(rest.skip(1), from@, to@)) =~= out@ + replaced(
                rest.skip(1),
                from@,
                to@,
            ));
            i = i + 1;
        }
    }
    assert(out@ + replaced(s@.skip(i as int), from@, to@) =~= out@);
    out
}

/// Whether `s` is made of whitespace.
pub open spec fn blank(s: Seq<char>) -> bool {
    forall|i: int| 0 <= i < s.len() ==> whitespace(#[trigger] s[i])
}

/// The whitespace characters are the 25 that the Unicode standard lists.
pub proof fn the_whitespace_characters(c: char)
    ensures
        whitespace(c) <==> {
            let n = c as u32;
            ||| 0x9 <= n <= 0xd
            ||| n == 0x20
            ||| n == 0x85
            ||| n == 0xa0
            ||| n == 0x1680
            ||| 0x2000 <= n <= 0x200a
            ||| n == 0x2028
            ||| n == 0x2029
            ||| n == 0x202f
            ||| n == 0x205f
            ||| n == 0x3000
        },
{
}

/// Trimming takes all the whitespace at both ends and nothing else: what lies
/// between blanks, begins and ends with no blank, is what is left.
pub proof fn trimming_takes_the_blanks_at_both_ends(a: Seq<char>, t: Seq<char>, b: Seq<char>)
    requires
        blank(a),
        blank(b),
        t.len() > 0 ==> !whitespace(t[0]) && !whitespace(t[t.len() - 1]),
    ensures
        trimmed(a + t + b) == t,
    decreases a.len() + b.len(),
{
    let s = a + t + b;
    if a.len() > 0 {
        assert(whitespace(a[0]) && s[0] == a[0]);
        assert(s.skip(1) =~= a.skip(1) + t + b);
        assert forall|i: int| 0 <= i < a.skip(1).len() implies whitespace(#[trigger] a.skip(1)[i]) by {
            assert(a.skip(1)[i] == a[i + 1]);
        }
        trimming_takes_the_blanks_at_both_ends(a.skip(1), t, b);
    } else if b.len() > 0 {
        if t.len() == 0 {
            assert(whitespace(b[0]) && s[0] == b[0]);
            assert(s.skip(1) =~= a + t + b.skip(1));
            assert forall|i: int| 0 <= i < b.skip(1).len() implies whitespace(
                #[trigger] b.skip(1)[i],
            ) by {
                assert(b.skip(1)[i] == b[i + 1]);
            }
            trimming_takes_the_blanks_at_both_ends(a, t, b.skip(1));
        } else {
            assert(s[0] == t[0]);
            assert(whitespace(b[b.len() - 1]) && s.last() == b[b.len() - 1]);
            assert(s.drop_last() =~= a + t + b.drop_last());
            assert forall|i: int| 0 <= i < b.drop_last().len() implies whitespace(
                #[trigger] b.drop_last()[i],
            ) by {
                assert(b.drop_last()[i] == b[i]);
            }
            trimming_takes_the_blanks_at_both_ends(a, t, b.drop_last());
        }
    } else {
        assert(s =~= t);
    }
}

/// The first `c` is the one that no other stands before; what stands before and
/// behind it are the parts of the text. Without one, all of the text stands
/// before it.
pub proof fn the_first_character_of_its_kind(p: Seq<char>, q: Seq<char>, c: char)
    requires
        forall|i: int| 0 <= i < p.len() ==> p[i] != c,
    ensures
        before(p, c) == p,
        after(p, c) is None,
        before(p + (seq![c] + q), c) == p,
        after(p + (seq![c] + q), c) == Some(q),
{
    lemma_position_at(p, seq![c] + q, c);
    lemma_position_at(p, Seq::empty(), c);
    assert(p + Seq::<char>::empty() =~= p);
    let s = p + (seq![c] + q);
    assert(s.take(p.len() as int) =~= p);
    assert(p.take(p.len() as int) =~= p);
    assert(s.skip(p.len() as int + 1) =~= q);
}

/// The position of the first `c`.
proof fn lemma_position_at(p: Seq<char>, q: Seq<char>, c: char)
    requires
        forall|i: int| 0 <= i < p.len() ==> p[i] != c,
        q.len() > 0 ==> q[0] == c,
    ensures
        position(p + q, c) == p.len(),
    decreases p.len(),
{
    let s = p + q;
    if p.len() == 0 {
        assert(s =~= q);
    } else {
        assert(s[0] == p[0]);
        assert(s.skip(1) =~= p.skip(1) + q);
        assert forall|i: int| 0 <= i < p.skip(1).len() implies p.skip(1)[i] != c by {
            assert(p.skip(1)[i] == p[i + 1]);
        }
        lemma_position_at(p.skip(1), q, c);
    }
}

/// A key is found where it first stands, and not found only if it stands
/// nowhere.
pub proof fn a_key_is_found_where_it_first_stands(s: Seq<char>, key: Seq<char>)
    ensures
        match found(s, key) {
            Some(i) => {
                &&& i + key.len() <= s.len()
                &&& s.subrange(i as int, i as int + key.len()) == key
                &&& forall|j: int|
                    0 <= j < i ==> !key.is_prefix_of(#[trigger] s.skip(j))
            },
            None => forall|j: int| 0 <= j <= s.len() ==> !key.is_prefix_of(#[trigger] s.skip(j)),
        },
    decreases s.len(),
{
    lemma_found(s, key);
    assert(s.skip(0) =~= s);
    if !key.is_prefix_of(s) && s.len() > 0 {
        a_key_is_found_where_it_first_stands(s.skip(1), key);
        let end = match found(s, key) {
            Some(i) => i as int,
            None => s.len() as int + 1,
        };
        assert forall|j: int| 0 <= j < end implies !key.is_prefix_of(#[trigger] s.skip(j)) by {
            if j > 0 {
                assert(s.skip(1).skip(j - 1) =~= s.skip(j));
                assert(!key.is_prefix_of(s.skip(1).skip(j - 1)));
            }
        }
    }
}

/// Replacing goes from the left: what is to be replaced at the beginning gives
/// way, any other first character stays, and so on behind it.
pub proof fn replacing_goes_from_the_left(s: Seq<char>, from: Seq<char>, to: Seq<char>)
    requires
        from.len() > 0,
    ensures
        s.len() == 0 ==> replaced(s, from, to).len() == 0,
        from.is_prefix_of(s) ==> replaced(s, from, to) == to + replaced(
            s.skip(from.len() as int),
            from,
            to,
        ),
        s.len() > 0 && !from.is_prefix_of(s) ==> replaced(s, from, to) == seq![s[0]] + replaced(
            s.skip(1),
            from,
            to,
        ),
{
}

} // verus!
