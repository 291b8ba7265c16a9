//! What `pdftotext -bbox` prints, and that reading it gives back the pages and
//! the words that were printed.
use crate::extract;
use crate::extract::{PageInfo, Scan, ToolRun, WordView};
use crate::geometry::{Pos, Rect};
use crate::numeral;
use crate::single::Single;
use crate::text;
use crate::xml;
use vstd::prelude::*;
use vstd::utf8::*;

verus! {

/// The numerals that bound a word.
pub struct Bounds {
    pub x_min: Seq<char>,
    pub y_min: Seq<char>,
    pub x_max: Seq<char>,
    pub y_max: Seq<char>,
}

/// One line of what the tool prints.
pub enum Printed {
    /// A page begins.
    Page { indent: Seq<char>, width: Seq<char>, height: Seq<char> },
    /// A word; `named` tells, character by character, how an apostrophe is
    /// written.
    Word { indent: Seq<char>, bounds: Bounds, text: Seq<char>, named: Seq<bool> },
    /// Anything else.
    Other(Seq<char>),
}

/// A numeral as the tool prints it.
pub open spec fn plain_numeral(n: Seq<char>) -> bool {
    &&& numeral::parsed(n) is Some
    &&& forall|i: int|
        0 <= i < n.len() ==> '0' <= #[trigger] n[i] <= '9' || n[i] == '.' || n[i] == '-'
}

/// The attributes of a page tag.
pub open spec fn page_attributes(width: Seq<char>, height: Seq<char>) -> Seq<char> {
    "width=\""@ + width + "\" "@ + "height=\""@ + height + "\""@
}

/// The attributes of a word tag.
pub open spec fn word_attributes(b: Bounds) -> Seq<char> {
    "xMin=\""@ + b.x_min + "\" "@ + "yMin=\""@ + b.y_min + "\" "@ + "xMax=\""@ + b.x_max + "\" "@
        + "yMax=\""@ + b.y_max + "\""@
}

/// The line as it is printed.
pub open spec fn line(p: Printed) -> Seq<char> {
    match p {
        Printed::Page { indent, width, height } => indent + ("<page "@ + (page_attributes(
            width,
            height,
        ) + seq!['>'])),
        Printed::Word { indent, bounds, text, named } => indent + ("<word "@ + (word_attributes(
            bounds,
        ) + (seq!['>'] + (xml::escaped(text, named) + "</word>"@)))),
        Printed::Other(l) => l,
    }
}

/// A blank beginning of a line.
pub open spec fn blank(indent: Seq<char>) -> bool {
    forall|i: int|
        0 <= i < indent.len() ==> text::whitespace(#[trigger] indent[i]) && indent[i] != '\n'
}

/// Whether a line is one that the tool may print.
pub open spec fn well_written(p: Printed) -> bool {
    match p {
        Printed::Page { indent, width, height } => blank(indent) && plain_numeral(width)
            && plain_numeral(height),
        Printed::Word { indent, bounds, text, named } => {
            &&& blank(indent)
            &&& plain_numeral(bounds.x_min)
            &&& plain_numeral(bounds.y_min)
            &&& plain_numeral(bounds.x_max)
            &&& plain_numeral(bounds.y_max)
            &&& forall|i: int| 0 <= i < text.len() ==> text[i] != '\n'
        },
        Printed::Other(l) => {
            &&& !"<page "@.is_prefix_of(text::trimmed(l))
            &&& !"<word "@.is_prefix_of(text::trimmed(l))
            &&& forall|i: int| 0 <= i < l.len() ==> l[i] != '\n'
        },
    }
}

/// The number that a numeral stands for.
pub open spec fn number(n: Seq<char>) -> Single {
    numeral::parsed(n)->0
}

/// The place that the bounds of a word stand for.
pub open spec fn place(b: Bounds) -> Rect {
    Rect {
        min: Pos { x: number(b.x_min), y: number(b.y_min) },
        max: Pos { x: number(b.x_max), y: number(b.y_max) },
    }
}

/// What a line adds to what is known: a page, or a word on the latest page.
pub open spec fn added(scan: Scan, p: Printed) -> Scan {
    match p {
        Printed::Page { indent, width, height } => Scan {
            pages: scan.pages.push(PageInfo { width: number(width), height: number(height) }),
            ..scan
        },
        Printed::Word { indent, bounds, text, named } => if text::trimmed(text).len() == 0
            || scan.pages.len() == 0 {
            scan
        } else {
            Scan {
                words: scan.words.push(
                    WordView {
                        text,
                        para_end: false,
                        page: (scan.pages.len() - 1) as nat,
                        rect: place(bounds),
                    },
                ),
                ..scan
            }
        },
        Printed::Other(l) => scan,
    }
}

/// Lines as they are printed, one below the other.
pub open spec fn printed(lines: Seq<Printed>) -> Seq<char>
    decreases lines.len(),
{
    if lines.len() == 0 {
        Seq::empty()
    } else {
        line(lines[0]) + (seq!['\n'] + printed(lines.skip(1)))
    }
}

/// What all the lines add.
pub open spec fn contents(scan: Scan, lines: Seq<Printed>) -> Scan
    decreases lines.len(),
{
    if lines.len() == 0 {
        scan
    } else {
        contents(added(scan, lines[0]), lines.skip(1))
    }
}

/// `c` does not stand in `s`.
#[verifier::opaque]
spec fn lacks(s: Seq<char>, c: char) -> bool {
    forall|i: int| 0 <= i < s.len() ==> #[trigger] s[i] != c
}

/// `key` does not begin in `s`, as its first and its third character show.
#[verifier::opaque]
spec fn quiet(s: Seq<char>, key: Seq<char>) -> bool {
    forall|i: int|
        0 <= i < s.len() ==> #[trigger] s[i] != key[0] || (i + 2 < s.len() && s[i + 2] != key[2])
}

proof fn lemma_lacks_join(a: Seq<char>, b: Seq<char>, c: char)
    requires
        lacks(a, c),
        lacks(b, c),
    ensures
        lacks(a + b, c),
{
    reveal(lacks);
    assert forall|i: int| 0 <= i < (a + b).len() implies #[trigger] (a + b)[i] != c by {
        if i < a.len() {
            assert(a[i] != c);
        } else {
            assert(b[i - a.len()] != c);
        }
    }
}

proof fn lemma_quiet_join(a: Seq<char>, b: Seq<char>, key: Seq<char>)
    requires
        quiet(a, key),
        quiet(b, key),
    ensures
        quiet(a + b, key),
{
    reveal(quiet);
    let s = a + b;
    assert forall|i: int| 0 <= i < s.len() implies #[trigger] s[i] != key[0] || (i + 2 < s.len()
        && s[i + 2] != key[2]) by {
        if i < a.len() {
            assert(s[i] == a[i]);
            if i + 2 < a.len() {
                assert(s[i + 2] == a[i + 2]);
            }
        } else {
            let j = i - a.len();
            assert(s[i] == b[j]);
            if j + 2 < b.len() {
                assert(s[i + 2] == b[j + 2]);
            }
        }
    }
}

/// The first character of its kind is where the text before it ends.
proof fn lemma_position_at(p: Seq<char>, q: Seq<char>, c: char)
    requires
        lacks(p, c),
        q.len() > 0,
        q[0] == c,
    ensures
        text::position(p + q, c) == p.len(),
        text::before(p + q, c) == p,
        text::after(p + q, c) == Some(q.skip(1)),
    decreases p.len(),
{
    reveal(lacks);
    let s = p + q;
    if p.len() == 0 {
        assert(s =~= q);
    } else {
        let rest = p.skip(1);
        assert forall|i: int| 0 <= i < rest.len() implies #[trigger] rest[i] != c by {
            assert(rest[i] == p[i + 1]);
        }
        assert(s[0] == p[0]);
        assert(s.skip(1) =~= rest + q);
        lemma_position_at(rest, q, c);
    }
    assert(s.take(p.len() as int) =~= p);
    assert(s.skip(p.len() as int + 1) =~= q.skip(1));
}

/// A key is found where it first stands.
proof fn lemma_found_at(p: Seq<char>, q: Seq<char>, key: Seq<char>)
    requires
        key.len() > 2,
        key.is_prefix_of(q),
        quiet(p, key),
    ensures
        text::found(p + q, key) == Some(p.len()),
    decreases p.len(),
{
    reveal(quiet);
    let s = p + q;
    if p.len() == 0 {
        assert(s =~= q);
    } else {
        let rest = p.skip(1);
        assert forall|i: int| 0 <= i < rest.len() implies #[trigger] rest[i] != key[0] || (i + 2
            < rest.len() && rest[i + 2] != key[2]) by {
            assert(rest[i] == p[i + 1]);
        }
        if key.is_prefix_of(s) {
            assert(p[0] != key[0] || (2 < p.len() && p[2] != key[2]));
            assert(s[0] == p[0]);
            assert(s[0] == key[0]);
            assert(s[2] == key[2]);
        }
        assert(s.skip(1) =~= rest + q);
        lemma_found_at(rest, q, key);
    }
}

/// An attribute is read back.
proof fn lemma_attribute(p: Seq<char>, key: Seq<char>, n: Seq<char>, q: Seq<char>)
    requires
        key.len() > 2,
        quiet(p, key),
        lacks(n, '"'),
        q.len() > 0,
        q[0] == '"',
    ensures
        xml::attribute(p + (key + (n + q)), key) == numeral::parsed(n),
{
    let s = p + (key + (n + q));
    assert(key.is_prefix_of(key + (n + q))) by {
        assert((key + (n + q)).subrange(0, key.len() as int) =~= key);
    }
    lemma_found_at(p, key + (n + q), key);
    assert(s.skip(p.len() as int + key.len()) =~= n + q);
    lemma_position_at(n, q, '"');
}

/// An attribute at the beginning of a text is the numeral that stands in it,
/// whatever follows.
pub proof fn an_attribute_is_what_stands_in_it(key: Seq<char>, n: Seq<char>, rest: Seq<char>)
    requires
        forall|i: int| 0 <= i < n.len() ==> n[i] != '"',
    ensures
        xml::attribute(key + (n + (seq!['"'] + rest)), key) == numeral::parsed(n),
{
    let tail = n + (seq!['"'] + rest);
    let s = key + tail;
    assert(key.is_prefix_of(s)) by {
        assert(s.subrange(0, key.len() as int) =~= key);
    }
    assert(s.skip(key.len() as int) =~= tail);
    reveal(lacks);
    lemma_position_at(n, seq!['"'] + rest, '"');
}

/// A numeral holds nothing but what numerals are made of.
proof fn lemma_numeral(n: Seq<char>)
    requires
        plain_numeral(n),
    ensures
        lacks(n, '"'),
        lacks(n, '>'),
        lacks(n, '\n'),
        forall|key: Seq<char>|
            key[0] == 'x' || key[0] == 'y' || key[0] == 'h' ==> #[trigger] quiet(n, key),
{
    reveal(lacks);
    reveal(quiet);
}

/// The literals between numerals.
proof fn lemma_quotes()
    ensures
        "\" "@.len() > 0,
        "\" "@[0] == '"',
        "\""@.len() > 0,
        "\""@[0] == '"',
        lacks("\" "@, '\n'),
        lacks("\" "@, '>'),
        lacks("\""@, '\n'),
        lacks("\""@, '>'),
        forall|key: Seq<char>|
            key[0] == 'x' || key[0] == 'y' || key[0] == 'h' ==> #[trigger] quiet("\" "@, key),
        forall|key: Seq<char>| #[trigger] quiet(Seq::<char>::empty(), key),
{
    reveal(lacks);
    reveal(quiet);
    reveal_strlit("\" ");
    reveal_strlit("\"");
}

/// The keys of a page tag.
proof fn lemma_page_keys()
    ensures
        "width=\""@.len() > 2,
        "height=\""@.len() > 2,
        "height=\""@[0] == 'h',
        quiet("width=\""@, "height=\""@),
        lacks("width=\""@, '\n'),
        lacks("height=\""@, '\n'),
{
    reveal(lacks);
    reveal(quiet);
    reveal_strlit("width=\"");
    reveal_strlit("height=\"");
}

/// The keys of a word tag.
proof fn lemma_word_keys()
    ensures
        "xMin=\""@.len() > 2,
        "yMin=\""@.len() > 2,
        "xMax=\""@.len() > 2,
        "yMax=\""@.len() > 2,
        "yMin=\""@[0] == 'y',
        "xMax=\""@[0] == 'x',
        "yMax=\""@[0] == 'y',
        quiet("xMin=\""@, "yMin=\""@),
        quiet("xMin=\""@, "xMax=\""@),
        quiet("yMin=\""@, "xMax=\""@),
        quiet("xMin=\""@, "yMax=\""@),
        quiet("yMin=\""@, "yMax=\""@),
        quiet("xMax=\""@, "yMax=\""@),
{
    reveal(quiet);
    reveal_strlit("xMin=\"");
    reveal_strlit("yMin=\"");
    reveal_strlit("xMax=\"");
    reveal_strlit("yMax=\"");
}

/// The keys of a word tag neither end the tag nor break the line.
proof fn lemma_word_keys_lack(c: char)
    requires
        c == '\n' || c == '>',
    ensures
        lacks("xMin=\""@, c),
        lacks("yMin=\""@, c),
        lacks("xMax=\""@, c),
        lacks("yMax=\""@, c),
{
    reveal(lacks);
    reveal_strlit("xMin=\"");
    reveal_strlit("yMin=\"");
    reveal_strlit("xMax=\"");
    reveal_strlit("yMax=\"");
}

/// The tags that open a page and a word.
proof fn lemma_tags(rest: Seq<char>)
    requires
        rest.len() > 0,
        rest.last() == '>',
    ensures
        ({
            let page = "<page "@ + rest;
            let word = "<word "@ + rest;
            &&& "<page "@.is_prefix_of(page)
            &&& page.skip("<page "@.len() as int) == rest
            &&& page[0] == '<' && page.last() == '>'
            &&& !"<page "@.is_prefix_of(word)
            &&& "<word "@.is_prefix_of(word)
            &&& word.skip("<word "@.len() as int) == rest
            &&& word[0] == '<' && word.last() == '>'
        }),
        lacks("<page "@, '\n'),
        lacks("<word "@, '\n'),
{
    reveal(lacks);
    reveal_strlit("<page ");
    reveal_strlit("<word ");
    let page = "<page "@ + rest;
    let word = "<word "@ + rest;
    assert(page.subrange(0, 6) =~= "<page "@);
    assert(word.subrange(0, 6) =~= "<word "@);
    assert(page.skip(6) =~= rest);
    assert(word.skip(6) =~= rest);
    assert(word[1] == 'w' && "<page "@[1] == 'p');
}

/// The end of a word tag.
proof fn lemma_closing()
    ensures
        "</word>"@ == seq!['<', '/', 'w', 'o', 'r', 'd'] + seq!['>'],
        lacks(seq!['<', '/', 'w', 'o', 'r', 'd'], '>'),
        lacks("</word>"@, '\n'),
        "</word>"@.len() == 7,
{
    reveal(lacks);
    reveal_strlit("</word>");
    assert("</word>"@ =~= seq!['<', '/', 'w', 'o', 'r', 'd'] + seq!['>']);
}

/// The size of a page is read back.
proof fn lemma_page_size(width: Seq<char>, height: Seq<char>)
    requires
        plain_numeral(width),
        plain_numeral(height),
    ensures
        extract::page_size(page_attributes(width, height) + seq!['>']) == Some(
            PageInfo { width: number(width), height: number(height) },
        ),
        lacks(page_attributes(width, height), '\n'),
{
    lemma_quotes();
    lemma_page_keys();
    lemma_numeral(width);
    lemma_numeral(height);
    let kw = "width=\""@;
    let kh = "height=\""@;
    let gap = "\" "@;
    let quote = "\""@;
    let end = seq!['>'];
    let all = page_attributes(width, height) + end;
    let none = Seq::<char>::empty();
    assert(all =~= none + (kw + (width + (gap + kh + height + quote + end))));
    lemma_attribute(none, kw, width, gap + kh + height + quote + end);
    let p = kw + width + gap;
    lemma_quiet_join(kw, width, kh);
    lemma_quiet_join(kw + width, gap, kh);
    assert(all =~= p + (kh + (height + (quote + end))));
    lemma_attribute(p, kh, height, quote + end);
    lemma_lacks_join(kw, width, '\n');
    lemma_lacks_join(kw + width, gap, '\n');
    lemma_lacks_join(p, kh, '\n');
    lemma_lacks_join(p + kh, height, '\n');
    lemma_lacks_join(p + kh + height, quote, '\n');
}

/// No key stands before its place.
proof fn lemma_keys_in_order(b: Bounds)
    requires
        plain_numeral(b.x_min),
        plain_numeral(b.y_min),
        plain_numeral(b.x_max),
    ensures
        ({
            let gap = "\" "@;
            let p2 = "xMin=\""@ + b.x_min + gap;
            let p3 = p2 + "yMin=\""@ + b.y_min + gap;
            let p4 = p3 + "xMax=\""@ + b.x_max + gap;
            &&& quiet(p2, "yMin=\""@)
            &&& quiet(p3, "xMax=\""@)
            &&& quiet(p4, "yMax=\""@)
        }),
{
    lemma_quotes();
    lemma_word_keys();
    lemma_numeral(b.x_min);
    lemma_numeral(b.y_min);
    lemma_numeral(b.x_max);
    let k1 = "xMin=\""@;
    let k2 = "yMin=\""@;
    let k3 = "xMax=\""@;
    let k4 = "yMax=\""@;
    let gap = "\" "@;
    let p2 = k1 + b.x_min + gap;
    let p3 = p2 + k2 + b.y_min + gap;
    lemma_quiet_three(k1, b.x_min, gap, k2);
    lemma_quiet_three(k1, b.x_min, gap, k3);
    lemma_quiet_three(k1, b.x_min, gap, k4);
    lemma_quiet_join(p2, k2, k3);
    lemma_quiet_three(p2 + k2, b.y_min, gap, k3);
    lemma_quiet_join(p2, k2, k4);
    lemma_quiet_three(p2 + k2, b.y_min, gap, k4);
    lemma_quiet_join(p3, k3, k4);
    lemma_quiet_three(p3 + k3, b.x_max, gap, k4);
}

/// The place of a word is read back, whatever follows its attributes.
proof fn lemma_word_rect(b: Bounds, tail: Seq<char>)
    requires
        plain_numeral(b.x_min),
        plain_numeral(b.y_min),
        plain_numeral(b.x_max),
        plain_numeral(b.y_max),
    ensures
        extract::word_rect(word_attributes(b) + tail) == Some(place(b)),
{
    lemma_quotes();
    lemma_word_keys();
    lemma_keys_in_order(b);
    lemma_numeral(b.x_min);
    lemma_numeral(b.y_min);
    lemma_numeral(b.x_max);
    lemma_numeral(b.y_max);
    let k1 = "xMin=\""@;
    let k2 = "yMin=\""@;
    let k3 = "xMax=\""@;
    let k4 = "yMax=\""@;
    let gap = "\" "@;
    let p2 = k1 + b.x_min + gap;
    let p3 = p2 + k2 + b.y_min + gap;
    let p4 = p3 + k3 + b.x_max + gap;
    let q4 = "\""@ + tail;
    let q3 = gap + (k4 + (b.y_max + q4));
    let q2 = gap + (k3 + (b.x_max + q3));
    let q1 = gap + (k2 + (b.y_min + q2));
    lemma_bounds_parts(b, tail);
    lemma_attribute(Seq::<char>::empty(), k1, b.x_min, q1);
    lemma_attribute(p2, k2, b.y_min, q2);
    lemma_attribute(p3, k3, b.x_max, q3);
    lemma_attribute(p4, k4, b.y_max, q4);
}

/// The attributes of a word, cut at each of them.
proof fn lemma_bounds_parts(b: Bounds, tail: Seq<char>)
    ensures
        ({
            let k1 = "xMin=\""@;
            let k2 = "yMin=\""@;
            let k3 = "xMax=\""@;
            let k4 = "yMax=\""@;
            let gap = "\" "@;
            let p2 = k1 + b.x_min + gap;
            let p3 = p2 + k2 + b.y_min + gap;
            let p4 = p3 + k3 + b.x_max + gap;
            let q4 = "\""@ + tail;
            let q3 = gap + (k4 + (b.y_max + q4));
            let q2 = gap + (k3 + (b.x_max + q3));
            let q1 = gap + (k2 + (b.y_min + q2));
            let all = word_attributes(b) + tail;
            &&& all == Seq::<char>::empty() + (k1 + (b.x_min + q1))
            &&& all == p2 + (k2 + (b.y_min + q2))
            &&& all == p3 + (k3 + (b.x_max + q3))
            &&& all == p4 + (k4 + (b.y_max + q4))
        }),
{
    let k1 = "xMin=\""@;
    let k2 = "yMin=\""@;
    let k3 = "xMax=\""@;
    let k4 = "yMax=\""@;
    let gap = "\" "@;
    let p2 = k1 + b.x_min + gap;
    let p3 = p2 + k2 + b.y_min + gap;
    let p4 = p3 + k3 + b.x_max + gap;
    let q4 = "\""@ + tail;
    let q3 = gap + (k4 + (b.y_max + q4));
    let q2 = gap + (k3 + (b.x_max + q3));
    let q1 = gap + (k2 + (b.y_min + q2));
    let all = word_attributes(b) + tail;
    assert(all =~= p4 + (k4 + (b.y_max + q4)));
    assert(p4 + (k4 + (b.y_max + q4)) =~= p3 + (k3 + (b.x_max + q3)));
    assert(p3 + (k3 + (b.x_max + q3)) =~= p2 + (k2 + (b.y_min + q2)));
    assert(p2 + (k2 + (b.y_min + q2)) =~= Seq::<char>::empty() + (k1 + (b.x_min + q1)));
}

/// An attribute and the gap behind it do not hold another key.
proof fn lemma_quiet_three(a: Seq<char>, n: Seq<char>, gap: Seq<char>, key: Seq<char>)
    requires
        quiet(a, key),
        quiet(n, key),
        quiet(gap, key),
    ensures
        quiet(a + n + gap, key),
{
    lemma_quiet_join(a, n, key);
    lemma_quiet_join(a + n, gap, key);
}

/// The attributes of a word neither end the tag nor break the line.
proof fn lemma_lacks_attributes(b: Bounds, c: char)
    requires
        plain_numeral(b.x_min),
        plain_numeral(b.y_min),
        plain_numeral(b.x_max),
        plain_numeral(b.y_max),
        c == '\n' || c == '>',
    ensures
        lacks(word_attributes(b), c),
{
    lemma_quotes();
    lemma_word_keys_lack(c);
    lemma_numeral(b.x_min);
    lemma_numeral(b.y_min);
    lemma_numeral(b.x_max);
    lemma_numeral(b.y_max);
    let k1 = "xMin=\""@;
    let k2 = "yMin=\""@;
    let k3 = "xMax=\""@;
    let k4 = "yMax=\""@;
    let gap = "\" "@;
    let p2 = k1 + b.x_min + gap;
    let p3 = p2 + k2 + b.y_min + gap;
    let p4 = p3 + k3 + b.x_max + gap;
    lemma_lacks_join(k1, b.x_min, c);
    lemma_lacks_join(k1 + b.x_min, gap, c);
    lemma_lacks_join(p2, k2, c);
    lemma_lacks_join(p2 + k2, b.y_min, c);
    lemma_lacks_join(p2 + k2 + b.y_min, gap, c);
    lemma_lacks_join(p3, k3, c);
    lemma_lacks_join(p3 + k3, b.x_max, c);
    lemma_lacks_join(p3 + k3 + b.x_max, gap, c);
    lemma_lacks_join(p4, k4, c);
    lemma_lacks_join(p4 + k4, b.y_max, c);
    lemma_lacks_join(p4 + k4 + b.y_max, "\""@, c);
}

/// Written text holds no tags, and breaks the line only where the text does.
proof fn lemma_escaped(s: Seq<char>, named: Seq<bool>)
    ensures
        lacks(xml::escaped(s, named), '<'),
        lacks(xml::escaped(s, named), '>'),
        lacks(s, '\n') ==> lacks(xml::escaped(s, named), '\n'),
    decreases s.len(),
{
    reveal(lacks);
    if s.len() > 0 {
        let piece = xml::escape(s[0], named[0]);
        let rest = s.skip(1);
        lemma_escaped(rest, named.skip(1));
        assert(lacks(piece, '<') && lacks(piece, '>'));
        lemma_lacks_join(piece, xml::escaped(rest, named.skip(1)), '<');
        lemma_lacks_join(piece, xml::escaped(rest, named.skip(1)), '>');
        if lacks(s, '\n') {
            assert(s[0] != '\n');
            assert forall|i: int| 0 <= i < rest.len() implies #[trigger] rest[i] != '\n' by {
                assert(rest[i] == s[i + 1]);
            }
            assert(lacks(piece, '\n'));
            lemma_lacks_join(piece, xml::escaped(rest, named.skip(1)), '\n');
        }
    }
}

/// The text of a word is read back.
proof fn lemma_word_text(b: Bounds, s: Seq<char>, named: Seq<bool>)
    requires
        lacks(word_attributes(b), '>'),
    ensures
        extract::word_text(
            word_attributes(b) + (seq!['>'] + (xml::escaped(s, named) + "</word>"@)),
        ) == s,
{
    lemma_closing();
    lemma_escaped(s, named);
    let e = xml::escaped(s, named);
    let close = "</word>"@;
    let inner = e + close;
    lemma_position_at(word_attributes(b), seq!['>'] + inner, '>');
    assert((seq!['>'] + inner).skip(1) =~= inner);
    let opening = seq!['<', '/', 'w', 'o', 'r', 'd'];
    lemma_lacks_join(e, opening, '>');
    assert(inner =~= (e + opening) + seq!['>']);
    lemma_position_at(e + opening, seq!['>'], '>');
    lemma_position_at(e, opening, '<');
    xml::unescaping_undoes_escaping(s, named);
}

/// Blanks before a text are trimmed.
proof fn lemma_trimmed(indent: Seq<char>, t: Seq<char>)
    requires
        blank(indent),
        t.len() > 0,
        !text::whitespace(t[0]),
        !text::whitespace(t.last()),
    ensures
        text::trimmed(indent + t) == t,
    decreases indent.len(),
{
    let s = indent + t;
    if indent.len() == 0 {
        assert(s =~= t);
    } else {
        assert(s[0] == indent[0]);
        assert forall|i: int| 0 <= i < indent.skip(1).len() implies text::whitespace(
            #[trigger] indent.skip(1)[i],
        ) && indent.skip(1)[i] != '\n' by {
            assert(indent.skip(1)[i] == indent[i + 1]);
        }
        assert(s.skip(1) =~= indent.skip(1) + t);
        lemma_trimmed(indent.skip(1), t);
    }
}

/// A line adds what was printed on it.
pub proof fn a_line_is_read_back(scan: Scan, p: Printed)
    requires
        well_written(p),
    ensures
        extract::step(scan, line(p)) == added(scan, p),
{
    match p {
        Printed::Page { indent, width, height } => {
            let rest = page_attributes(width, height) + seq!['>'];
            lemma_tags(rest);
            lemma_trimmed(indent, "<page "@ + rest);
            lemma_page_size(width, height);
        },
        Printed::Word { indent, bounds, text, named } => {
            let inner = xml::escaped(text, named) + "</word>"@;
            let tail = seq!['>'] + inner;
            let rest = word_attributes(bounds) + tail;
            lemma_closing();
            assert(rest.last() == "</word>"@[6]);
            lemma_tags(rest);
            lemma_trimmed(indent, "<word "@ + rest);
            lemma_word_rect(bounds, tail);
            lemma_lacks_attributes(bounds, '>');
            lemma_word_text(bounds, text, named);
        },
        Printed::Other(l) => {},
    }
}

/// A line is one line.
proof fn lemma_one_line(p: Printed)
    requires
        well_written(p),
    ensures
        lacks(line(p), '\n'),
{
    let gt = seq!['>'];
    assert(lacks(gt, '\n')) by {
        reveal(lacks);
    }
    match p {
        Printed::Page { indent, width, height } => {
            let a = page_attributes(width, height);
            assert(lacks(indent, '\n')) by {
                reveal(lacks);
            }
            lemma_page_size(width, height);
            lemma_tags(a + gt);
            lemma_lacks_join(a, gt, '\n');
            lemma_lacks_join("<page "@, a + gt, '\n');
            lemma_lacks_join(indent, "<page "@ + (a + gt), '\n');
        },
        Printed::Word { indent, bounds, text, named } => {
            let e = xml::escaped(text, named);
            let inner = e + "</word>"@;
            let tail = gt + inner;
            let a = word_attributes(bounds);
            assert(lacks(indent, '\n') && lacks(text, '\n')) by {
                reveal(lacks);
            }
            lemma_closing();
            lemma_lacks_attributes(bounds, '\n');
            lemma_escaped(text, named);
            lemma_tags(gt);
            lemma_lacks_join(e, "</word>"@, '\n');
            lemma_lacks_join(gt, inner, '\n');
            lemma_lacks_join(a, tail, '\n');
            lemma_lacks_join("<word "@, a + tail, '\n');
            lemma_lacks_join(indent, "<word "@ + (a + tail), '\n');
        },
        Printed::Other(l) => {
            reveal(lacks);
        },
    }
}

/// Whatever pages and words are printed, reading gives them back, in order,
/// each word on its page and at its place.
pub proof fn what_is_printed_is_read_back(scan: Scan, lines: Seq<Printed>)
    requires
        forall|i: int| 0 <= i < lines.len() ==> well_written(#[trigger] lines[i]),
    ensures
        extract::scanned(printed(lines), scan) == contents(scan, lines),
    decreases lines.len(),
{
    if lines.len() == 0 {
        reveal_strlit("<page ");
        reveal_strlit("<word ");
        let none = printed(lines);
        assert(text::before(none, '\n') =~= none);
    } else {
        let first = line(lines[0]);
        let rest = lines.skip(1);
        let below = seq!['\n'] + printed(rest);
        assert(well_written(lines[0]));
        assert forall|i: int| 0 <= i < rest.len() implies well_written(#[trigger] rest[i]) by {
            assert(rest[i] == lines[i + 1]);
        }
        lemma_one_line(lines[0]);
        lemma_position_at(first, below, '\n');
        assert(below.skip(1) =~= printed(rest));
        a_line_is_read_back(scan, lines[0]);
        what_is_printed_is_read_back(added(scan, lines[0]), rest);
    }
}

/// A printed document with a word is the words that were printed, paragraph
/// ends marked, on the pages that were printed.
pub proof fn a_printed_document_is_read_back(lines: Seq<Printed>)
    requires
        forall|i: int| 0 <= i < lines.len() ==> well_written(#[trigger] lines[i]),
    ensures
        ({
            let all = contents((Scan { words: Seq::empty(), pages: Seq::empty() }), lines);
            if all.words.len() == 0 {
                extract::document(printed(lines)) is Err
            } else {
                extract::document(printed(lines)) == Ok::<
                    (Seq<WordView>, Seq<PageInfo>),
                    Seq<char>,
                >((extract::marked(all.words), all.pages))
            }
        }),
{
    what_is_printed_is_read_back((Scan { words: Seq::empty(), pages: Seq::empty() }), lines);
}

/// So it is with the bytes of a successful run: if they are the printed
/// document in UTF-8, decoded as it is, the run comes to that document.
pub proof fn a_printed_run_is_read_back(lines: Seq<Printed>, run: ToolRun)
    requires
        forall|i: int| 0 <= i < lines.len() ==> well_written(#[trigger] lines[i]),
        run matches ToolRun::Finished { success, stdout, stderr } && success && valid_utf8(stdout@)
            && decode_utf8(stdout@) == printed(lines),
    ensures
        extract::decoded_plainly(run) ==> ({
            let all = contents((Scan { words: Seq::empty(), pages: Seq::empty() }), lines);
            if all.words.len() == 0 {
                extract::extraction(run) is Err
            } else {
                extract::extraction(run) == Ok::<
                    (Seq<WordView>, Seq<PageInfo>),
                    Seq<char>,
                >((extract::marked(all.words), all.pages))
            }
        }),
{
    a_printed_document_is_read_back(lines);
}

} // verus!
