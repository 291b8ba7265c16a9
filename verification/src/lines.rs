//! What each line of the printed text adds, and what a run of the tool comes
//! to, whatever the lines are.
use crate::extract;
use crate::extract::{PageInfo, Scan, ToolRun, Word, WordView};
use crate::geometry::{Pos, Rect};
use crate::text;
use crate::xml;
use vstd::prelude::*;

verus! {

/// Words are seen as they are: each with its text, its paragraph end, its page
/// and its place.
pub proof fn every_word_is_seen(words: Seq<Word>)
    ensures
        extract::views(words).len() == words.len(),
        forall|i: int|
            #![trigger words[i]]
            #![trigger extract::views(words)[i]]
            0 <= i < words.len() ==> {
                &&& extract::views(words)[i].text == words[i].text@
                &&& extract::views(words)[i].para_end == words[i].para_end
                &&& extract::views(words)[i].page == words[i].page
                &&& extract::views(words)[i].rect == words[i].rect
            },
{
}

/// A line that begins, behind blanks, with a page tag adds a page of its width
/// and its height, if both are numbers, and nothing otherwise.
pub proof fn a_page_tag_adds_a_page(scan: Scan, line: Seq<char>, rest: Seq<char>)
    requires
        text::trimmed(line) == "<page "@ + rest,
    ensures
        extract::step(scan, line).words == scan.words,
        match (xml::attribute(rest, "width=\""@), xml::attribute(rest, "height=\""@)) {
            (Some(w), Some(h)) => extract::step(scan, line).pages == scan.pages.push(
                (PageInfo { width: w, height: h }),
            ),
            _ => extract::step(scan, line).pages == scan.pages,
        },
{
    lemma_tag("<page "@, rest);
}

/// What stands behind a tag.
proof fn lemma_tag(tag: Seq<char>, rest: Seq<char>)
    ensures
        tag.is_prefix_of(tag + rest),
        (tag + rest).skip(tag.len() as int) == rest,
{
    assert((tag + rest).subrange(0, tag.len() as int) =~= tag);
    assert((tag + rest).skip(tag.len() as int) =~= rest);
}

/// The two tags are never the same.
proof fn lemma_tags_differ(rest: Seq<char>)
    ensures
        !"<page "@.is_prefix_of("<word "@ + rest),
{
    reveal_strlit("<page ");
    reveal_strlit("<word ");
    let s = "<word "@ + rest;
    assert(s[1] == 'w');
    if "<page "@.is_prefix_of(s) {
        assert("<page "@[1] == s.subrange(0, 6)[1]);
    }
}

/// A line that begins, behind blanks, with a word tag adds a word to the latest
/// page, with the text and the place of the tag, if there is a page, the text
/// is not blank and all four bounds are numbers. It adds nothing otherwise.
pub proof fn a_word_tag_adds_a_word(scan: Scan, line: Seq<char>, rest: Seq<char>)
    requires
        text::trimmed(line) == "<word "@ + rest,
    ensures
        extract::step(scan, line).pages == scan.pages,
        match (
            xml::attribute(rest, "xMin=\""@),
            xml::attribute(rest, "yMin=\""@),
            xml::attribute(rest, "xMax=\""@),
            xml::attribute(rest, "yMax=\""@),
        ) {
            (Some(x0), Some(y0), Some(x1), Some(y1)) => if scan.pages.len() > 0 && text::trimmed(
                extract::word_text(rest),
            ).len() > 0 {
                extract::step(scan, line).words == scan.words.push(
                    (WordView {
                        text: extract::word_text(rest),
                        para_end: false,
                        page: (scan.pages.len() - 1) as nat,
                        rect: (Rect { min: (Pos { x: x0, y: y0 }), max: (Pos { x: x1, y: y1 }) }),
                    }),
                )
            } else {
                extract::step(scan, line).words == scan.words
            },
            _ => extract::step(scan, line).words == scan.words,
        },
{
    lemma_tag("<word "@, rest);
    lemma_tags_differ(rest);
}

/// Any other line adds nothing.
pub proof fn any_other_line_adds_nothing(scan: Scan, line: Seq<char>)
    requires
        !"<page "@.is_prefix_of(text::trimmed(line)),
        !"<word "@.is_prefix_of(text::trimmed(line)),
    ensures
        extract::step(scan, line) == scan,
{
}

/// The text of a word is what stands behind the first `>` of its tag, up to the
/// next `<` or `>` or the end of the line, entities resolved.
pub proof fn the_text_of_a_word(a: Seq<char>, t: Seq<char>, q: Seq<char>)
    requires
        forall|i: int| 0 <= i < a.len() ==> a[i] != '>',
        forall|i: int| 0 <= i < t.len() ==> t[i] != '>' && t[i] != '<',
        q.len() > 0 ==> q[0] == '<' || q[0] == '>',
    ensures
        extract::word_text(a) == Seq::<char>::empty(),
        extract::word_text(a + (seq!['>'] + (t + q))) == xml::unescaped(t),
{
    let inner = t + q;
    text::the_first_character_of_its_kind(a, inner, '>');
    let part = text::before(inner, '>');
    lemma_up_to(t, q);
    assert(text::before(part, '<') == t);
}

/// What stands before a `>` or a `<`, whichever comes first.
proof fn lemma_up_to(t: Seq<char>, q: Seq<char>)
    requires
        forall|i: int| 0 <= i < t.len() ==> t[i] != '>' && t[i] != '<',
        q.len() > 0 ==> q[0] == '<' || q[0] == '>',
    ensures
        text::before(text::before(t + q, '>'), '<') == t,
{
    let s = t + q;
    if q.len() == 0 {
        assert(s =~= t);
        text::the_first_character_of_its_kind(t, q, '>');
        text::the_first_character_of_its_kind(t, q, '<');
    } else if q[0] == '>' {
        assert(q =~= seq!['>'] + q.skip(1));
        text::the_first_character_of_its_kind(t, q.skip(1), '>');
        text::the_first_character_of_its_kind(t, q, '<');
    } else {
        // The `<` comes first; a `>` may follow it.
        let u = text::before(q, '>');
        lemma_before_behind(t, q, '>');
        assert(u.len() > 0 && u[0] == '<') by {
            lemma_first_kept(q, '>');
        }
        assert(u =~= seq!['<'] + u.skip(1));
        text::the_first_character_of_its_kind(t, u.skip(1), '<');
    }
}

/// What stands before `c` in a text whose beginning lacks it.
proof fn lemma_before_behind(t: Seq<char>, q: Seq<char>, c: char)
    requires
        forall|i: int| 0 <= i < t.len() ==> t[i] != c,
    ensures
        text::before(t + q, c) == t + text::before(q, c),
    decreases t.len(),
{
    if t.len() == 0 {
        assert(t + q =~= q);
        assert(t + text::before(q, c) =~= text::before(q, c));
    } else {
        let s = t + q;
        assert(s.skip(1) =~= t.skip(1) + q);
        assert forall|i: int| 0 <= i < t.skip(1).len() implies t.skip(1)[i] != c by {
            assert(t.skip(1)[i] == t[i + 1]);
        }
        lemma_before_behind(t.skip(1), q, c);
        assert(s[0] == t[0]);
        let k = text::position(s.skip(1), c);
        assert(text::position(s, c) == 1 + k);
        lemma_position_bound(s.skip(1), c);
        assert(s.take(1 + k as int) =~= seq![t[0]] + s.skip(1).take(k as int));
        assert(seq![t[0]] + (t.skip(1) + text::before(q, c)) =~= t + text::before(q, c));
    }
}

/// A first character other than `c` stands before the first `c`.
proof fn lemma_first_kept(q: Seq<char>, c: char)
    requires
        q.len() > 0,
        q[0] != c,
    ensures
        text::before(q, c).len() > 0,
        text::before(q, c)[0] == q[0],
{
    lemma_position_bound(q.skip(1), c);
}

/// A position never leaves the text.
proof fn lemma_position_bound(q: Seq<char>, c: char)
    ensures
        text::position(q, c) <= q.len(),
    decreases q.len(),
{
    if q.len() > 0 && q[0] != c {
        lemma_position_bound(q.skip(1), c);
    }
}

/// Lines are read one after the other, from the first to the last, however many
/// there are.
pub proof fn lines_are_read_in_order(line: Seq<char>, rest: Seq<char>, scan: Scan)
    requires
        forall|i: int| 0 <= i < line.len() ==> line[i] != '\n',
    ensures
        extract::scanned(line, scan) == extract::step(scan, line),
        extract::scanned(line + (seq!['\n'] + rest), scan) == extract::scanned(
            rest,
            extract::step(scan, line),
        ),
{
    text::the_first_character_of_its_kind(line, rest, '\n');
}

/// A document is what its lines add up to, paragraph ends marked; without a
/// word it is refused.
pub proof fn a_document_is_what_its_lines_add(xml: Seq<char>)
    ensures
        ({
            let all = extract::scanned(
                xml,
                (Scan { words: Seq::empty(), pages: Seq::empty() }),
            );
            &&& all.words.len() == 0 ==> extract::document(xml) == Err::<
                (Seq<WordView>, Seq<PageInfo>),
                Seq<char>,
            >("No extractable text — is this a scanned/image-only PDF?"@)
            &&& all.words.len() > 0 ==> extract::document(xml) is Ok
            &&& extract::document(xml) matches Ok((words, pages)) ==> {
                &&& pages == all.pages
                &&& words.len() == all.words.len()
                &&& forall|i: int|
                    #![trigger words[i]]
                    0 <= i < words.len() ==> words[i].text == all.words[i].text && words[i].page
                        == all.words[i].page && words[i].rect == all.words[i].rect
            }
        }),
{
}

/// A tool that cannot be started, or that fails, is told; a run that succeeds is
/// the document that it printed.
pub proof fn what_a_run_comes_to(run: ToolRun)
    ensures
        run is Missing ==> extract::extraction(run) == Err::<
            (Seq<WordView>, Seq<PageInfo>),
            Seq<char>,
        >("pdftotext not found — install poppler: brew install poppler"@),
        run matches ToolRun::Finished { success, stdout, stderr } ==> {
            &&& success ==> extract::extraction(run) == extract::document(
                extract::lossy_text(stdout@),
            )
            &&& !success ==> extract::extraction(run) == Err::<
                (Seq<WordView>, Seq<PageInfo>),
                Seq<char>,
            >("pdftotext failed: "@ + text::trimmed(extract::lossy_text(stderr@)))
        },
{
}

/// The places at which pages start: as many as there are pages up to that of
/// the last word; each at the first word that is on it or behind it.
pub proof fn pages_start_at_their_first_words(words: Seq<WordView>, p: nat)
    requires
        words.len() > 0,
        p <= words.last().page,
        forall|i: int, j: int|
            0 <= i <= j < words.len() ==> #[trigger] words[i].page <= #[trigger] words[j].page,
    ensures
        extract::starts(words).len() == words.last().page + 1,
        extract::starts(words)[p as int] < words.len(),
        words[extract::starts(words)[p as int] as int].page >= p,
        forall|i: int|
            0 <= i < extract::starts(words)[p as int] ==> (#[trigger] words[i]).page < p,
        extract::starts(Seq::<WordView>::empty()).len() == 0,
{
    extract::lemma_first_on(words, p);
    let last = words.len() - 1;
    if extract::first_on(words, p) == words.len() {
        assert(words[last].page < p);
    }
}

} // verus!
