//! The words of a document with their places on the pages, read from what
//! `pdftotext -bbox` prints.
use crate::geometry::{Pos, Rect};
use crate::single;
use crate::single::Single;
use crate::text;
use crate::xml;
use vstd::prelude::*;
use vstd::slice::*;
use vstd::string::*;
use vstd::utf8::*;

verus! {

/// The vertical gap, in line heights, from which on a new paragraph begins.
pub const PARAGRAPH_GAP: u32 = 0x3fe6_6666;

/// One word of the document.
#[derive(Debug)]
pub struct Word {
    pub text: String,
    /// Whether the word is the last one of its paragraph.
    pub para_end: bool,
    /// The page that the word is on, counted from zero.
    pub page: usize,
    /// Where on the page, in PDF points.
    pub rect: Rect,
}

/// The size of a page, in PDF points.
#[derive(Clone, Copy, Debug, PartialEq, Eq, Structural)]
pub struct PageInfo {
    pub width: Single,
    pub height: Single,
}

/// What a run of the extraction tool came to.
pub enum ToolRun {
    /// The tool could not be started.
    Missing,
    /// The tool ran to its end.
    Finished { success: bool, stdout: Vec<u8>, stderr: Vec<u8> },
}

/// A word as a mathematical value.
#[verifier::ext_equal]
pub struct WordView {
    pub text: Seq<char>,
    pub para_end: bool,
    pub page: nat,
    pub rect: Rect,
}

impl View for Word {
    type V = WordView;

    open spec fn view(&self) -> WordView {
        WordView {
            text: self.text@,
            para_end: self.para_end,
            page: self.page as nat,
            rect: self.rect,
        }
    }
}

/// The words as mathematical values.
pub open spec fn views(words: Seq<Word>) -> Seq<WordView> {
    Seq::new(words.len(), |i: int| words[i]@)
}

/// The words and the pages found so far.
#[verifier::ext_equal]
pub struct Scan {
    pub words: Seq<WordView>,
    pub pages: Seq<PageInfo>,
}

/// The text of a word tag: what stands between its first `>` and the next
/// tag, entities resolved.
pub open spec fn word_text(rest: Seq<char>) -> Seq<char> {
    match text::after(rest, '>') {
        Some(inner) => xml::unescaped(text::before(text::before(inner, '>'), '<')),
        None => Seq::empty(),
    }
}

/// The place of a word tag, if all four of its bounds are numbers.
pub open spec fn word_rect(rest: Seq<char>) -> Option<Rect> {
    match (
        xml::attribute(rest, "xMin=\""@),
        xml::attribute(rest, "yMin=\""@),
        xml::attribute(rest, "xMax=\""@),
        xml::attribute(rest, "yMax=\""@),
    ) {
        (Some(x0), Some(y0), Some(x1), Some(y1)) => Some(
            Rect { min: Pos { x: x0, y: y0 }, max: Pos { x: x1, y: y1 } },
        ),
        _ => None,
    }
}

/// The size of a page tag, if both of its measures are numbers.
pub open spec fn page_size(rest: Seq<char>) -> Option<PageInfo> {
    match (xml::attribute(rest, "width=\""@), xml::attribute(rest, "height=\""@)) {
        (Some(width), Some(height)) => Some(PageInfo { width, height }),
        _ => None,
    }
}

/// What one line adds: a page tag with a size adds a page; behind the first
/// page, a word tag with a place and a text that is not blank adds a word on
/// the latest page. Any other line adds nothing.
pub open spec fn step(scan: Scan, line: Seq<char>) -> Scan {
    let t = text::trimmed(line);
    if "<page "@.is_prefix_of(t) {
        match page_size(t.skip("<page "@.len() as int)) {
            Some(page) => Scan { pages: scan.pages.push(page), ..scan },
            None => scan,
        }
    } else if "<word "@.is_prefix_of(t) {
        let rest = t.skip("<word "@.len() as int);
        let word = word_text(rest);
        if text::trimmed(word).len() == 0 || scan.pages.len() == 0 {
            scan
        } else {
            match word_rect(rest) {
                Some(rect) => Scan {
                    words: scan.words.push(
                        WordView {
                            text: word,
                            para_end: false,
                            page: (scan.pages.len() - 1) as nat,
                            rect,
                        },
                    ),
                    ..scan
                },
                None => scan,
            }
        }
    } else {
        scan
    }
}

/// What the lines of `xml` add to `scan`, from the first to the last.
pub open spec fn scanned(xml: Seq<char>, scan: Scan) -> Scan
    decreases xml.len(),
{
    let next = step(scan, text::before(xml, '\n'));
    match text::after(xml, '\n') {
        Some(rest) => scanned(rest, next),
        None => next,
    }
}

/// Whether a paragraph ends with word `i`: it is the last word, the next one
/// is on another page, or the next one stands more than a line and a bit
/// lower.
pub open spec fn ends_paragraph(words: Seq<WordView>, i: int) -> bool {
    ||| i + 1 == words.len()
    ||| words[i].page != words[i + 1].page
    ||| single::less(
        single::product(Single { bits: PARAGRAPH_GAP }, words[i].rect.spec_height()),
        single::difference(words[i + 1].rect.min.y, words[i].rect.min.y),
    )
}

/// The words with their paragraph ends marked.
pub open spec fn marked(words: Seq<WordView>) -> Seq<WordView> {
    Seq::new(
        words.len(),
        |i: int| WordView { para_end: ends_paragraph(words, i), ..words[i] },
    )
}

/// What the printed text `xml` comes to: the words and pages in it, or what
/// to tell the reader.
pub open spec fn document(xml: Seq<char>) -> Result<(Seq<WordView>, Seq<PageInfo>), Seq<char>> {
    let scan = scanned(xml, Scan { words: Seq::empty(), pages: Seq::empty() });
    if scan.words.len() == 0 {
        Err("No extractable text — is this a scanned/image-only PDF?"@)
    } else {
        Ok((marked(scan.words), scan.pages))
    }
}

/// What a run of the tool comes to.
pub open spec fn extraction(run: ToolRun) -> Result<
    (Seq<WordView>, Seq<PageInfo>),
    Seq<char>,
> {
    match run {
        ToolRun::Missing => Err(
            "pdftotext not found — install poppler: brew install poppler"@,
        ),
        ToolRun::Finished { success, stdout, stderr } => if success {
            document(lossy_text(stdout@))
        } else {
            Err("pdftotext failed: "@ + text::trimmed(lossy_text(stderr@)))
        },
    }
}

/// Every word has a text that is not blank and stands on one of `pages`
/// pages, and the words come page by page.
pub open spec fn well_placed(words: Seq<WordView>, pages: nat) -> bool {
    &&& forall|i: int|
        0 <= i < words.len() ==> {
            &&& text::trimmed(#[trigger] words[i].text).len() > 0
            &&& words[i].page < pages
        }
    &&& forall|i: int, j: int|
        0 <= i <= j < words.len() ==> #[trigger] words[i].page <= #[trigger] words[j].page
}

/// The text that `String::from_utf8_lossy` makes of `bytes`.
pub uninterp spec fn lossy_text(bytes: Seq<u8>) -> Seq<char>;

/// Calls `String::from_utf8_lossy`: valid UTF-8 is decoded as it is; how
/// anything else is replaced is left to the name.
#[verifier::external_body]
fn decode_lossy(bytes: &[u8]) -> (s: String)
    ensures
        s@ == lossy_text(bytes@),
        valid_utf8(bytes@) ==> s@ == decode_utf8(bytes@),
{
    String::from_utf8_lossy(bytes).into_owned()
}

/// Valid UTF-8 is decoded as it is: what a successful run printed, and what a
/// failed one complained of.
pub open spec fn decoded_plainly(run: ToolRun) -> bool {
    match run {
        ToolRun::Missing => true,
        ToolRun::Finished { success, stdout, stderr } => {
            &&& success && valid_utf8(stdout@) ==> lossy_text(stdout@) == decode_utf8(stdout@)
            &&& !success && valid_utf8(stderr@) ==> lossy_text(stderr@) == decode_utf8(stderr@)
        },
    }
}

/// The first word that is on page `page` or a later one; the number of words
/// if there is none.
pub open spec fn first_on(words: Seq<WordView>, page: nat) -> nat
    decreases words.len(),
{
    if words.len() == 0 || words[0].page >= page {
        0
    } else {
        1 + first_on(words.skip(1), page)
    }
}

/// For each page up to the last one with a word, the first word that is on it
/// or on a later page.
pub open spec fn starts(words: Seq<WordView>) -> Seq<nat> {
    Seq::new(
        if words.len() == 0 {
            0
        } else {
            words.last().page + 1
        },
        |p: int| first_on(words, p as nat),
    )
}

/// `first_on` is the least index from which on the words are on `page` or
/// behind it.
pub proof fn lemma_first_on(words: Seq<WordView>, page: nat)
    ensures
        first_on(words, page) <= words.len(),
        forall|i: int| 0 <= i < first_on(words, page) ==> #[trigger] words[i].page < page,
        first_on(words, page) < words.len() ==> words[first_on(words, page) as int].page >= page,
    decreases words.len(),
{
    if words.len() > 0 && words[0].page < page {
        lemma_first_on(words.skip(1), page);
        assert forall|i: int| 0 <= i < first_on(words, page) implies #[trigger] words[i].page
            < page by {
            if i > 0 {
                assert(words.skip(1)[i - 1] == words[i]);
            }
        }
    }
}

/// The least index is the only one.
pub proof fn lemma_first_on_is(words: Seq<WordView>, page: nat, k: nat)
    requires
        k <= words.len(),
        forall|i: int| 0 <= i < k ==> #[trigger] words[i].page < page,
        k < words.len() ==> words[k as int].page >= page,
    ensures
        first_on(words, page) == k,
{
    lemma_first_on(words, page);
    let f = first_on(words, page);
    if f < k {
        assert(words[f as int].page < page);
    }
    if k < f {
        assert(words[k as int].page < page);
    }
}

/// Reading lines only adds words, each of them well placed.
proof fn lemma_step_placed(scan: Scan, line: Seq<char>)
    requires
        well_placed(scan.words, scan.pages.len()),
    ensures
        well_placed(step(scan, line).words, step(scan, line).pages.len()),
{
    let next = step(scan, line);
    if next.words.len() > scan.words.len() {
        let n = scan.words.len() as int;
        assert(forall|i: int| 0 <= i < n ==> next.words[i] == scan.words[i]);
        assert forall|i: int| 0 <= i < next.words.len() implies {
            &&& text::trimmed(#[trigger] next.words[i].text).len() > 0
            &&& next.words[i].page < next.pages.len()
        } by {
            if i < n {
                assert(text::trimmed(scan.words[i].text).len() > 0);
            }
        }
        assert forall|i: int, j: int| 0 <= i <= j < next.words.len() implies (
        #[trigger] next.words[i].page) <= (#[trigger] next.words[j].page) by {
            if i < n {
                assert(text::trimmed(scan.words[i].text).len() > 0);
                if j < n {
                    assert(scan.words[i].page <= scan.words[j].page);
                }
            }
        }
    } else {
        assert(next.words == scan.words);
    }
}

proof fn lemma_scanned_placed(xml: Seq<char>, scan: Scan)
    requires
        well_placed(scan.words, scan.pages.len()),
    ensures
        well_placed(scanned(xml, scan).words, scanned(xml, scan).pages.len()),
    decreases xml.len(),
{
    let next = step(scan, text::before(xml, '\n'));
    lemma_step_placed(scan, text::before(xml, '\n'));
    if let Some(rest) = text::after(xml, '\n') {
        lemma_scanned_placed(rest, next);
    }
}

/// In every document the words are well placed, there is at least one, and
/// the last one ends a paragraph, as does the last one of each page.
pub proof fn document_is_well_placed(xml: Seq<char>)
    ensures
        document(xml) matches Ok((words, pages)) ==> {
            &&& words.len() > 0
            &&& well_placed(words, pages.len())
            &&& words.last().para_end
            &&& forall|i: int|
                0 <= i < words.len() - 1 && (#[trigger] words[i]).page != words[i + 1].page
                    ==> words[i].para_end
        },
{
    let scan = scanned(xml, Scan { words: Seq::empty(), pages: Seq::empty() });
    lemma_scanned_placed(xml, Scan { words: Seq::empty(), pages: Seq::empty() });
    if scan.words.len() > 0 {
        let words = marked(scan.words);
        assert forall|i: int| 0 <= i < words.len() implies {
            &&& text::trimmed(#[trigger] words[i].text).len() > 0
            &&& words[i].page < scan.pages.len()
        } by {
            assert(text::trimmed(scan.words[i].text).len() > 0);
        }
        assert forall|i: int, j: int| 0 <= i <= j < words.len() implies (
        #[trigger] words[i].page) <= (#[trigger] words[j].page) by {
            assert(scan.words[i].page <= scan.words[j].page);
        }
    }
}

/// What a run of the tool comes to is well placed, as every document is.
pub proof fn extraction_is_well_placed(run: ToolRun)
    ensures
        extraction(run) matches Ok((words, pages)) ==> {
            &&& words.len() > 0
            &&& well_placed(words, pages.len())
            &&& words.last().para_end
        },
{
    if let ToolRun::Finished { success, stdout, stderr } = run {
        document_is_well_placed(lossy_text(stdout@));
    }
}

/// The number in the attribute of `rest` that `key` opens.
fn number(rest: &[char], key: &str) -> (r: Option<Single>)
    ensures
        r == xml::attribute(rest@, key@),
{
    let key = text::chars_of(key);
    xml::attribute_of(rest, key.as_slice())
}

/// The size of a page tag.
fn read_page(rest: &[char]) -> (r: Option<PageInfo>)
    ensures
        r == page_size(rest@),
{
    match (number(rest, "width=\""), number(rest, "height=\"")) {
        (Some(width), Some(height)) => Some(PageInfo { width, height }),
        _ => None,
    }
}

/// The place of a word tag.
fn read_rect(rest: &[char]) -> (r: Option<Rect>)
    ensures
        r == word_rect(rest@),
{
    match (
        number(rest, "xMin=\""),
        number(rest, "yMin=\""),
        number(rest, "xMax=\""),
        number(rest, "yMax=\""),
    ) {
        (Some(x0), Some(y0), Some(x1), Some(y1)) => Some(
            Rect { min: Pos { x: x0, y: y0 }, max: Pos { x: x1, y: y1 } },
        ),
        _ => None,
    }
}

/// The text of a word tag.
fn read_text(rest: &[char]) -> (r: Vec<char>)
    ensures
        r@ == word_text(rest@),
{
    match text::part_after(rest, '>') {
        Some(inner) => {
            xml::unescape(text::part_before(text::part_before(inner, '>'), '<'))
        },
        None => Vec::new(),
    }
}

/// What stands behind `tag` in `t`, if `t` begins with it.
fn behind_tag<'a>(t: &'a [char], tag: &str) -> (r: Option<&'a [char]>)
    ensures
        match r {
            Some(rest) => tag@.is_prefix_of(t@) && rest@ == t@.skip(tag@.len() as int),
            None => !tag@.is_prefix_of(t@),
        },
{
    let tag = text::chars_of(tag);
    if text::begins_with(t, tag.as_slice()) {
        assert(t@.subrange(tag@.len() as int, t@.len() as int) =~= t@.skip(tag@.len() as int));
        Some(slice_subrange(t, tag.len(), t.len()))
    } else {
        None
    }
}

/// Adds what one line holds.
fn read_line(line: &[char], words: &mut Vec<Word>, pages: &mut Vec<PageInfo>)
    ensures
        ({
            let next = step((Scan { words: views(old(words)@), pages: old(pages)@ }), line@);
            views(final(words)@) == next.words && final(pages)@ == next.pages
        }),
{
    let t = text::trim(line);
    if let Some(rest) = behind_tag(t, "<page ") {
        if let Some(page) = read_page(rest) {
            pages.push(page);
        }
        return;
    }
    if let Some(rest) = behind_tag(t, "<word ") {
        let word = read_text(rest);
        if text::trim(word.as_slice()).len() == 0 || pages.len() == 0 {
            return;
        }
        if let Some(rect) = read_rect(rest) {
            let ghost before = words@;
            words.push(
                Word {
                    text: text::string_of(word.as_slice()),
                    para_end: false,
                    page: pages.len() - 1,
                    rect,
                },
            );
            assert(views(words@) =~= views(before).push(words@.last()@));
        }
    }
}

/// Whether a paragraph ends with the word at `i`.
fn is_paragraph_end(words: &Vec<Word>, i: usize) -> (r: bool)
    requires
        i < words@.len(),
    ensures
        r == ends_paragraph(views(words@), i as int),
{
    if i == words.len() - 1 {
        return true;
    }
    let a = &words[i];
    let b = &words[i + 1];
    a.page != b.page || (Single { bits: PARAGRAPH_GAP }).times(a.rect.height()).lt(
        b.rect.min.y.minus(a.rect.min.y),
    )
}

/// Marks the paragraph ends: a page break, or a vertical gap larger than about
/// 1.8 lines.
fn mark_paragraphs(words: Vec<Word>) -> (r: Vec<Word>)
    ensures
        views(r@) == marked(views(words@)),
{
    let mut words = words;
    let ghost before = views(words@);
    let mut i: usize = 0;
    while i < words.len()
        invariant
            i <= words.len(),
            words.len() == before.len(),
            forall|j: int| 0 <= j < i ==> (#[trigger] words@[j])@ == marked(before)[j],
            forall|j: int| i <= j < words.len() ==> (#[trigger] words@[j])@ == before[j],
            forall|j: int|
                0 <= j < words.len() ==> (#[trigger] words@[j])@.page == before[j].page
                    && words@[j]@.rect == before[j].rect,
        decreases words.len() - i,
    {
        let end = is_paragraph_end(&words, i);
        assert(end == ends_paragraph(before, i as int)) by {
            let now = views(words@);
            assert(now[i as int].page == before[i as int].page && now[i as int].rect
                == before[i as int].rect);
            if i + 1 < words.len() {
                assert(words@[i + 1]@ == before[i + 1]);
                assert(now[i + 1] == before[i + 1]);
            }
        }
        words[i].para_end = end;
        i = i + 1;
    }
    assert(views(words@) =~= marked(before));
    words
}

/// The words and pages that the printed text `xml` holds, or, if it holds no
/// word, what to tell the reader.
pub fn words_of(xml: &str) -> (r: Result<(Vec<Word>, Vec<PageInfo>), String>)
    ensures
        match document(xml@) {
            Ok((words, pages)) => r matches Ok(x) && views(x.0@) == words && x.1@ == pages,
            Err(e) => r matches Err(x) && x@ == e,
        },
{
    let xml = text::chars_of(xml);
    let mut words: Vec<Word> = Vec::new();
    let mut pages: Vec<PageInfo> = Vec::new();
    let ghost empty = Scan { words: Seq::empty(), pages: Seq::empty() };
    let mut rest: &[char] = xml.as_slice();
    assert(views(words@) =~= Seq::<WordView>::empty());
    loop
        invariant_except_break
            scanned(rest@, (Scan { words: views(words@), pages: pages@ })) == scanned(xml@, empty),
        ensures
            scanned(xml@, empty) == (Scan { words: views(words@), pages: pages@ }),
        decreases rest@.len(),
    {
        let line = text::part_before(rest, '\n');
        read_line(line, &mut words, &mut pages);
        match text::part_after(rest, '\n') {
            Some(next) => {
                rest = next;
            },
            None => {
                break;
            },
        }
    }
    if words.len() == 0 {
        return Err("No extractable text — is this a scanned/image-only PDF?".to_string());
    }
    Ok((mark_paragraphs(words), pages))
}

/// What to tell the reader of a run that failed with `message`.
pub fn failure(message: &str) -> (r: String)
    ensures
        r@ == "pdftotext failed: "@ + text::trimmed(message@),
{
    let message = text::chars_of(message);
    let trimmed = text::string_of(text::trim(message.as_slice()));
    "pdftotext failed: ".to_string().concat(trimmed.as_str())
}

/// The words of a document with their places, from a run of
/// `pdftotext -bbox`.
pub fn extract_bbox(run: &ToolRun) -> (r: Result<(Vec<Word>, Vec<PageInfo>), String>)
    ensures
        match extraction(*run) {
            Ok((words, pages)) => r matches Ok(x) && views(x.0@) == words && x.1@ == pages,
            Err(e) => r matches Err(x) && x@ == e,
        },
        decoded_plainly(*run),
{
    match run {
        ToolRun::Missing => Err(
            "pdftotext not found — install poppler: brew install poppler".to_string(),
        ),
        ToolRun::Finished { success, stdout, stderr } => {
            if *success {
                words_of(decode_lossy(stdout.as_slice()).as_str())
            } else {
                Err(failure(decode_lossy(stderr.as_slice()).as_str()))
            }
        },
    }
}

/// For each page up to the last one with a word, the first word that is on it
/// or on a later page.
pub fn page_starts(words: &Vec<Word>) -> (r: Vec<usize>)
    requires
        forall|i: int, j: int|
            0 <= i <= j < words@.len() ==> #[trigger] words@[i].page <= #[trigger] words@[j].page,
        words@.len() > 0 ==> words@.last().page < usize::MAX,
    ensures
        r@.len() == starts(views(words@)).len(),
        forall|p: int| 0 <= p < r@.len() ==> #[trigger] r@[p] == starts(views(words@))[p],
{
    let mut r: Vec<usize> = Vec::new();
    let ghost all = views(words@);
    let mut i: usize = 0;
    while i < words.len()
        invariant
            i <= words.len(),
            all == views(words@),
            forall|i: int, j: int|
                0 <= i <= j < words@.len() ==> #[trigger] words@[i].page
                    <= #[trigger] words@[j].page,
            words@.len() > 0 ==> words@.last().page < usize::MAX,
            r@.len() == (if i == 0 {
                0
            } else {
                all[i - 1].page + 1
            }),
            forall|p: int| 0 <= p < r@.len() ==> #[trigger] r@[p] == first_on(all, p as nat),
        decreases words.len() - i,
    {
        let page = words[i].page;
        assert(page <= words@.last().page);
        while r.len() <= page
            invariant
                i < words.len(),
                all == views(words@),
                forall|i: int, j: int|
                    0 <= i <= j < words@.len() ==> #[trigger] words@[i].page
                        <= #[trigger] words@[j].page,
                page == words@[i as int].page,
                page < usize::MAX,
                r@.len() >= (if i == 0 {
                    0
                } else {
                    all[i - 1].page + 1
                }),
                r@.len() <= page + 1,
                forall|p: int| 0 <= p < r@.len() ==> #[trigger] r@[p] == first_on(all, p as nat),
            decreases page + 1 - r.len(),
        {
            proof {
                let p = r@.len();
                assert forall|k: int| 0 <= k < i implies #[trigger] all[k].page < p by {
                    assert(words@[k].page <= words@[i - 1].page);
                }
                lemma_first_on_is(all, p, i as nat);
            }
            r.push(i);
        }
        proof {
            if i > 0 {
                assert(words@[i - 1].page <= words@[i as int].page);
            }
        }
        i = i + 1;
    }
    r
}

/// The words and pages of a document and where each page starts, from a run
/// of `pdftotext -bbox`.
pub fn extract_pdf(run: &ToolRun) -> (r: Result<(Vec<Word>, Vec<usize>, Vec<PageInfo>), String>)
    ensures
        match extraction(*run) {
            Ok((words, pages)) => r matches Ok(x) && {
                &&& views(x.0@) == words
                &&& x.1@.len() == starts(words).len()
                &&& forall|p: int| 0 <= p < x.1@.len() ==> #[trigger] x.1@[p] == starts(words)[p]
                &&& x.2@ == pages
            },
            Err(e) => r matches Err(x) && x@ == e,
        },
        decoded_plainly(*run),
{
    match extract_bbox(run) {
        Ok((words, pages)) => {
            proof {
                extraction_is_well_placed(*run);
                let all = views(words@);
                assert(text::trimmed(all[all.len() - 1].text).len() > 0);
                assert(words@.last().page < pages.len());
                assert forall|i: int, j: int| 0 <= i <= j < words@.len() implies (
                #[trigger] words@[i].page) <= (#[trigger] words@[j].page) by {
                    assert(all[i].page <= all[j].page);
                }
            }
            let first = page_starts(&words);
            Ok((words, first, pages))
        },
        Err(e) => Err(e),
    }
}

} // verus!
