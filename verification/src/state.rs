//! The reader as a mathematical value: what it holds, and what each event
//! makes of it.
use crate::extract;
use crate::extract::{PageInfo, ToolRun, WordView};
use crate::geometry::Pos;
use crate::outline::ChapterView;
use crate::pace;
use crate::progress::Saved;
use crate::single::Single;
use vstd::prelude::*;

verus! {

/// 300, the pace before a book sets another one.
pub const FIRST_WPM: u32 = 0x4396_0000;

/// How many words an arrow key jumps.
pub const JUMP: usize = 10;

/// How many pictures of pages are kept before the far ones are dropped.
pub const KEPT: usize = 8;

/// How far from the current page a picture may lie to survive that.
pub const REACH: usize = 2;

/// 3, by how much a word's rectangle is grown for a click, in PDF points.
pub const CLICK_MARGIN: u32 = 0x4040_0000;

/// How the text is shown.
#[derive(Clone, Copy, Debug, PartialEq, Eq, Structural)]
pub enum Mode {
    /// The page itself, the current word highlighted on it.
    Pdf,
    /// The text of the page, flowing.
    Reader,
    /// One word at a fixed point.
    Focus,
}

/// Everything that the reader holds.
#[verifier::ext_equal]
pub struct State {
    pub words: Seq<WordView>,
    /// For each page, the first word that is on it or on a later page.
    pub starts: Seq<usize>,
    pub pages: Seq<PageInfo>,
    pub toc: Seq<ChapterView>,
    /// The current word.
    pub idx: usize,
    pub mode: Mode,
    /// The word that was last scrolled to.
    pub last_scrolled: usize,
    pub playing: bool,
    /// The pace, in words a minute.
    pub wpm: Single,
    /// When the current word was shown, in nanoseconds.
    pub last_advance: u128,
    pub pdf_path: Option<Seq<char>>,
    pub error: Option<Seq<char>>,
    pub progress: Map<Seq<char>, Saved>,
    /// The pages of which there is a picture.
    pub rendered: Set<usize>,
    /// The pages of which a picture was asked for.
    pub pending: Set<usize>,
    /// The number of the latest opening of a book. What is asked for carries it,
    /// so that an answer is known to belong to the book that is open.
    pub opening: u64,
}

/// The number of the opening that follows opening `n`.
pub open spec fn next_opening(n: u64) -> u64 {
    if n < u64::MAX {
        (n + 1) as u64
    } else {
        0
    }
}

/// How many numbers `starts` begins with that are at most `idx`.
pub open spec fn passed(starts: Seq<usize>, idx: usize) -> nat
    decreases starts.len(),
{
    if starts.len() == 0 || starts[0] > idx {
        0
    } else {
        1 + passed(starts.skip(1), idx)
    }
}

/// Where the pages of `words` start, as machine numbers.
pub open spec fn machine_starts(words: Seq<WordView>) -> Seq<usize> {
    extract::starts(words).map_values(|n: nat| n as usize)
}

impl State {
    /// The pages and their starts fit the words; there is a current word
    /// exactly if a book is open; nothing plays without one; an error stands
    /// only where no book is open; the pictures can be counted.
    pub open spec fn valid(self) -> bool {
        &&& extract::well_placed(self.words, self.pages.len())
        &&& self.starts == machine_starts(self.words)
        &&& self.words.len() <= usize::MAX
        &&& self.pages.len() <= usize::MAX
        &&& self.words.len() > 0 ==> self.idx < self.words.len()
        &&& self.words.len() == 0 ==> self.idx == 0 && !self.playing
        &&& self.pdf_path is Some <==> self.words.len() > 0
        &&& self.error is Some ==> self.words.len() == 0
        &&& self.rendered.finite()
    }

    /// The reader as it starts.
    pub open spec fn initial(progress: Map<Seq<char>, Saved>, now: u128) -> State {
        State {
            words: Seq::empty(),
            starts: Seq::empty(),
            pages: Seq::empty(),
            toc: Seq::empty(),
            idx: 0,
            mode: Mode::Pdf,
            last_scrolled: usize::MAX,
            playing: false,
            wpm: Single { bits: FIRST_WPM },
            last_advance: now,
            pdf_path: None,
            error: None,
            progress,
            rendered: Set::empty(),
            pending: Set::empty(),
            opening: 0,
        }
    }

    /// The position in the open book is noted.
    pub open spec fn saved(self) -> State {
        match self.pdf_path {
            Some(path) => State {
                progress: self.progress.insert(path, Saved { index: self.idx, wpm: self.wpm }),
                ..self
            },
            None => self,
        }
    }

    /// The book at `path` is opened, `run` being what the extraction came to:
    /// at the position and pace noted for it, or at its first word. A book that
    /// cannot be read leaves the reader without one.
    pub open spec fn opened(self, path: Seq<char>, run: ToolRun) -> State {
        let base = State {
            playing: false,
            toc: Seq::empty(),
            rendered: Set::empty(),
            pending: Set::empty(),
            opening: next_opening(self.opening),
            ..self
        };
        match extract::extraction(run) {
            Ok((words, pages)) => {
                let known = self.progress.dom().contains(path);
                let index = self.progress[path].index;
                State {
                    words,
                    starts: machine_starts(words),
                    pages,
                    idx: if !known {
                        0
                    } else if index < words.len() {
                        index
                    } else {
                        (words.len() - 1) as usize
                    },
                    wpm: if known {
                        self.progress[path].wpm
                    } else {
                        self.wpm
                    },
                    pdf_path: Some(path),
                    error: None,
                    ..base
                }
            },
            Err(message) => State {
                words: Seq::empty(),
                starts: Seq::empty(),
                pages: Seq::empty(),
                idx: 0,
                pdf_path: None,
                error: Some(message),
                ..base
            },
        }
    }

    /// The page of the current word, counted from one.
    pub open spec fn current_page(self) -> nat {
        let n = passed(self.starts, self.idx);
        if n < 1 {
            1
        } else {
            n
        }
    }

    /// The first word that is on page `page`, counted from one, or on a later
    /// page; the first word of the book if there is none, which is so for the
    /// pages behind the last one with a word and for those that the book lacks.
    pub open spec fn start_of(self, page: usize) -> usize {
        let i = if page > 0 {
            page - 1
        } else {
            0
        };
        if i < self.starts.len() {
            self.starts[i]
        } else {
            0
        }
    }

    /// The reader turns to page `page`, counted from one.
    pub open spec fn turned_to(self, page: usize, now: u128) -> State {
        if self.words.len() == 0 {
            self
        } else {
            let start = self.start_of(page);
            State {
                idx: if start < self.words.len() {
                    start
                } else {
                    (self.words.len() - 1) as usize
                },
                last_advance: now,
                ..self
            }
        }
    }

    /// Playing starts, or stops and the position is noted.
    pub open spec fn toggled(self, now: u128) -> State {
        if !self.playing && self.words.len() > 0 {
            State { playing: true, last_advance: now, ..self }
        } else {
            (State { playing: false, ..self }).saved()
        }
    }

    /// How long the current word stays, in nanoseconds.
    pub open spec fn stay(self) -> nat {
        let word = self.words[self.idx as int];
        pace::stay(pace::factor(word.text, word.para_end), self.wpm) * 1_000_000
    }

    /// How long ago the current word was shown, in nanoseconds.
    pub open spec fn shown_for(self, now: u128) -> nat {
        if now > self.last_advance {
            (now - self.last_advance) as nat
        } else {
            0
        }
    }

    /// Whether the current word has stayed long enough.
    pub open spec fn due(self, now: u128) -> bool {
        self.playing && self.shown_for(now) >= self.stay()
    }

    /// Time has passed: a word that has stayed long enough makes way for the
    /// next one. Behind the last one playing stops and the position is noted.
    pub open spec fn advanced(self, now: u128) -> State {
        if !self.due(now) {
            self
        } else if self.idx + 1 < self.words.len() {
            State { idx: (self.idx + 1) as usize, last_advance: now, ..self }
        } else {
            (State { playing: false, ..self }).saved()
        }
    }

    /// The left arrow key.
    pub open spec fn stepped_back(self) -> State {
        State {
            idx: if self.idx >= JUMP {
                (self.idx - JUMP) as usize
            } else {
                0
            },
            ..self
        }
    }

    /// The right arrow key.
    pub open spec fn stepped_on(self) -> State {
        if self.words.len() == 0 {
            self
        } else {
            State {
                idx: if self.idx + JUMP < self.words.len() {
                    (self.idx + JUMP) as usize
                } else {
                    (self.words.len() - 1) as usize
                },
                ..self
            }
        }
    }

    /// The keys pressed since the last frame: the space bar, then the left,
    /// then the right arrow.
    pub open spec fn keyed(self, space: bool, left: bool, right: bool, now: u128) -> State {
        let a = if space {
            self.toggled(now)
        } else {
            self
        };
        let b = if left {
            a.stepped_back()
        } else {
            a
        };
        if right {
            b.stepped_on()
        } else {
            b
        }
    }

    /// A click on word `i`.
    pub open spec fn picked(self, i: usize, now: u128) -> State {
        State { idx: i, last_advance: now, ..self }
    }

    /// Whether a picture of page `page`, counted from zero, has to be asked
    /// for: the book has that page, and neither is there a picture of it nor is
    /// one on its way.
    pub open spec fn wanted(self, page: usize) -> bool {
        &&& page < self.pages.len()
        &&& !self.rendered.contains(page)
        &&& !self.pending.contains(page)
        &&& self.pdf_path is Some
    }

    /// A picture of page `page` is asked for if one is wanted.
    pub open spec fn requested(self, page: usize) -> State {
        if self.wanted(page) {
            State { pending: self.pending.insert(page), ..self }
        } else {
            self
        }
    }

    /// A picture of page `page` has come.
    pub open spec fn received(self, page: usize) -> State {
        State {
            pending: self.pending.remove(page),
            rendered: self.rendered.insert(page),
            ..self
        }
    }

    /// A picture of page `page`, asked for in opening `opening`, has come: it is
    /// taken in if that is the latest opening, and left otherwise.
    pub open spec fn delivered(self, opening: u64, page: usize) -> State {
        if opening == self.opening {
            self.received(page)
        } else {
            self
        }
    }

    /// With too many pictures, those far from page `page` are dropped.
    pub open spec fn thinned(self, page: usize) -> State {
        if self.rendered.len() > KEPT {
            State {
                rendered: self.rendered.filter(|p: usize| page - REACH <= p <= page + REACH),
                ..self
            }
        } else {
            self
        }
    }

    /// The page of the current word, counted from zero.
    pub open spec fn page(self) -> usize {
        self.words[self.idx as int].page as usize
    }

    /// The page of the current word is about to be shown: its picture and the
    /// next page's are asked for, and far pictures dropped.
    pub open spec fn prepared(self) -> State {
        let page = self.page();
        self.requested(page).requested((page + 1) as usize).thinned(page)
    }

    /// Behind the last word of page `page`, counted from zero.
    pub open spec fn end_of(self, page: nat) -> nat {
        if page + 1 < self.starts.len() {
            self.starts[page as int + 1] as nat
        } else {
            self.words.len()
        }
    }

    /// Whether `pos`, in PDF points, lies in the rectangle of word `i`.
    pub open spec fn holds(self, i: int, pos: Pos) -> bool {
        self.words[i].rect.covers(pos)
    }

    /// Whether `pos`, in PDF points, lies in the rectangle of word `i` or close
    /// to it.
    pub open spec fn hits(self, i: int, pos: Pos) -> bool {
        self.words[i].rect.grown(Single { bits: CLICK_MARGIN }).covers(pos)
    }

    /// The first word from `i` up to `end` that holds `pos`, or, if `near`, that
    /// `pos` hits.
    pub open spec fn first_hit(self, i: int, end: int, pos: Pos, near: bool) -> Option<int>
        decreases end - i,
    {
        if i >= end {
            None
        } else if (if near {
            self.hits(i, pos)
        } else {
            self.holds(i, pos)
        }) {
            Some(i)
        } else {
            self.first_hit(i + 1, end, pos, near)
        }
    }

    /// The word of the current page that a click at `pos`, in PDF points, is
    /// meant for: the first one that holds the point; if none does, the first
    /// one close to it.
    pub open spec fn word_at(self, pos: Pos) -> Option<int> {
        let start = self.starts[self.page() as int] as int;
        let end = self.end_of(self.page() as nat) as int;
        match self.first_hit(start, end, pos, false) {
            Some(i) => Some(i),
            None => self.first_hit(start, end, pos, true),
        }
    }

    /// A click at `pos`, in PDF points, on the current page.
    pub open spec fn clicked(self, pos: Pos, now: u128) -> State {
        match self.word_at(pos) {
            Some(i) => self.picked(i as usize, now),
            None => self,
        }
    }

    /// The flowing text is about to be shown.
    pub open spec fn scrolled(self) -> State {
        State { last_scrolled: self.idx, ..self }
    }

    /// Where in the text the next row of the flowing text starts: behind the
    /// first word from `i` on that ends a paragraph, at most at `end`.
    pub open spec fn row_end(self, i: int, end: int) -> int
        decreases end - i,
    {
        if i >= end {
            end
        } else if self.words[i].para_end {
            i + 1
        } else {
            self.row_end(i + 1, end)
        }
    }
}

/// The word that is found is the first one in its range.
pub proof fn lemma_first_hit(s: State, i: int, end: int, pos: Pos)
    ensures
        match s.first_hit(i, end, pos, true) {
            Some(k) => i <= k < end && s.hits(k, pos) && forall|j: int|
                i <= j < k ==> !#[trigger] s.hits(j, pos),
            None => forall|j: int| i <= j < end ==> !#[trigger] s.hits(j, pos),
        },
        match s.first_hit(i, end, pos, false) {
            Some(k) => i <= k < end && s.holds(k, pos) && forall|j: int|
                i <= j < k ==> !#[trigger] s.holds(j, pos),
            None => forall|j: int| i <= j < end ==> !#[trigger] s.holds(j, pos),
        },
    decreases end - i,
{
    if i < end {
        lemma_first_hit(s, i + 1, end, pos);
    }
}

/// The numbers that a list begins with and that are at most `idx` are found by
/// their end.
pub proof fn lemma_passed_is(starts: Seq<usize>, idx: usize, k: nat)
    requires
        k <= starts.len(),
        forall|i: int| 0 <= i < k ==> #[trigger] starts[i] <= idx,
        k < starts.len() ==> starts[k as int] > idx,
    ensures
        passed(starts, idx) == k,
    decreases starts.len(),
{
    if starts.len() > 0 && starts[0] <= idx {
        assert(k > 0);
        let rest = starts.skip(1);
        assert forall|i: int| 0 <= i < k - 1 implies #[trigger] rest[i] <= idx by {
            assert(rest[i] == starts[i + 1]);
        }
        lemma_passed_is(rest, idx, (k - 1) as nat);
    } else if k > 0 {
        assert(starts[0] <= idx);
    }
}

/// The pages start in order, each at a word of the book.
pub proof fn lemma_starts(s: State)
    requires
        s.valid(),
    ensures
        s.starts.len() == (if s.words.len() == 0 {
            0
        } else {
            s.words.last().page + 1
        }),
        forall|p: int|
            0 <= p < s.starts.len() ==> #[trigger] s.starts[p] == extract::first_on(
                s.words,
                p as nat,
            ) && s.starts[p] < s.words.len(),
        forall|p: int, q: int|
            0 <= p <= q < s.starts.len() ==> #[trigger] s.starts[p] <= #[trigger] s.starts[q],
{
    assert forall|p: int| 0 <= p < s.starts.len() implies #[trigger] s.starts[p]
        == extract::first_on(s.words, p as nat) && s.starts[p] < s.words.len() by {
        extract::lemma_first_on(s.words, p as nat);
        let n = extract::first_on(s.words, p as nat);
        let last = s.words.len() - 1;
        if n == s.words.len() {
            assert(s.words[last].page < p);
        }
        assert(extract::starts(s.words)[p] == n);
    }
    assert forall|p: int, q: int| 0 <= p <= q < s.starts.len() implies #[trigger] s.starts[p]
        <= #[trigger] s.starts[q] by {
        extract::lemma_first_on(s.words, p as nat);
        extract::lemma_first_on(s.words, q as nat);
        if s.starts[q] < s.starts[p] {
            assert(s.words[s.starts[q] as int].page < p);
        }
    }
}

/// `current_page` is the page of the current word, counted from one.
pub proof fn current_page_holds_the_word(s: State)
    requires
        s.valid(),
        s.words.len() > 0,
    ensures
        s.current_page() == s.words[s.idx as int].page + 1,
        s.current_page() <= s.starts.len(),
{
    let page = s.words[s.idx as int].page;
    lemma_starts(s);
    assert(page <= s.words[s.words.len() - 1].page);
    assert forall|p: int| 0 <= p < page + 1 implies #[trigger] s.starts[p] <= s.idx by {
        extract::lemma_first_on(s.words, p as nat);
        if s.idx < s.starts[p] {
            assert(s.words[s.idx as int].page < p);
        }
    }
    if page + 1 < s.starts.len() {
        let q = s.starts[page as int + 1];
        extract::lemma_first_on(s.words, page + 1);
        if q <= s.idx {
            assert(s.words[q as int].page <= s.words[s.idx as int].page);
        }
    }
    lemma_passed_is(s.starts, s.idx, page + 1);
}

/// The words of the current page are a range of the book that holds the
/// current word.
pub proof fn current_page_range_holds_the_word(s: State)
    requires
        s.valid(),
        s.words.len() > 0,
    ensures
        s.starts[s.current_page() - 1] <= s.idx < s.end_of((s.current_page() - 1) as nat)
            <= s.words.len(),
        forall|i: int|
            s.starts[s.current_page() - 1] <= i < s.end_of((s.current_page() - 1) as nat)
                ==> #[trigger] s.words[i].page == s.words[s.idx as int].page,
{
    let page = s.words[s.idx as int].page;
    current_page_holds_the_word(s);
    lemma_starts(s);
    extract::lemma_first_on(s.words, page);
    extract::lemma_first_on(s.words, page + 1);
    let start = s.starts[page as int];
    let end = s.end_of(page);
    if s.idx < start {
        assert(s.words[s.idx as int].page < page);
    }
    if page + 1 < s.starts.len() && end <= s.idx {
        assert(s.words[end as int].page <= s.words[s.idx as int].page);
    }
    assert forall|i: int| start <= i < end implies #[trigger] s.words[i].page == page by {
        assert(s.words[start as int].page <= s.words[i].page);
        if page + 1 < s.starts.len() {
            assert(s.words[i].page < page + 1);
        } else {
            assert(s.words[i].page <= s.words[s.words.len() - 1].page);
        }
    }
}

/// A row of the flowing text is not empty, stays on its page, and ends at the
/// page's end or with a paragraph, which no earlier word of it ends.
pub proof fn lemma_row(s: State, i: int, end: int)
    requires
        i < end,
    ensures
        i < s.row_end(i, end) <= end,
        s.row_end(i, end) < end ==> s.words[s.row_end(i, end) - 1].para_end,
        forall|j: int| i <= j < s.row_end(i, end) - 1 ==> !(#[trigger] s.words[j]).para_end,
    decreases end - i,
{
    if !s.words[i].para_end {
        if i + 1 < end {
            lemma_row(s, i + 1, end);
        } else {
            assert(s.row_end(end, end) == end);
        }
    }
}

} // verus!
