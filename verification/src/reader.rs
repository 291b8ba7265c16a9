//! The reader itself: the open book, the place in it, and what is on screen.
use crate::extract;
use crate::extract::{PageInfo, ToolRun, Word, WordView};
use crate::geometry::{Pos, Rect};
use crate::label;
use crate::outline;
use crate::outline::Chapter;
use crate::pace;
use crate::pace_laws;
use crate::progress::{Progress, Saved};
use crate::single::Single;
use crate::state;
use crate::state::{Mode, State, CLICK_MARGIN, FIRST_WPM, JUMP, KEPT, REACH};
use crate::text;
use crate::view;
use crate::view::PageView;
use std::collections::HashSet;
use vstd::prelude::*;
use vstd::slice::*;
use vstd::string::*;

verus! {

broadcast use vstd::std_specs::hash::group_hash_axioms;

/// The reader. What it holds is its view.
pub struct App {
    words: Vec<Word>,
    page_starts: Vec<usize>,
    pages: Vec<PageInfo>,
    toc: Vec<Chapter>,
    idx: usize,
    mode: Mode,
    last_scrolled: usize,
    playing: bool,
    wpm: Single,
    last_advance: u128,
    pdf_path: Option<String>,
    error: Option<String>,
    progress: Progress,
    textures: HashSet<usize>,
    pending: HashSet<usize>,
    opening: u64,
}

/// A page of flowing text.
#[derive(Clone, Copy, Debug, PartialEq, Eq, Structural)]
pub struct ReaderPage {
    /// The first word of the page.
    pub start: usize,
    /// Behind its last word.
    pub end: usize,
    /// Whether to scroll to the current word.
    pub scroll: bool,
}

/// How a word of the flowing text looks.
#[derive(Clone, Copy, Debug, PartialEq, Eq, Structural)]
pub enum Tone {
    /// Before the current word: dimmed.
    Read,
    /// Highlighted.
    Current,
    /// Behind the current word.
    Unread,
}

/// What fills the screen.
#[derive(Clone, Copy, Debug, PartialEq, Eq, Structural)]
pub enum Screen {
    /// What went wrong with a book.
    Error,
    /// How to open a book.
    Hint,
    /// The open book.
    Book(Mode),
}

/// The characters of a string that may be missing.
pub open spec fn chars(s: Option<String>) -> Option<Seq<char>> {
    match s {
        Some(s) => Some(s@),
        None => None,
    }
}

impl View for App {
    type V = State;

    closed spec fn view(&self) -> State {
        State {
            words: extract::views(self.words@),
            starts: self.page_starts@,
            pages: self.pages@,
            toc: outline::chapters(self.toc@),
            idx: self.idx,
            mode: self.mode,
            last_scrolled: self.last_scrolled,
            playing: self.playing,
            wpm: self.wpm,
            last_advance: self.last_advance,
            pdf_path: chars(self.pdf_path),
            error: chars(self.error),
            progress: self.progress@,
            rendered: self.textures@,
            pending: self.pending@,
            opening: self.opening,
        }
    }
}

impl App {
    /// The notes about books hold each path once.
    pub closed spec fn notes_wf(&self) -> bool {
        self.progress.wf()
    }

    /// The reader is in order.
    pub open spec fn wf(&self) -> bool {
        self.notes_wf() && self@.valid()
    }

    /// The reader as it starts, with what is known of books read before.
    pub fn load(progress: Progress, now: u128) -> (r: App)
        requires
            progress.wf(),
        ensures
            r.wf(),
            r@ == State::initial(progress@, now),
    {
        let r = App {
            words: Vec::new(),
            page_starts: Vec::new(),
            pages: Vec::new(),
            toc: Vec::new(),
            idx: 0,
            mode: Mode::Pdf,
            last_scrolled: usize::MAX,
            playing: false,
            wpm: Single { bits: FIRST_WPM },
            last_advance: now,
            pdf_path: None,
            error: None,
            progress,
            textures: HashSet::new(),
            pending: HashSet::new(),
            opening: 0,
        };
        proof {
            assert(r@.words =~= Seq::<WordView>::empty());
            assert(r@.toc =~= Seq::<outline::ChapterView>::empty());
            assert(r@ =~= State::initial(progress@, now));
            assert(r@.starts =~= state::machine_starts(r@.words));
        }
        r
    }

    /// Notes the position in the open book.
    pub fn save_progress(&mut self)
        requires
            old(self).wf(),
        ensures
            final(self).wf(),
            final(self)@ == old(self)@.saved(),
    {
        if let Some(path) = &self.pdf_path {
            let path = path.clone();
            self.progress.insert(path, Saved { index: self.idx, wpm: self.wpm });
        }
    }

    /// Opens the book at `path`, `run` being what its extraction came to, at the
    /// position and pace noted for it. Tells whether there is a book now, whose
    /// table of contents is then still to be set.
    pub fn open_pdf(&mut self, path: String, run: &ToolRun) -> (opened: bool)
        requires
            old(self).wf(),
        ensures
            final(self).wf(),
            final(self)@ == old(self)@.opened(path@, *run),
            opened == (extract::extraction(*run) is Ok),
            extract::decoded_plainly(*run),
    {
        self.playing = false;
        self.textures.clear();
        self.pending.clear();
        self.opening = if self.opening < u64::MAX {
            self.opening + 1
        } else {
            0
        };
        match extract::extract_pdf(run) {
            Ok((words, page_starts, pages)) => {
                proof {
                    extract::extraction_is_well_placed(*run);
                    let all = extract::views(words@);
                    assert(page_starts@ =~= state::machine_starts(all));
                    assert(words.len() <= usize::MAX && pages.len() <= usize::MAX);
                }
                self.error = None;
                match self.progress.get(&path) {
                    Some(saved) => {
                        let last: usize = words.len() - 1;
                        self.idx = if saved.index < last {
                            saved.index
                        } else {
                            last
                        };
                        self.wpm = saved.wpm;
                    },
                    None => {
                        self.idx = 0;
                    },
                }
                self.words = words;
                self.page_starts = page_starts;
                self.toc = Vec::new();
                self.pages = pages;
                self.pdf_path = Some(path);
                assert(self@.toc =~= Seq::<outline::ChapterView>::empty());
                assert(self@ =~= old(self)@.opened(path@, *run));
                true
            },
            Err(e) => {
                self.error = Some(e);
                self.words = Vec::new();
                self.page_starts = Vec::new();
                self.pages = Vec::new();
                self.toc = Vec::new();
                self.pdf_path = None;
                self.idx = 0;
                proof {
                    assert(self@.words =~= Seq::<WordView>::empty());
                    assert(self@.toc =~= Seq::<outline::ChapterView>::empty());
                    assert(self@ =~= old(self)@.opened(path@, *run));
                    assert(self@.starts =~= state::machine_starts(self@.words));
                }
                false
            },
        }
    }

    /// Sets the table of contents.
    pub fn set_toc(&mut self, toc: Vec<Chapter>)
        requires
            old(self).wf(),
        ensures
            final(self).wf(),
            final(self)@ == (State { toc: outline::chapters(toc@), ..old(self)@ }),
    {
        self.toc = toc;
    }

    /// The page that the current word is on, counted from one.
    pub fn current_page(&self) -> (page: usize)
        requires
            self.wf(),
        ensures
            page == self@.current_page(),
    {
        let mut low: usize = 0;
        let mut high: usize = self.page_starts.len();
        proof {
            state::lemma_starts(self@);
        }
        while low < high
            invariant
                low <= high <= self.page_starts.len(),
                self@.starts == self.page_starts@,
                forall|p: int, q: int|
                    0 <= p <= q < self@.starts.len() ==> #[trigger] self@.starts[p]
                        <= #[trigger] self@.starts[q],
                forall|p: int| 0 <= p < low ==> #[trigger] self@.starts[p] <= self.idx,
                forall|p: int|
                    high <= p < self@.starts.len() ==> #[trigger] self@.starts[p] > self.idx,
            decreases high - low,
        {
            let middle: usize = low + (high - low) / 2;
            let ghost pivot = self@.starts[middle as int];
            if self.page_starts[middle] <= self.idx {
                low = middle + 1;
            } else {
                high = middle;
            }
        }
        proof {
            state::lemma_passed_is(self@.starts, self@.idx, low as nat);
        }
        if low < 1 {
            1
        } else {
            low
        }
    }

    /// Turns to page `page`, counted from one.
    pub fn goto_page(&mut self, page: usize, now: u128)
        requires
            old(self).wf(),
        ensures
            final(self).wf(),
            final(self)@ == old(self)@.turned_to(page, now),
    {
        if self.words.len() == 0 {
            return;
        }
        let i: usize = if page > 0 {
            page - 1
        } else {
            0
        };
        let start: usize = if i < self.page_starts.len() {
            self.page_starts[i]
        } else {
            0
        };
        let last: usize = self.words.len() - 1;
        self.idx = if start < last {
            start
        } else {
            last
        };
        self.last_advance = now;
    }

    /// Starts playing, or stops and notes the position. Tells whether the notes
    /// are to be stored.
    pub fn toggle_play(&mut self, now: u128) -> (store: bool)
        requires
            old(self).wf(),
        ensures
            final(self).wf(),
            final(self)@ == old(self)@.toggled(now),
            store == !final(self)@.playing,
    {
        self.playing = !self.playing && self.words.len() > 0;
        if self.playing {
            self.last_advance = now;
            false
        } else {
            self.save_progress();
            true
        }
    }

    /// How long the current word stays, in nanoseconds.
    fn stay(&self) -> (r: u128)
        requires
            self.wf(),
            self@.words.len() > 0,
        ensures
            r == self@.stay(),
    {
        let ms = pace::delay_for(&self.words[self.idx], self.wpm);
        assert(self@.words[self@.idx as int] == self.words@[self.idx as int]@);
        ms as u128 * 1_000_000
    }

    /// Makes way for the next word if the current one has stayed long enough.
    /// Tells whether the notes are to be stored, which they are behind the last
    /// word.
    pub fn advance(&mut self, now: u128) -> (store: bool)
        requires
            old(self).wf(),
        ensures
            final(self).wf(),
            final(self)@ == old(self)@.advanced(now),
            store == (old(self)@.due(now) && old(self)@.idx + 1 == old(self)@.words.len()),
    {
        if !self.playing {
            return false;
        }
        let shown: u128 = if now > self.last_advance {
            now - self.last_advance
        } else {
            0
        };
        if shown < self.stay() {
            return false;
        }
        if self.idx < self.words.len() - 1 {
            self.idx = self.idx + 1;
            self.last_advance = now;
            false
        } else {
            self.playing = false;
            self.save_progress();
            true
        }
    }

    /// How long until the current word has stayed long enough, in nanoseconds.
    pub fn wake_after(&self, now: u128) -> (r: u128)
        requires
            self.wf(),
            self@.words.len() > 0,
        ensures
            r == (if self@.stay() > self@.shown_for(now) {
                self@.stay() - self@.shown_for(now)
            } else {
                0
            }),
    {
        let shown: u128 = if now > self.last_advance {
            now - self.last_advance
        } else {
            0
        };
        let stay = self.stay();
        if stay > shown {
            stay - shown
        } else {
            0
        }
    }

    /// The keys pressed since the last frame: the space bar, then the left, then
    /// the right arrow. Tells whether the notes are to be stored.
    pub fn press_keys(&mut self, space: bool, left: bool, right: bool, now: u128) -> (store: bool)
        requires
            old(self).wf(),
        ensures
            final(self).wf(),
            final(self)@ == old(self)@.keyed(space, left, right, now),
            store == (space && !final(self)@.playing),
    {
        let mut store = false;
        if space {
            store = self.toggle_play(now);
        }
        if left {
            self.idx = if self.idx >= JUMP {
                self.idx - JUMP
            } else {
                0
            };
        }
        if right && self.words.len() > 0 {
            let last: usize = self.words.len() - 1;
            self.idx = if last - self.idx > JUMP {
                self.idx + JUMP
            } else {
                last
            };
        }
        store
    }

    /// Sets the pace, held to those on offer.
    pub fn set_wpm(&mut self, wpm: Single)
        requires
            old(self).wf(),
        ensures
            final(self).wf(),
            final(self)@ == (State { wpm: pace::held(wpm), ..old(self)@ }),
            !wpm.nan() ==> pace::on_offer(final(self)@.wpm),
            pace::on_offer(wpm) ==> final(self)@.wpm == wpm,
    {
        proof {
            pace_laws::a_held_pace_is_on_offer(wpm);
        }
        self.wpm = pace::hold(wpm);
    }

    /// Sets how the text is shown.
    pub fn set_mode(&mut self, mode: Mode)
        requires
            old(self).wf(),
        ensures
            final(self).wf(),
            final(self)@ == (State { mode, ..old(self)@ }),
    {
        self.mode = mode;
    }

    /// Moves to word `i`, as the progress bar does.
    pub fn seek(&mut self, i: usize)
        requires
            old(self).wf(),
            i < old(self)@.words.len(),
        ensures
            final(self).wf(),
            final(self)@ == (State { idx: i, ..old(self)@ }),
    {
        self.idx = i;
    }

    /// Moves to word `i`, as a click on it does.
    pub fn pick_word(&mut self, i: usize, now: u128)
        requires
            old(self).wf(),
            i < old(self)@.words.len(),
        ensures
            final(self).wf(),
            final(self)@ == old(self)@.picked(i, now),
    {
        self.idx = i;
        self.last_advance = now;
    }

    /// Asks for a picture of page `page`, counted from zero, if one is wanted.
    /// Tells whether it is.
    pub fn request_page(&mut self, page: usize) -> (send: bool)
        requires
            old(self).wf(),
        ensures
            final(self).wf(),
            final(self)@ == old(self)@.requested(page),
            send == old(self)@.wanted(page),
    {
        if page >= self.pages.len() || self.textures.contains(&page) || self.pending.contains(&page) {
            return false;
        }
        if self.pdf_path.is_some() {
            self.pending.insert(page);
            true
        } else {
            false
        }
    }

    /// Takes in a picture of page `page` that was asked for in opening `opening`,
    /// unless another book, or the same one again, was opened since. Tells
    /// whether it was taken in.
    pub fn receive_page(&mut self, opening: u64, page: usize) -> (taken: bool)
        requires
            old(self).wf(),
        ensures
            final(self).wf(),
            final(self)@ == old(self)@.delivered(opening, page),
            taken == (opening == old(self)@.opening),
    {
        if opening != self.opening {
            return false;
        }
        self.pending.remove(&page);
        self.textures.insert(page);
        true
    }

    /// The number of the latest opening, which a request for a picture carries.
    pub fn opening(&self) -> (r: u64)
        ensures
            r == self@.opening,
    {
        self.opening
    }

    /// Whether there is a picture of page `page`.
    pub fn is_rendered(&self, page: usize) -> (r: bool)
        ensures
            r == self@.rendered.contains(page),
    {
        self.textures.contains(&page)
    }

    /// Drops the pictures far from page `page` if there are too many.
    fn thin(&mut self, page: usize)
        requires
            old(self).wf(),
        ensures
            final(self).wf(),
            final(self)@ == old(self)@.thinned(page),
    {
        if self.textures.len() <= KEPT {
            return;
        }
        let first: usize = if page >= REACH {
            page - REACH
        } else {
            0
        };
        let last: usize = if page <= usize::MAX - REACH {
            page + REACH
        } else {
            usize::MAX
        };
        let ghost all = self.textures@;
        let ghost near = |p: usize| page - REACH <= p <= page + REACH;
        let mut kept: HashSet<usize> = HashSet::new();
        let mut p: usize = first;
        let mut left: usize = last - first;
        assert(kept@ =~= all.filter(|q: usize| first <= q < p));
        loop
            invariant_except_break
                kept@ == all.filter(|q: usize| first <= q < p),
            invariant
                self.textures@ == all,
                first <= p <= last,
                left == last - p,
            ensures
                kept@ == all.filter(|q: usize| first <= q <= last),
            decreases left,
        {
            if self.textures.contains(&p) {
                kept.insert(p);
            }
            if left == 0 {
                assert(kept@ =~= all.filter(|q: usize| first <= q <= last));
                break;
            }
            assert(kept@ =~= all.filter(|q: usize| first <= q < p + 1));
            p = p + 1;
            left = left - 1;
        }
        assert(kept@ =~= all.filter(near));
        self.textures = kept;
    }

    /// Gets ready to show the page of the current word: asks for its picture and
    /// the next page's, and drops far ones. Returns the page, counted from zero,
    /// and whether its picture and the next page's have to be rendered.
    pub fn prepare_page(&mut self) -> (r: (usize, bool, bool))
        requires
            old(self).wf(),
            old(self)@.words.len() > 0,
        ensures
            final(self).wf(),
            final(self)@ == old(self)@.prepared(),
            r.0 == old(self)@.page(),
            r.0 < old(self)@.pages.len(),
            r.1 == old(self)@.wanted(r.0),
            r.2 == old(self)@.requested(r.0).wanted((r.0 + 1) as usize),
    {
        let page = self.words[self.idx].page;
        assert(self@.words[self@.idx as int] == self.words@[self.idx as int]@);
        assert(text::trimmed(self@.words[self@.idx as int].text).len() > 0);
        let current = self.request_page(page);
        let next = self.request_page(page + 1);
        self.thin(page);
        (page, current, next)
    }

    /// The first word from `start` up to `end` that holds `pos`, or, if `near`,
    /// that `pos` hits.
    fn first_hit(&self, start: usize, end: usize, pos: Pos, near: bool) -> (r: Option<usize>)
        requires
            end <= self@.words.len(),
        ensures
            match self@.first_hit(start as int, end as int, pos, near) {
                Some(i) => r matches Some(k) && k == i && i < end,
                None => r is None,
            },
    {
        let margin = Single { bits: CLICK_MARGIN };
        let mut i: usize = start;
        while i < end
            invariant
                end <= self.words.len(),
                margin.bits == CLICK_MARGIN,
                self@.words == extract::views(self.words@),
                self@.first_hit(start as int, end as int, pos, near) == self@.first_hit(
                    i as int,
                    end as int,
                    pos,
                    near,
                ),
            decreases end - i,
        {
            assert(self@.words[i as int] == self.words@[i as int]@);
            let rect = self.words[i].rect;
            let found = if near {
                rect.expand(margin).contains(pos)
            } else {
                rect.contains(pos)
            };
            if found {
                return Some(i);
            }
            i = i + 1;
        }
        None
    }

    /// The word of the current page that a click at `pos`, in PDF points, is
    /// meant for.
    fn word_at(&self, pos: Pos) -> (r: Option<usize>)
        requires
            self.wf(),
            self@.words.len() > 0,
        ensures
            match self@.word_at(pos) {
                Some(i) => r matches Some(k) && k == i && i < self@.words.len(),
                None => r is None,
            },
    {
        let page = self.words[self.idx].page;
        proof {
            assert(self@.words[self@.idx as int] == self.words@[self.idx as int]@);
            state::lemma_starts(self@);
            state::current_page_holds_the_word(self@);
        }
        let end: usize = if page < self.page_starts.len() - 1 {
            self.page_starts[page + 1]
        } else {
            self.words.len()
        };
        let start: usize = self.page_starts[page];
        match self.first_hit(start, end, pos, false) {
            Some(i) => Some(i),
            None => self.first_hit(start, end, pos, true),
        }
    }

    /// A click at `pos` on the screen, where the current page is shown as
    /// `view`: moves to the word there, if there is one.
    pub fn click(&mut self, view: PageView, pos: Pos, now: u128)
        requires
            old(self).wf(),
            old(self)@.words.len() > 0,
        ensures
            final(self).wf(),
            final(self)@ == old(self)@.clicked(view::on_page(view, pos), now),
    {
        if let Some(i) = self.word_at(view.page_point(pos)) {
            self.pick_word(i, now);
        }
    }

    /// Where the current page goes on a screen with room `avail`.
    pub fn page_view(&self, avail: Rect) -> (r: PageView)
        requires
            self.wf(),
            self@.words.len() > 0,
        ensures
            r == view::fitted(avail, self@.pages[self@.page() as int]),
    {
        assert(self@.words[self@.idx as int] == self.words@[self.idx as int]@);
        assert(text::trimmed(self@.words[self@.idx as int].text).len() > 0);
        view::fit_page(avail, self.pages[self.words[self.idx].page])
    }

    /// Where the current word is highlighted on the page shown as `view`.
    pub fn highlight(&self, view: PageView) -> (r: Rect)
        requires
            self.wf(),
            self@.words.len() > 0,
        ensures
            r == view::highlighted(view, self@.words[self@.idx as int].rect),
    {
        assert(self@.words[self@.idx as int] == self.words@[self.idx as int]@);
        view.highlight(self.words[self.idx].rect)
    }

    /// The current word in three parts: what stands before the letter to look at,
    /// that letter, and what stands behind it.
    pub fn focus_parts(&self) -> (r: (String, String, String))
        requires
            self.wf(),
            self@.words.len() > 0,
        ensures
            ({
                let word = self@.words[self@.idx as int].text;
                let k = pace::recognition_point(word.len()) as int;
                &&& 0 <= k < word.len()
                &&& r.0@ == word.take(k)
                &&& r.1@ == seq![word[k]]
                &&& r.2@ == word.skip(k + 1)
            }),
    {
        assert(self@.words[self@.idx as int] == self.words@[self.idx as int]@);
        assert(text::trimmed(self@.words[self@.idx as int].text).len() > 0);
        let word = text::chars_of(self.words[self.idx].text.as_str());
        let k = pace::orp_index(word.len());
        proof {
            pace_laws::recognition_point_is_inside(word@.len());
        }
        let chars = word.as_slice();
        let before = text::string_of(slice_subrange(chars, 0, k));
        let letter = text::string_of(slice_subrange(chars, k, k + 1));
        let behind = text::string_of(slice_subrange(chars, k + 1, chars.len()));
        assert(before@ =~= word@.take(k as int));
        assert(letter@ =~= seq![word@[k as int]]);
        assert(behind@ =~= word@.skip(k + 1));
        (before, letter, behind)
    }

    /// Gets ready to show the page of the current word as flowing text: which
    /// words it has, and whether to scroll to the current one, which is so once
    /// after each move.
    pub fn reader_page(&mut self) -> (r: ReaderPage)
        requires
            old(self).wf(),
            old(self)@.words.len() > 0,
        ensures
            final(self).wf(),
            final(self)@ == old(self)@.scrolled(),
            r.start == old(self)@.starts[old(self)@.current_page() - 1],
            r.end == old(self)@.end_of((old(self)@.current_page() - 1) as nat),
            r.scroll == (old(self)@.idx != old(self)@.last_scrolled),
            r.start <= old(self)@.idx < r.end <= old(self)@.words.len(),
    {
        proof {
            state::current_page_holds_the_word(self@);
            state::current_page_range_holds_the_word(self@);
        }
        let page = self.current_page();
        let start = self.page_starts[page - 1];
        let end: usize = if page < self.page_starts.len() {
            self.page_starts[page]
        } else {
            self.words.len()
        };
        let scroll = self.idx != self.last_scrolled;
        self.last_scrolled = self.idx;
        ReaderPage { start, end, scroll }
    }

    /// Where the row of flowing text that begins with word `i` ends, on a page
    /// that ends at `end`.
    pub fn row_end(&self, i: usize, end: usize) -> (r: usize)
        requires
            i < end <= self@.words.len(),
        ensures
            r == self@.row_end(i as int, end as int),
            i < r <= end,
    {
        proof {
            state::lemma_row(self@, i as int, end as int);
        }
        let mut k: usize = i;
        while k < end
            invariant
                end <= self@.words.len(),
                self@.words == extract::views(self.words@),
                i < self@.row_end(i as int, end as int) <= end,
                k <= end,
                self@.row_end(i as int, end as int) == self@.row_end(k as int, end as int),
            decreases end - k,
        {
            assert(self@.words[k as int] == self.words@[k as int]@);
            if self.words[k].para_end {
                return k + 1;
            }
            k = k + 1;
        }
        end
    }

    /// How word `i` of the flowing text looks.
    pub fn tone(&self, i: usize) -> (r: Tone)
        ensures
            r == (if i < self@.idx {
                Tone::Read
            } else if i == self@.idx {
                Tone::Current
            } else {
                Tone::Unread
            }),
    {
        if i < self.idx {
            Tone::Read
        } else if i == self.idx {
            Tone::Current
        } else {
            Tone::Unread
        }
    }

    /// What fills the screen.
    pub fn screen(&self) -> (r: Screen)
        ensures
            r == (if self@.error is Some {
                Screen::Error
            } else if self@.words.len() == 0 {
                Screen::Hint
            } else {
                Screen::Book(self@.mode)
            }),
    {
        if self.error.is_some() {
            Screen::Error
        } else if self.words.len() == 0 {
            Screen::Hint
        } else {
            Screen::Book(self.mode)
        }
    }

    /// What the play button says.
    pub fn play_label(&self) -> (r: &'static str)
        ensures
            r@ == (if self@.playing {
                "Pause"@
            } else {
                "Play"@
            }),
    {
        if self.playing {
            "Pause"
        } else {
            "Play"
        }
    }

    /// The position in the book, in words.
    pub fn position_label(&self) -> (r: String)
        requires
            self.wf(),
            self@.words.len() > 0,
        ensures
            r@ == label::written((self@.idx + 1) as nat) + " / "@ + label::written(
                self@.words.len(),
            ),
    {
        let a = label::write_decimal(self.idx + 1);
        let b = label::join(a.as_str(), " / ");
        label::join(b.as_str(), label::write_decimal(self.words.len()).as_str())
    }

    /// The number of words.
    pub fn word_count(&self) -> (r: usize)
        ensures
            r == self@.words.len(),
    {
        self.words.len()
    }

    /// Word `i`.
    pub fn word(&self, i: usize) -> (r: &Word)
        requires
            i < self@.words.len(),
        ensures
            r@ == self@.words[i as int],
    {
        &self.words[i]
    }

    /// The number of pages up to the last one with a word.
    pub fn page_count(&self) -> (r: usize)
        ensures
            r == self@.starts.len(),
    {
        self.page_starts.len()
    }

    /// The current word.
    pub fn idx(&self) -> (r: usize)
        ensures
            r == self@.idx,
    {
        self.idx
    }

    /// How the text is shown.
    pub fn mode(&self) -> (r: Mode)
        ensures
            r == self@.mode,
    {
        self.mode
    }

    /// Whether words follow each other by themselves.
    pub fn playing(&self) -> (r: bool)
        ensures
            r == self@.playing,
    {
        self.playing
    }

    /// The pace, in words a minute.
    pub fn wpm(&self) -> (r: Single)
        ensures
            r == self@.wpm,
    {
        self.wpm
    }

    /// What went wrong with the latest book.
    pub fn error(&self) -> (r: &Option<String>)
        ensures
            chars(*r) == self@.error,
    {
        &self.error
    }

    /// The path of the open book.
    pub fn pdf_path(&self) -> (r: &Option<String>)
        ensures
            chars(*r) == self@.pdf_path,
    {
        &self.pdf_path
    }

    /// The table of contents.
    pub fn toc(&self) -> (r: &Vec<Chapter>)
        ensures
            outline::chapters(r@) == self@.toc,
    {
        &self.toc
    }

    /// Where each book was left.
    pub fn progress(&self) -> (r: &Progress)
        requires
            self.wf(),
        ensures
            r.wf(),
            r@ == self@.progress,
    {
        &self.progress
    }
}

} // verus!
