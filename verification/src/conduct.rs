//! What each event does to the reader, in plain numbers: which fields change,
//! to what, on which inputs, and that nothing else changes.
use crate::extract;
use crate::extract::{PageInfo, ToolRun, WordView};
use crate::geometry::Pos;
use crate::laws;
use crate::outline::ChapterView;
use crate::pace;
use crate::progress::Saved;
use crate::single;
use crate::single::Single;
use crate::state;
use crate::state::{Mode, State};
use crate::text;
use crate::timing;
use vstd::prelude::*;

verus! {

/// At its start the reader has no book, shows pages, plays nothing, reads 300
/// words a minute and remembers what it was given.
pub proof fn the_reader_starts_empty(progress: Map<Seq<char>, Saved>, now: u128)
    ensures
        ({
            let s = State::initial(progress, now);
            &&& s.words == Seq::<WordView>::empty()
            &&& s.starts == Seq::<usize>::empty()
            &&& s.pages == Seq::<PageInfo>::empty()
            &&& s.toc == Seq::<ChapterView>::empty()
            &&& s.idx == 0
            &&& s.mode == Mode::Pdf
            &&& s.last_scrolled == usize::MAX
            &&& !s.playing
            &&& s.wpm.bits == 0x4396_0000
            &&& s.last_advance == now
            &&& s.pdf_path is None
            &&& s.error is None
            &&& s.progress == progress
            &&& s.rendered == Set::<usize>::empty()
            &&& s.pending == Set::<usize>::empty()
        }),
{
}

/// Saving writes the place and the pace to the note on the open book, whatever
/// they are and whether or not the book plays; without a book it does nothing.
pub proof fn saving_writes_place_and_pace(s: State)
    ensures
        s.pdf_path matches Some(path) ==> s.saved() == (State {
            progress: s.progress.insert(path, (Saved { index: s.idx, wpm: s.wpm })),
            ..s
        }),
        s.pdf_path is None ==> s.saved() == s,
{
}

/// Opening a book that can be read shows its words and pages from the noted
/// place on, or from the first word if there is no note, and stops playing.
pub proof fn opening_shows_the_book(s: State, path: Seq<char>, run: ToolRun)
    requires
        extract::extraction(run) is Ok,
    ensures
        ({
            let words = extract::extraction(run)->Ok_0.0;
            let t = s.opened(path, run);
            &&& t.words == words
            &&& t.pages == extract::extraction(run)->Ok_0.1
            &&& t.pdf_path == Some(path)
            &&& t.error is None
            &&& !t.playing
            &&& t.toc.len() == 0
            &&& t.rendered == Set::<usize>::empty()
            &&& t.pending == Set::<usize>::empty()
            &&& t.opening != s.opening
            &&& t.mode == s.mode
            &&& t.last_scrolled == s.last_scrolled
            &&& t.last_advance == s.last_advance
            &&& t.progress == s.progress
            &&& !s.progress.dom().contains(path) ==> t.idx == 0 && t.wpm == s.wpm
            &&& s.progress.dom().contains(path) ==> {
                let note = s.progress[path];
                &&& t.wpm == note.wpm
                &&& note.index < words.len() ==> t.idx == note.index
                &&& note.index >= words.len() ==> t.idx + 1 == words.len()
            }
        }),
{
    extract::extraction_is_well_placed(run);
}

/// Opening a book, page `p` counted from zero starts at the first word that is
/// on it or behind it, for every page up to the last one with a word.
pub proof fn opening_finds_the_page_starts(s: State, path: Seq<char>, run: ToolRun)
    requires
        extract::extraction(run) matches Ok((words, pages)) && words.len() <= usize::MAX,
    ensures
        ({
            let words = extract::extraction(run)->Ok_0.0;
            let t = s.opened(path, run);
            &&& t.starts.len() == words.last().page + 1
            &&& forall|p: int|
                #![trigger t.starts[p]]
                0 <= p < t.starts.len() ==> {
                    &&& t.starts[p] < words.len()
                    &&& words[t.starts[p] as int].page >= p
                    &&& forall|i: int|
                        0 <= i < t.starts[p] ==> (#[trigger] words[i]).page < p
                }
        }),
{
    extract::extraction_is_well_placed(run);
    let words = extract::extraction(run)->Ok_0.0;
    let t = s.opened(path, run);
    assert forall|p: int| #![trigger t.starts[p]] 0 <= p < t.starts.len() implies {
        &&& t.starts[p] < words.len()
        &&& words[t.starts[p] as int].page >= p
        &&& forall|i: int| 0 <= i < t.starts[p] ==> (#[trigger] words[i]).page < p
    } by {
        extract::lemma_first_on(words, p as nat);
        let n = extract::first_on(words, p as nat);
        let last = words.len() - 1;
        if n == words.len() {
            assert(words[last].page < p);
        }
        assert(t.starts[p] == n);
    }
}

/// A book that cannot be read leaves the reader without one; place, pictures
/// and contents are gone, the pace and the notes stay.
pub proof fn a_failed_opening_clears_the_book(s: State, path: Seq<char>, run: ToolRun)
    requires
        extract::extraction(run) is Err,
    ensures
        ({
            let t = s.opened(path, run);
            &&& t.words.len() == 0
            &&& t.starts.len() == 0
            &&& t.pages.len() == 0
            &&& t.toc.len() == 0
            &&& t.idx == 0
            &&& t.pdf_path is None
            &&& t.error == Some(extract::extraction(run)->Err_0)
            &&& !t.playing
            &&& t.rendered == Set::<usize>::empty()
            &&& t.pending == Set::<usize>::empty()
            &&& t.opening != s.opening
            &&& t.mode == s.mode
            &&& t.wpm == s.wpm
            &&& t.progress == s.progress
            &&& t.last_scrolled == s.last_scrolled
            &&& t.last_advance == s.last_advance
        }),
{
}

/// Each opening has the number after the one before it.
pub proof fn openings_are_numbered(s: State, path: Seq<char>, run: ToolRun)
    ensures
        s.opening < u64::MAX ==> s.opened(path, run).opening == s.opening + 1,
        s.opening == u64::MAX ==> s.opened(path, run).opening == 0,
{
}

/// The current page, counted from one, is the page of the current word; without
/// a book it is the first one.
pub proof fn the_current_page_is_the_page_of_the_word(s: State)
    requires
        s.valid(),
    ensures
        s.words.len() > 0 ==> s.current_page() == s.words[s.idx as int].page + 1,
        s.words.len() == 0 ==> s.current_page() == 1,
{
    if s.words.len() > 0 {
        state::current_page_holds_the_word(s);
    } else {
        assert(s.starts.len() == 0);
    }
}

/// Turning to a page moves the place to the first word that is on it or behind
/// it, or to the first word of the book if there is none, and restarts the time
/// of the word. Whether the book plays does not matter, and nothing else
/// changes.
pub proof fn turning_moves_the_place(s: State, page: usize, now: u128)
    requires
        s.valid(),
    ensures
        ({
            let t = s.turned_to(page, now);
            &&& s.words.len() == 0 ==> t == s
            &&& s.words.len() > 0 ==> {
                &&& t == (State { idx: t.idx, last_advance: now, ..s })
                &&& t.idx < s.words.len()
                &&& (page == 0 || page > s.words.last().page + 1) ==> t.idx == 0
                &&& 1 <= page <= s.words.last().page + 1 ==> {
                    &&& s.words[t.idx as int].page + 1 >= page
                    &&& forall|i: int|
                        0 <= i < t.idx ==> (#[trigger] s.words[i]).page + 1 < page
                }
            }
        }),
{
    state::lemma_starts(s);
    if s.words.len() > 0 && 1 <= page <= s.words.last().page + 1 {
        extract::lemma_first_on(s.words, (page - 1) as nat);
        assert(s.turned_to(page, now).idx == s.starts[page - 1]);
    }
}

/// Toggling starts a book that does not play and gives its word its full time;
/// it stops one that plays and notes the place and the pace. Without a book
/// nothing starts.
pub proof fn toggling_starts_and_stops(s: State, now: u128)
    ensures
        !s.playing && s.words.len() > 0 ==> s.toggled(now) == (State {
            playing: true,
            last_advance: now,
            ..s
        }),
        s.playing || s.words.len() == 0 ==> {
            &&& s.pdf_path matches Some(path) ==> s.toggled(now) == (State {
                playing: false,
                progress: s.progress.insert(path, (Saved { index: s.idx, wpm: s.wpm })),
                ..s
            })
            &&& s.pdf_path is None ==> s.toggled(now) == (State { playing: false, ..s })
        },
{
}

/// A word stays for a minute divided by the reader's own pace, times the factor
/// that its text and its paragraph end earn, whichever word and whichever pace.
pub proof fn the_stay_is_that_of_the_word_at_the_pace(s: State)
    ensures
        s.stay() == 1_000_000 * single::truncated(
            single::product(
                single::quotient((Single { bits: 0x476a_6000 }), s.wpm),
                pace::factor(s.words[s.idx as int].text, s.words[s.idx as int].para_end),
            ),
            0xffff_ffff_ffff_ffff,
        ),
{
}

/// How long a word has been shown is the time since it was shown first; a clock
/// that went back counts as no time.
pub proof fn shown_for_is_the_time_since(s: State, now: u128)
    ensures
        now >= s.last_advance ==> s.shown_for(now) == now - s.last_advance,
        now < s.last_advance ==> s.shown_for(now) == 0,
{
}

/// While the book plays, a word is due from the moment on at which it has been
/// shown for its stay; at a later moment it is still due. Nothing is due while
/// the book does not play.
pub proof fn a_word_is_due_once_it_has_stayed(s: State, now: u128)
    ensures
        s.playing && now >= s.last_advance ==> (s.due(now) <==> now - s.last_advance >= s.stay()),
        s.playing && now < s.last_advance ==> (s.due(now) <==> s.stay() == 0),
        !s.playing ==> !s.due(now),
        forall|later: u128| now <= later && s.due(now) ==> #[trigger] s.due(later),
{
}

/// At a whole pace of 100 to 1000 words a minute, a word is due once it has
/// been shown for 60000 milliseconds over the pace, times 1, 1.5, 2 or 2.5, in
/// whole milliseconds; long words, times 1.4, at every pace but 875.
pub proof fn due_at_a_whole_pace(s: State, n: nat, now: u128)
    requires
        100 <= n <= 1000,
        s.wpm == single::from_whole(n),
        s.playing,
        now >= s.last_advance,
    ensures
        ({
            let word = s.words[s.idx as int];
            let end = word.text.last();
            let sentence = word.text.len() > 0 && (end == '.' || end == '!' || end == '?');
            let clause = word.text.len() > 0 && (end == ',' || end == ';' || end == ':');
            let shown = now - s.last_advance;
            let due = |ms: int| shown >= ms * 1_000_000;
            &&& word.para_end ==> (s.due(now) <==> due(150000int / n as int))
            &&& !word.para_end && sentence ==> (s.due(now) <==> due(120000int / n as int))
            &&& !word.para_end && clause ==> (s.due(now) <==> due(90000int / n as int))
            &&& !word.para_end && !sentence && !clause && word.text.len() > 8 && n != 875 ==> (
            s.due(now) <==> due(84000int / n as int))
            &&& !word.para_end && !sentence && !clause && word.text.len() <= 8 ==> (s.due(now)
                <==> due(60000int / n as int))
        }),
{
    let word = s.words[s.idx as int];
    let f = pace::factor(word.text, word.para_end);
    if !(f.bits == pace::LONG && n == 875) {
        timing::stay_at_a_whole_pace(f, n);
    }
}

/// Time moves a playing book on by one word, and restarts its time, whenever
/// the word is due and is not the last one. When the last one is due, the book
/// stops and place and pace are noted. Nothing happens otherwise.
pub proof fn time_moves_every_due_word(s: State, now: u128)
    requires
        s.valid(),
    ensures
        s.playing && s.shown_for(now) >= s.stay() && s.idx + 1 < s.words.len() ==> s.advanced(now)
            == (State { idx: (s.idx + 1) as usize, last_advance: now, ..s }),
        s.playing && s.shown_for(now) >= s.stay() && s.idx + 1 == s.words.len() ==> s.advanced(now)
            == (State {
            playing: false,
            progress: s.progress.insert(s.pdf_path->0, (Saved { index: s.idx, wpm: s.wpm })),
            ..s
        }),
        !s.playing || s.shown_for(now) < s.stay() ==> s.advanced(now) == s,
{
}

/// Given time enough, a playing book moves on from any word but the last one:
/// whatever the moment, if the stay has passed, the next word is shown, for its
/// full time.
pub proof fn a_playing_book_moves_on(s: State, now: u128)
    requires
        s.valid(),
        s.playing,
        now >= s.last_advance + s.stay(),
    ensures
        s.idx + 1 < s.words.len() ==> s.advanced(now).idx == s.idx + 1 && s.advanced(now).playing
            && s.advanced(now).shown_for(now) == 0,
        s.idx + 1 == s.words.len() ==> !s.advanced(now).playing && s.advanced(now).idx == s.idx,
{
}

/// Whether or not the book plays, the left arrow alone goes back ten words, at
/// most to the first one, and the right arrow alone goes on ten words, at most
/// to the last one. Nothing else changes.
pub proof fn arrows_jump_ten_words(s: State, now: u128)
    requires
        s.valid(),
        s.words.len() > 0,
    ensures
        ({
            let l = s.keyed(false, true, false, now);
            let r = s.keyed(false, false, true, now);
            &&& l == (State { idx: l.idx, ..s })
            &&& l.idx == (if s.idx >= 10 {
                s.idx - 10
            } else {
                0
            })
            &&& r == (State { idx: r.idx, ..s })
            &&& r.idx == (if s.idx + 10 <= s.words.len() - 1 {
                s.idx + 10
            } else {
                s.words.len() - 1
            })
        }),
{
}

/// Both arrows go back first and on then; without a book they do nothing.
pub proof fn both_arrows_go_back_and_on(s: State, now: u128)
    requires
        s.valid(),
    ensures
        s.keyed(false, true, true, now) == s.keyed(false, true, false, now).keyed(
            false,
            false,
            true,
            now,
        ),
        s.words.len() == 0 ==> s.keyed(false, true, true, now) == s && s.keyed(
            false,
            true,
            false,
            now,
        ) == s && s.keyed(false, false, true, now) == s,
        s.keyed(false, false, false, now) == s,
{
}

/// The space bar does what the play button does, before the arrows are looked
/// at.
pub proof fn the_space_bar_toggles(s: State, left: bool, right: bool, now: u128)
    ensures
        s.keyed(true, left, right, now) == s.toggled(now).keyed(false, left, right, now),
        s.keyed(true, false, false, now) == s.toggled(now),
        s.keyed(true, left, right, now).playing == (!s.playing && s.words.len() > 0),
{
}

/// Picking a word moves the place to it, whichever it is, and gives it its full
/// time.
pub proof fn picking_moves_to_the_word(s: State, i: usize, now: u128)
    ensures
        s.picked(i, now) == (State { idx: i, last_advance: now, ..s }),
{
}

/// A point is held by a word if it lies in its rectangle, and hits it if it lies
/// in the rectangle grown by three points to each side.
pub proof fn a_word_is_hit_within_three_points(s: State, i: int, pos: Pos)
    ensures
        s.holds(i, pos) <==> s.words[i].rect.covers(pos),
        s.hits(i, pos) <==> s.words[i].rect.grown((Single { bits: 0x4040_0000 })).covers(pos),
{
}

/// A click moves to a word and gives it its full time, or changes nothing. It
/// changes nothing only if no word of the page is within three points.
pub proof fn a_click_moves_to_a_word(s: State, pos: Pos, now: u128)
    requires
        s.valid(),
        s.words.len() > 0,
    ensures
        ({
            let t = s.clicked(pos, now);
            let margin = Single { bits: 0x4040_0000 };
            let page = s.words[s.idx as int].page;
            &&& t == s || t == (State { idx: t.idx, last_advance: now, ..s })
            &&& t.idx < s.words.len() && s.words[t.idx as int].page == page
            &&& (exists|i: int|
                0 <= i < s.words.len() && (#[trigger] s.words[i]).page == page
                    && s.words[i].rect.grown(margin).covers(pos)) ==> t == (State {
                idx: t.idx,
                last_advance: now,
                ..s
            }) && s.words[t.idx as int].rect.grown(margin).covers(pos)
            &&& (forall|i: int|
                0 <= i < s.words.len() && (#[trigger] s.words[i]).page == page
                    ==> !s.words[i].rect.grown(margin).covers(pos)) ==> t == s
        }),
{
    laws::click_stays_on_the_page(s, pos, now);
    state::current_page_holds_the_word(s);
    state::current_page_holds_the_word(s.clicked(pos, now));
    laws::a_click_goes_to_the_page(s, pos);
}

/// A picture is asked for exactly if the book has the page, there is none of it
/// and none is on its way; then it is on its way, and nothing else changes.
pub proof fn pictures_are_requested_as_needed(s: State, page: usize)
    requires
        s.valid(),
    ensures
        s.wanted(page) <==> page < s.pages.len() && !s.rendered.contains(page)
            && !s.pending.contains(page) && s.words.len() > 0,
        s.wanted(page) ==> s.requested(page) == (State { pending: s.pending.insert(page), ..s }),
        !s.wanted(page) ==> s.requested(page) == s,
{
}

/// A picture that was asked for in this opening is taken in, whatever its page;
/// any other is left.
pub proof fn pictures_are_taken_in(s: State, opening: u64, page: usize)
    ensures
        opening == s.opening ==> s.delivered(opening, page) == (State {
            pending: s.pending.remove(page),
            rendered: s.rendered.insert(page),
            ..s
        }),
        opening != s.opening ==> s.delivered(opening, page) == s,
{
}

/// Showing a page asks for its picture and the next page's, as far as there are
/// such pages, and keeps all pictures while there are at most eight, and those
/// within two pages otherwise.
pub proof fn showing_a_page_keeps_it_and_the_next_ready(s: State)
    requires
        s.valid(),
        s.words.len() > 0,
    ensures
        ({
            let page = s.words[s.idx as int].page;
            let t = s.prepared();
            &&& s.page() == page
            &&& t == (State { rendered: t.rendered, pending: t.pending, ..s })
            &&& forall|p: usize|
                #[trigger] t.pending.contains(p) <==> s.pending.contains(p) || ((p == page || p
                    == page + 1) && p < s.pages.len() && !s.rendered.contains(p))
            &&& forall|p: usize|
                #[trigger] t.rendered.contains(p) <==> s.rendered.contains(p) && (s.rendered.len()
                    <= 8 || (p + 2 >= page && p <= page + 2))
        }),
{
    assert(text::trimmed(s.words[s.idx as int].text).len() > 0);
    let page = s.page();
    let a = s.requested(page);
    let b = a.requested((page + 1) as usize);
    assert(b.rendered == s.rendered);
    assert(page + 1 <= usize::MAX);
    assert forall|p: usize| #[trigger] s.prepared().pending.contains(p) <==> s.pending.contains(p)
        || ((p == page || p == page + 1) && p < s.pages.len() && !s.rendered.contains(p)) by {
        assert(s.prepared().pending == b.pending);
    }
}

/// The flowing text is of the page of the current word: from its first word up
/// to its last one, and no word of another page.
pub proof fn the_flowing_text_is_the_page(s: State)
    requires
        s.valid(),
        s.words.len() > 0,
    ensures
        ({
            let page = s.words[s.idx as int].page;
            let start = s.starts[s.current_page() - 1];
            let end = s.end_of((s.current_page() - 1) as nat);
            forall|i: int|
                0 <= i < s.words.len() ==> ((#[trigger] s.words[i]).page == page <==> start <= i
                    < end)
        }),
{
    state::current_page_holds_the_word(s);
    state::current_page_range_holds_the_word(s);
    laws::lemma_page_range(s);
}

/// Scrolling remembers the current word and changes nothing else.
pub proof fn scrolling_remembers_the_word(s: State)
    ensures
        s.scrolled() == (State { last_scrolled: s.idx, ..s }),
{
}

/// A row of the flowing text goes up to and with the first word from its
/// beginning on that ends a paragraph, or to the end of the page if none does.
pub proof fn a_row_is_a_paragraph(s: State, i: int, end: int, k: int)
    requires
        i <= k < end,
        forall|j: int| i <= j < k ==> !(#[trigger] s.words[j]).para_end,
    ensures
        s.words[k].para_end ==> s.row_end(i, end) == k + 1,
        k == end - 1 ==> s.row_end(i, end) == end,
    decreases k - i,
{
    if i < k {
        assert(!s.words[i].para_end);
        a_row_is_a_paragraph(s, i + 1, end, k);
    } else if !s.words[k].para_end && k == end - 1 {
        assert(s.row_end(end, end) == end);
    }
}

} // verus!
