//! What holds of the reader whatever happens to it: the place is kept within
//! the book, what is noted is found again, and the pages asked for are those
//! about to be read.
use crate::extract;
use crate::extract::ToolRun;
use crate::geometry;
use crate::geometry::Pos;
use crate::progress::Saved;
use crate::single::Single;
use crate::state;
use crate::state::{State, CLICK_MARGIN, JUMP, KEPT};
use crate::text;
use vstd::prelude::*;

verus! {

/// The reader starts in order.
pub proof fn starting_is_valid(progress: Map<Seq<char>, Saved>, now: u128)
    ensures
        State::initial(progress, now).valid(),
{
    let s = State::initial(progress, now);
    assert(s.starts =~= state::machine_starts(s.words));
}

/// Opening a book keeps the reader in order, whatever the extraction came to.
pub proof fn opening_keeps_order(s: State, path: Seq<char>, run: ToolRun)
    requires
        s.valid(),
        extract::extraction(run) matches Ok((words, pages)) ==> words.len() <= usize::MAX
            && pages.len() <= usize::MAX,
    ensures
        s.opened(path, run).valid(),
{
    extract::extraction_is_well_placed(run);
    let t = s.opened(path, run);
    if extract::extraction(run) is Err {
        assert(t.starts =~= state::machine_starts(t.words));
    }
}

/// Whether two readers have the same book open, or fail at the same one.
pub open spec fn same_book(s: State, t: State) -> bool {
    &&& s.words == t.words
    &&& s.starts == t.starts
    &&& s.pages == t.pages
    &&& s.toc == t.toc
    &&& s.pdf_path == t.pdf_path
    &&& s.error == t.error
    &&& s.opening == t.opening
}

/// Everything else that happens keeps the reader in order too, and the book
/// open that is open.
pub proof fn events_keep_order(
    s: State,
    page: usize,
    pos: Pos,
    space: bool,
    left: bool,
    right: bool,
    now: u128,
    opening: u64,
)
    requires
        s.valid(),
    ensures
        s.saved().valid(),
        s.turned_to(page, now).valid(),
        s.toggled(now).valid(),
        s.advanced(now).valid(),
        s.keyed(space, left, right, now).valid(),
        s.requested(page).valid(),
        s.delivered(opening, page).valid(),
        s.scrolled().valid(),
        s.words.len() > 0 ==> s.prepared().valid() && s.clicked(pos, now).valid(),
        same_book(s, s.saved()),
        same_book(s, s.turned_to(page, now)),
        same_book(s, s.toggled(now)),
        same_book(s, s.advanced(now)),
        same_book(s, s.keyed(space, left, right, now)),
        same_book(s, s.requested(page)),
        same_book(s, s.delivered(opening, page)),
        same_book(s, s.scrolled()),
        same_book(s, s.prepared()),
        same_book(s, s.clicked(pos, now)),
{
    if s.words.len() > 0 {
        click_stays_on_the_page(s, pos, now);
    }
}

/// Noting the position changes the note on the open book and nothing else.
pub proof fn saving_notes_the_position(s: State, path: Seq<char>)
    requires
        s.pdf_path == Some(path),
    ensures
        s.saved().progress.dom().contains(path),
        s.saved().progress[path] == (Saved { index: s.idx, wpm: s.wpm }),
        forall|other: Seq<char>|
            other != path ==> (#[trigger] s.saved().progress.dom().contains(other)
                <==> s.progress.dom().contains(other)) && s.saved().progress[other]
                == s.progress[other],
        s.saved() == (State { progress: s.saved().progress, ..s }),
{
}

/// A note on a book that is not open stays as it is, whatever happens.
pub proof fn other_notes_stay(
    s: State,
    other: Seq<char>,
    path: Seq<char>,
    run: ToolRun,
    page: usize,
    pos: Pos,
    space: bool,
    left: bool,
    right: bool,
    now: u128,
    opening: u64,
)
    requires
        s.progress.dom().contains(other),
        s.pdf_path != Some(other),
    ensures
        ({
            let kept = |t: State|
                t.progress.dom().contains(other) && t.progress[other] == s.progress[other];
            &&& kept(s.saved())
            &&& kept(s.opened(path, run))
            &&& kept(s.turned_to(page, now))
            &&& kept(s.toggled(now))
            &&& kept(s.advanced(now))
            &&& kept(s.keyed(space, left, right, now))
            &&& kept(s.requested(page))
            &&& kept(s.delivered(opening, page))
            &&& kept(s.prepared())
            &&& kept(s.clicked(pos, now))
            &&& kept(s.scrolled())
        }),
{
}

/// A book is resumed where it was left: whatever reader opens it with the note
/// made on it, the place and the pace are the noted ones, unless the book has
/// become too short for the place, which is then its last word.
pub proof fn reopening_resumes(s: State, t: State, path: Seq<char>, run: ToolRun)
    requires
        s.valid(),
        s.pdf_path == Some(path),
        t.progress.dom().contains(path),
        t.progress[path] == s.saved().progress[path],
        extract::extraction(run) is Ok,
    ensures
        ({
            let words = extract::extraction(run)->Ok_0.0;
            let r = t.opened(path, run);
            &&& r.words == words
            &&& r.wpm == s.wpm
            &&& words == s.words ==> r.idx == s.idx
            &&& r.idx == (if s.idx < words.len() {
                s.idx as int
            } else {
                words.len() - 1
            })
            &&& !r.playing
            &&& r.pdf_path == Some(path)
        }),
{
    extract::extraction_is_well_placed(run);
    let r = t.opened(path, run);
    let words = extract::extraction(run)->Ok_0.0;
    if s.idx >= words.len() {
        assert(words.len() - 1 <= usize::MAX);
    }
}

/// A book that was never noted opens at its first word, at the pace there is.
pub proof fn a_new_book_opens_at_its_start(s: State, path: Seq<char>, run: ToolRun)
    requires
        !s.progress.dom().contains(path),
        extract::extraction(run) is Ok,
    ensures
        s.opened(path, run).idx == 0,
        s.opened(path, run).wpm == s.wpm,
        s.opened(path, run).error is None,
{
}

/// A book that cannot be read leaves the reader without one and says why; and
/// no opening touches the notes.
pub proof fn a_failed_opening_leaves_no_book(s: State, path: Seq<char>, run: ToolRun)
    ensures
        s.opened(path, run).progress == s.progress,
        extract::extraction(run) matches Err(message) ==> {
            let t = s.opened(path, run);
            &&& t.words.len() == 0
            &&& t.pdf_path is None
            &&& t.error == Some(message)
            &&& !t.playing
            &&& t.saved() == t
        },
{
}

/// Pausing notes the position, as the end of the book does.
pub proof fn stopping_notes_the_position(s: State, path: Seq<char>, now: u128)
    requires
        s.valid(),
        s.pdf_path == Some(path),
        s.playing,
    ensures
        !s.toggled(now).playing,
        s.toggled(now).progress == s.saved().progress,
        !s.advanced(now).playing ==> s.advanced(now).progress == s.saved().progress,
{
}

/// Pausing and playing on does not move the place.
pub proof fn pausing_keeps_the_place(s: State, now: u128, later: u128)
    requires
        s.valid(),
        s.words.len() > 0,
    ensures
        s.toggled(now).idx == s.idx,
        s.toggled(now).playing == !s.playing,
        s.toggled(now).toggled(later).idx == s.idx,
        s.toggled(now).toggled(later).playing == s.playing,
{
}

/// Nothing plays without a book.
pub proof fn nothing_plays_without_a_book(s: State, now: u128)
    requires
        s.valid(),
        s.words.len() == 0,
    ensures
        !s.toggled(now).playing,
        s.advanced(now) == s,
{
}

/// Time moves the place by at most one word, forward, and never past the last
/// one, where playing ends.
pub proof fn time_moves_one_word(s: State, now: u128)
    requires
        s.valid(),
    ensures
        s.advanced(now).idx == s.idx || s.advanced(now).idx == s.idx + 1,
        s.advanced(now).idx == s.idx + 1 ==> s.advanced(now).playing
            && s.advanced(now).shown_for(now) == 0,
        s.playing && !s.advanced(now).playing ==> s.idx + 1 == s.words.len(),
        !s.due(now) ==> s.advanced(now) == s,
{
}

/// A word makes way exactly when the rest of its stay has passed.
pub proof fn the_rest_of_the_stay_is_enough(s: State, now: u128, later: u128)
    requires
        s.playing,
        s.last_advance <= now <= later,
    ensures
        s.due(later) <==> s.shown_for(now) + (later - now) >= s.stay(),
{
}

/// The right arrow takes back what the left one did where ten words lie
/// before the place, and the left one what the right one did where ten lie
/// behind it.
pub proof fn arrows_undo_each_other(s: State)
    requires
        s.valid(),
        s.words.len() > 0,
    ensures
        s.idx >= JUMP ==> s.stepped_back().stepped_on() == s,
        s.idx + JUMP < s.words.len() ==> s.stepped_on().stepped_back() == s,
        s.stepped_back().idx <= s.idx <= s.stepped_on().idx < s.words.len(),
{
}

/// Turning to a page of the book goes to the first word that is on it or on a
/// later page: to a word of that page if it has any.
pub proof fn turning_finds_the_page(s: State, page: usize, now: u128)
    requires
        s.valid(),
        s.words.len() > 0,
        1 <= page <= s.starts.len(),
    ensures
        ({
            let t = s.turned_to(page, now);
            &&& t.valid()
            &&& t.words[t.idx as int].page >= page - 1
            &&& t.current_page() >= page
            &&& forall|i: int| 0 <= i < t.idx ==> #[trigger] t.words[i].page < page - 1
            &&& (exists|i: int|
                0 <= i < s.words.len() && #[trigger] s.words[i].page == page - 1)
                ==> t.current_page() == page
        }),
{
    let t = s.turned_to(page, now);
    state::lemma_starts(s);
    extract::lemma_first_on(s.words, (page - 1) as nat);
    let k = s.starts[page - 1];
    assert(t.idx == k);
    state::current_page_holds_the_word(t);
    if exists|i: int| 0 <= i < s.words.len() && #[trigger] s.words[i].page == page - 1 {
        let i = choose|i: int| 0 <= i < s.words.len() && #[trigger] s.words[i].page == page - 1;
        if i < k {
            assert(s.words[i].page < page - 1);
        }
        assert(s.words[k as int].page <= s.words[i].page);
    }
}

/// Turning to page zero, or to a page behind the last one with a word, goes to
/// the first word of the book.
pub proof fn turning_outside_goes_to_the_start(s: State, page: usize, now: u128)
    requires
        s.valid(),
        s.words.len() > 0,
        page == 0 || page > s.starts.len(),
    ensures
        s.turned_to(page, now).idx == 0,
{
    state::lemma_starts(s);
}

/// Turning to the page that is shown goes to its first word.
pub proof fn turning_to_the_current_page(s: State, now: u128)
    requires
        s.valid(),
        s.words.len() > 0,
    ensures
        ({
            let t = s.turned_to(s.current_page() as usize, now);
            t.current_page() == s.current_page() && t.idx <= s.idx
        }),
{
    state::current_page_holds_the_word(s);
    state::current_page_range_holds_the_word(s);
    state::lemma_starts(s);
    well_known_page(s);
    let page = s.current_page() as usize;
    assert(s.words[s.idx as int].page == page - 1);
    turning_finds_the_page(s, page, now);
}

/// A click on the page goes to a word of that page which it hits, or nowhere.
pub proof fn click_stays_on_the_page(s: State, pos: Pos, now: u128)
    requires
        s.valid(),
        s.words.len() > 0,
    ensures
        ({
            let t = s.clicked(pos, now);
            &&& t.valid()
            &&& t.current_page() == s.current_page()
            &&& t.idx != s.idx ==> s.hits(t.idx as int, pos)
            &&& s.word_at(pos) is None ==> t == s
        }),
{
    state::current_page_holds_the_word(s);
    state::current_page_range_holds_the_word(s);
    let start = s.starts[s.page() as int] as int;
    let end = s.end_of(s.page() as nat) as int;
    well_known_page(s);
    state::lemma_first_hit(s, start, end, pos);
    let t = s.clicked(pos, now);
    if let Some(i) = s.word_at(pos) {
        assert(s.words[i].page == s.words[s.idx as int].page);
        if s.holds(i, pos) {
            geometry::growing_keeps_what_is_covered(
                s.words[i].rect,
                Single { bits: CLICK_MARGIN },
                pos,
            );
        }
        state::current_page_holds_the_word(t);
    }
}

/// A click inside a word of the page goes to that word: to the first of them if
/// words overlap there, and to none that does not hold the point, however close.
pub proof fn a_click_inside_a_word_finds_it(s: State, i: int, pos: Pos, now: u128)
    requires
        s.valid(),
        s.words.len() > 0,
        0 <= i < s.words.len(),
        s.words[i].page == s.words[s.idx as int].page,
        s.words[i].rect.covers(pos),
    ensures
        s.word_at(pos) matches Some(k) && 0 <= k <= i && s.words[k].rect.covers(pos)
            && s.words[k].page == s.words[i].page && s.clicked(pos, now).idx == k,
        (forall|j: int|
            0 <= j < s.words.len() && j != i && s.words[j].page == s.words[i].page
                ==> !(#[trigger] s.words[j]).rect.covers(pos)) ==> s.word_at(pos) == Some(i)
            && s.clicked(pos, now).idx == i,
{
    let page = s.words[i].page;
    well_known_page(s);
    let (start, end) = page_range(s, i);
    state::lemma_first_hit(s, start, end, pos);
    assert(s.holds(i, pos));
    let k = s.word_at(pos)->0;
    assert(start <= k < end && s.holds(k, pos));
    assert(s.words[k].page == page);
}

/// A click that no word of the page holds goes to the first word of the page
/// close to it.
pub proof fn a_click_beside_a_word_finds_it(s: State, i: int, pos: Pos, now: u128)
    requires
        s.valid(),
        s.words.len() > 0,
        0 <= i < s.words.len(),
        s.words[i].page == s.words[s.idx as int].page,
        s.hits(i, pos),
        forall|j: int|
            0 <= j < s.words.len() && s.words[j].page == s.words[i].page ==> !(
            #[trigger] s.words[j]).rect.covers(pos),
        forall|j: int|
            0 <= j < i && (#[trigger] s.words[j]).page == s.words[i].page ==> !s.hits(j, pos),
    ensures
        s.word_at(pos) == Some(i),
        s.clicked(pos, now).idx == i,
{
    well_known_page(s);
    let (start, end) = page_range(s, i);
    state::lemma_first_hit(s, start, end, pos);
    if let Some(k) = s.first_hit(start, end, pos, false) {
        assert(s.words[k].page == s.words[i].page);
    }
    let k = s.word_at(pos)->0;
    assert(s.words[k].page == s.words[i].page);
}

/// No word outside its range is on the current page.
pub proof fn lemma_page_range(s: State)
    requires
        s.valid(),
        s.words.len() > 0,
    ensures
        forall|i: int|
            0 <= i < s.words.len() && (#[trigger] s.words[i]).page == s.words[s.idx as int].page
                ==> s.starts[s.current_page() - 1] <= i < s.end_of(
                (s.current_page() - 1) as nat,
            ),
{
    state::current_page_holds_the_word(s);
    well_known_page(s);
    assert forall|i: int|
        0 <= i < s.words.len() && (#[trigger] s.words[i]).page == s.words[s.idx as int].page implies
        s.starts[s.current_page() - 1] <= i < s.end_of((s.current_page() - 1) as nat) by {
        let r = page_range(s, i);
    }
}

/// A click close to a word of the page finds a word.
pub proof fn a_click_goes_to_the_page(s: State, pos: Pos)
    requires
        s.valid(),
        s.words.len() > 0,
    ensures
        ({
            let page = s.words[s.idx as int].page;
            (exists|i: int|
                0 <= i < s.words.len() && (#[trigger] s.words[i]).page == page && s.hits(i, pos))
                <==> s.word_at(pos) is Some
        }),
        s.word_at(pos) matches Some(k) ==> 0 <= k < s.words.len() && s.hits(k, pos)
            && s.words[k].page == s.words[s.idx as int].page,
{
    well_known_page(s);
    let page = s.words[s.idx as int].page;
    let (start, end) = page_range(s, s.idx as int);
    state::lemma_first_hit(s, start, end, pos);
    assert forall|i: int| 0 <= i < s.words.len() && s.holds(i, pos) implies #[trigger] s.hits(
        i,
        pos,
    ) by {
        geometry::growing_keeps_what_is_covered(
            s.words[i].rect,
            Single { bits: CLICK_MARGIN },
            pos,
        );
    }
    if exists|i: int|
        0 <= i < s.words.len() && (#[trigger] s.words[i]).page == page && s.hits(i, pos) {
        let i = choose|i: int|
            0 <= i < s.words.len() && (#[trigger] s.words[i]).page == page && s.hits(i, pos);
        let r = page_range(s, i);
    }
    if let Some(k) = s.word_at(pos) {
        assert(s.words[k].page == page);
    }
}

/// The words of the current page lie between its start and its end.
proof fn page_range(s: State, i: int) -> (r: (int, int))
    requires
        s.valid(),
        0 <= i < s.words.len(),
        s.words[i].page == s.words[s.idx as int].page,
    ensures
        r.0 == s.starts[s.page() as int],
        r.1 == s.end_of(s.page() as nat),
        0 <= r.0 <= i < r.1 <= s.words.len(),
        forall|k: int| r.0 <= k < r.1 ==> #[trigger] s.words[k].page == s.words[i].page,
{
    let page = s.words[i].page;
    well_known_page(s);
    state::lemma_starts(s);
    state::current_page_holds_the_word(s);
    state::current_page_range_holds_the_word(s);
    extract::lemma_first_on(s.words, page);
    extract::lemma_first_on(s.words, page + 1);
    let start = s.starts[page as int] as int;
    let end = s.end_of(page) as int;
    if i < start {
        assert(s.words[i].page < page);
    }
    if page + 1 < s.starts.len() && i >= end {
        assert(s.words[end].page <= s.words[i].page);
    }
    (start, end)
}

/// The page of the current word is one of the book.
proof fn well_known_page(s: State)
    requires
        s.valid(),
        s.words.len() > 0,
    ensures
        s.page() == s.words[s.idx as int].page,
        s.page() < s.pages.len(),
{
    assert(text::trimmed(s.words[s.idx as int].text).len() > 0);
}

/// No picture is asked for twice, nor one of a page that the book lacks, nor
/// one that is there; and one that has come is not asked for again.
pub proof fn pictures_are_asked_for_once(s: State, page: usize)
    ensures
        !s.requested(page).wanted(page),
        !s.delivered(s.opening, page).wanted(page),
        s.wanted(page) ==> page < s.pages.len() && !s.rendered.contains(page)
            && !s.pending.contains(page),
        s.wanted(page) ==> s.requested(page).pending == s.pending.insert(page),
        !s.wanted(page) ==> s.requested(page) == s,
{
}

/// Whether `t` follows `s`: by an opening, or by something that opens nothing.
pub open spec fn follows(s: State, t: State) -> bool {
    t.opening == s.opening || t.opening == state::next_opening(s.opening)
}

/// Whether each of the states follows the one before it.
pub open spec fn in_sequence(states: Seq<State>) -> bool {
    forall|i: int, j: int|
        0 <= i && j == i + 1 && j < states.len() ==> follows(
            #[trigger] states[i],
            #[trigger] states[j],
        )
}

/// How many openings there are in a sequence of states.
pub open spec fn openings(states: Seq<State>) -> nat
    decreases states.len(),
{
    if states.len() <= 1 {
        0
    } else if states.last().opening == states.drop_last().last().opening {
        openings(states.drop_last())
    } else {
        openings(states.drop_last()) + 1
    }
}

/// The openings are counted by their numbers.
proof fn lemma_openings(states: Seq<State>)
    requires
        states.len() > 0,
        in_sequence(states),
        openings(states) <= u64::MAX,
    ensures
        ({
            let n = states[0].opening + openings(states);
            states.last().opening == (if n <= u64::MAX {
                n
            } else {
                n - 0x1_0000_0000_0000_0000
            })
        }),
    decreases states.len(),
{
    if states.len() > 1 {
        let before = states.drop_last();
        let last = states.len() - 1;
        assert(in_sequence(before)) by {
            assert forall|i: int, j: int| 0 <= i && j == i + 1 && j < before.len() implies follows(
                #[trigger] before[i],
                #[trigger] before[j],
            ) by {
                assert(follows(states[i], states[j]));
            }
        }
        lemma_openings(before);
        assert(follows(states[last - 1], states[last]));
        assert(before.last() == states[last - 1]);
    }
}

/// A picture that was asked for before another book was opened, or the same
/// one again, is left when it comes: only pictures of the open book are taken
/// in. Every opening has a number of its own until they begin anew.
pub proof fn pictures_of_earlier_books_are_left(states: Seq<State>, page: usize)
    requires
        states.len() > 0,
        in_sequence(states),
        0 < openings(states) <= u64::MAX,
    ensures
        states.last().delivered(states[0].opening, page) == states.last(),
{
    lemma_openings(states);
}

/// Opening a book leaves no picture of the one before, and none that was asked
/// for before is taken in.
pub proof fn opening_leaves_no_picture(s: State, path: Seq<char>, run: ToolRun, page: usize)
    ensures
        ({
            let t = s.opened(path, run);
            &&& !t.rendered.contains(page)
            &&& t.opening == state::next_opening(s.opening)
            &&& t.delivered(s.opening, page) == t
        }),
{
}

/// When a page is shown, its picture and the next page's are there or on
/// their way, and dropping far pictures does not touch them.
pub proof fn this_page_and_the_next_are_on_their_way(s: State)
    requires
        s.valid(),
        s.words.len() > 0,
    ensures
        ({
            let t = s.prepared();
            let page = s.page();
            let next = (page + 1) as usize;
            &&& t.rendered.contains(page) || t.pending.contains(page)
            &&& next < s.pages.len() ==> t.rendered.contains(next) || t.pending.contains(next)
            &&& s.rendered.contains(page) ==> t.rendered.contains(page)
            &&& s.rendered.contains(next) && page + 1 <= usize::MAX ==> t.rendered.contains(next)
        }),
{
    well_known_page(s);
}

/// When a page is shown, few pictures are kept.
pub proof fn few_pictures_are_kept(s: State)
    requires
        s.valid(),
    ensures
        s.prepared().rendered.finite(),
        s.prepared().rendered.len() <= KEPT,
{
    let page = s.page();
    let t = s.requested(page).requested((page + 1) as usize);
    assert(t.rendered == s.rendered);
    if s.rendered.len() > KEPT {
        let near = set![
            (page - 2) as usize,
            (page - 1) as usize,
            page,
            (page + 1) as usize,
            (page + 2) as usize,
        ];
        let kept = s.prepared().rendered;
        assert(kept.subset_of(near));
        vstd::set_lib::lemma_len_subset(kept, near);
        lemma_five(
            (page - 2) as usize,
            (page - 1) as usize,
            page,
            (page + 1) as usize,
            (page + 2) as usize,
        );
    }
}

/// A set of five has at most five members.
proof fn lemma_five(a: usize, b: usize, c: usize, d: usize, e: usize)
    ensures
        set![a, b, c, d, e].finite(),
        set![a, b, c, d, e].len() <= 5,
{
}

/// The flowing text is scrolled once for each move.
pub proof fn scrolling_happens_once(s: State)
    ensures
        s.scrolled().idx == s.scrolled().last_scrolled,
        s.scrolled().idx == s.idx,
{
}

/// What is shown of the book changes neither the place nor the notes.
pub proof fn showing_changes_nothing_that_is_kept(s: State, opening: u64, page: usize)
    ensures
        s.prepared() == (State {
            rendered: s.prepared().rendered,
            pending: s.prepared().pending,
            ..s
        }),
        s.delivered(opening, page) == (State {
            rendered: s.delivered(opening, page).rendered,
            pending: s.delivered(opening, page).pending,
            ..s
        }),
        s.scrolled() == (State { last_scrolled: s.idx, ..s }),
{
}

} // verus!
