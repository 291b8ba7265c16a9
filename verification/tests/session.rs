use rsvp_reader::extract::ToolRun;
use rsvp_reader::geometry::{Pos, Rect};
use rsvp_reader::outline::Chapter;
use rsvp_reader::progress::{Progress, Saved};
use rsvp_reader::reader::{App, Screen, Tone};
use rsvp_reader::single::Single;
use rsvp_reader::state::Mode;
use rsvp_reader::view::PageView;

const MS: u128 = 1_000_000;

fn s(x: f32) -> Single {
    Single::from_bits(x.to_bits())
}

fn at(x: f32, y: f32) -> Pos {
    Pos { x: s(x), y: s(y) }
}

/// A book with the given number of words on each page, ten points apart, each
/// page one line, the paragraphs ending with the pages.
fn book(pages: &[usize]) -> ToolRun {
    let mut out = String::new();
    let mut n = 0;
    for &count in pages {
        out.push_str("<page width=\"600\" height=\"800\">\n");
        for i in 0..count {
            out.push_str(&format!(
                "<word xMin=\"{}\" yMin=\"100\" xMax=\"{}\" yMax=\"112\">word{}</word>\n",
                20 * i,
                20 * i + 10,
                n
            ));
            n += 1;
        }
    }
    ToolRun::Finished { success: true, stdout: out.into_bytes(), stderr: Vec::new() }
}

fn opened(pages: &[usize]) -> App {
    let mut app = App::load(Progress::new(), 0);
    assert!(app.open_pdf("book.pdf".into(), &book(pages)));
    app
}

fn note(app: &App, path: &str) -> Option<Saved> {
    app.progress().get(&path.to_string())
}

#[test]
fn a_new_reader_waits_for_a_book() {
    let mut app = App::load(Progress::new(), 5);
    assert_eq!(app.screen(), Screen::Hint);
    assert_eq!(app.play_label(), "Play");
    assert_eq!(app.wpm(), s(300.0));
    assert_eq!(app.mode(), Mode::Pdf);
    assert_eq!((app.idx(), app.word_count(), app.page_count()), (0, 0, 0));
    assert_eq!(app.current_page(), 1);
    // Without a book nothing plays and no arrow moves anything.
    assert!(app.toggle_play(9));
    assert!(!app.playing());
    assert!(!app.press_keys(false, true, true, 9));
    assert!(!app.advance(u128::MAX));
    app.goto_page(3, 9);
    assert_eq!(app.idx(), 0);
    assert!(!app.request_page(0));
    assert!(app.progress().entries().is_empty());
    assert!(app.pdf_path().is_none() && app.error().is_none() && app.toc().is_empty());
}

#[test]
fn playing_shows_each_word_for_its_time() {
    let mut app = opened(&[2, 1]);
    assert_eq!(app.screen(), Screen::Book(Mode::Pdf));
    assert!(!app.toggle_play(1000 * MS));
    assert_eq!(app.play_label(), "Pause");
    // "word0" is plain: 200 ms at 300 words a minute.
    assert_eq!(app.wake_after(1000 * MS), 200 * MS);
    assert!(!app.advance(1199 * MS));
    assert_eq!(app.idx(), 0);
    assert_eq!(app.wake_after(1199 * MS), MS);
    assert!(!app.advance(1200 * MS));
    assert_eq!(app.idx(), 1);
    // "word1" ends a paragraph: 500 ms. A clock that steps back changes nothing.
    assert_eq!(app.wake_after(1100 * MS), 500 * MS);
    assert!(!app.advance(1100 * MS));
    assert!(!app.advance(1700 * MS));
    assert_eq!(app.idx(), 2);
    assert_eq!(app.wake_after(9000 * MS), 0);
    // Behind the last word playing stops and the position is noted.
    assert!(app.advance(2200 * MS));
    assert!(!app.playing());
    assert_eq!(app.idx(), 2);
    assert_eq!(note(&app, "book.pdf"), Some(Saved { index: 2, wpm: s(300.0) }));
    assert!(!app.advance(9000 * MS));
}

#[test]
fn a_book_is_resumed_where_it_was_left() {
    let mut app = opened(&[30, 30]);
    app.seek(41);
    app.set_wpm(s(475.0));
    app.save_progress();
    assert!(app.open_pdf("other.pdf".into(), &book(&[5])));
    // A book never seen opens at its first word, at the pace there is.
    assert_eq!((app.idx(), app.wpm()), (0, s(475.0)));
    app.set_wpm(s(200.0));
    app.save_progress();
    assert!(app.open_pdf("book.pdf".into(), &book(&[30, 30])));
    assert_eq!((app.idx(), app.wpm()), (41, s(475.0)));
    // In another session, from the stored notes.
    let mut stored = Progress::new();
    for (path, saved) in app.progress().entries() {
        stored.insert(path.clone(), *saved);
    }
    let mut next = App::load(stored, 77);
    assert!(next.open_pdf("book.pdf".into(), &book(&[30, 30])));
    assert_eq!((next.idx(), next.wpm()), (41, s(475.0)));
    // The book has become shorter.
    assert!(next.open_pdf("book.pdf".into(), &book(&[30])));
    assert_eq!(next.idx(), 29);
    assert!(next.open_pdf("other.pdf".into(), &book(&[5])));
    assert_eq!((next.idx(), next.wpm()), (0, s(200.0)));
}

#[test]
fn pausing_notes_the_position() {
    let mut app = opened(&[30]);
    assert!(!app.toggle_play(0));
    assert_eq!(note(&app, "book.pdf"), None);
    app.seek(7);
    assert!(app.toggle_play(0));
    assert_eq!(note(&app, "book.pdf"), Some(Saved { index: 7, wpm: s(300.0) }));
    assert!(!app.toggle_play(5));
    assert_eq!((app.idx(), app.playing()), (7, true));
}

#[test]
fn a_book_that_cannot_be_read_leaves_none() {
    let mut app = opened(&[30]);
    app.seek(3);
    app.save_progress();
    app.toggle_play(0);
    app.set_toc(vec![Chapter { level: 1, title: "One".into(), page: 1 }]);
    assert!(!app.open_pdf("scan.pdf".into(), &book(&[0])));
    assert_eq!(app.screen(), Screen::Error);
    assert_eq!(
        app.error().as_deref(),
        Some("No extractable text — is this a scanned/image-only PDF?")
    );
    assert_eq!((app.idx(), app.word_count(), app.playing()), (0, 0, false));
    assert!(app.toc().is_empty() && app.pdf_path().is_none());
    app.save_progress();
    assert_eq!(app.progress().entries().len(), 1);
    assert_eq!(note(&app, "book.pdf"), Some(Saved { index: 3, wpm: s(300.0) }));
    assert!(!app.open_pdf("scan.pdf".into(), &ToolRun::Missing));
    assert_eq!(
        app.error().as_deref(),
        Some("pdftotext not found — install poppler: brew install poppler")
    );
    assert!(app.open_pdf("book.pdf".into(), &book(&[30])));
    assert_eq!((app.idx(), app.error().is_none()), (3, true));
}

#[test]
fn arrows_jump_ten_words_within_the_book() {
    let mut app = opened(&[25]);
    app.press_keys(false, false, true, 0);
    assert_eq!(app.idx(), 10);
    app.press_keys(false, false, true, 0);
    assert_eq!(app.idx(), 20);
    app.press_keys(false, false, true, 0);
    assert_eq!(app.idx(), 24);
    app.press_keys(false, true, false, 0);
    assert_eq!(app.idx(), 14);
    // Both at once cancel where there is room.
    app.press_keys(false, true, true, 0);
    assert_eq!(app.idx(), 14);
    app.press_keys(false, true, false, 0);
    app.press_keys(false, true, false, 0);
    assert_eq!(app.idx(), 0);
    app.press_keys(false, true, true, 0);
    assert_eq!(app.idx(), 10);
    assert!(!app.press_keys(true, false, false, 0));
    assert!(app.playing());
    assert!(app.press_keys(true, true, false, 0));
    assert_eq!(note(&app, "book.pdf"), Some(Saved { index: 10, wpm: s(300.0) }));
    assert_eq!(app.idx(), 0);
}

#[test]
fn pages_are_found() {
    // The second and the last page have no words.
    let mut app = opened(&[3, 0, 4, 0]);
    assert_eq!(app.page_count(), 3);
    let mut pages = Vec::new();
    for i in 0..app.word_count() {
        app.seek(i);
        pages.push(app.current_page());
    }
    assert_eq!(pages, [1, 1, 1, 3, 3, 3, 3]);
    app.goto_page(3, 9);
    assert_eq!(app.idx(), 3);
    app.goto_page(1, 9);
    assert_eq!(app.idx(), 0);
    app.goto_page(2, 9);
    assert_eq!((app.idx(), app.current_page()), (3, 3));
    app.goto_page(4, 9);
    assert_eq!(app.idx(), 0);
    app.seek(5);
    app.goto_page(0, 9);
    assert_eq!(app.idx(), 0);
    app.seek(5);
    app.goto_page(usize::MAX, 9);
    assert_eq!(app.idx(), 0);
}

#[test]
fn pictures_are_asked_for_once_each() {
    let mut app = opened(&[1, 1, 1]);
    assert_eq!(app.prepare_page(), (0, true, true));
    assert_eq!(app.prepare_page(), (0, false, false));
    assert!(app.receive_page(app.opening(), 0));
    assert!(app.is_rendered(0) && !app.is_rendered(1));
    assert_eq!(app.prepare_page(), (0, false, false));
    app.seek(1);
    assert_eq!(app.prepare_page(), (1, false, true));
    app.seek(2);
    // There is no page behind the last one.
    assert_eq!(app.prepare_page(), (2, false, false));
    assert!(!app.request_page(3));
    // A new book starts without pictures.
    assert!(app.open_pdf("other.pdf".into(), &book(&[1, 1])));
    assert!(!app.is_rendered(0));
    assert_eq!(app.prepare_page(), (0, true, true));
}

#[test]
fn far_pictures_are_dropped() {
    let mut app = opened(&[1; 20]);
    for page in 0..8 {
        assert!(app.receive_page(app.opening(), page));
    }
    app.seek(7);
    app.prepare_page();
    assert!((0..8).all(|p| app.is_rendered(p)));
    assert!(app.receive_page(app.opening(), 8));
    assert!(app.receive_page(app.opening(), 10));
    app.seek(8);
    app.prepare_page();
    let left: Vec<usize> = (0..20).filter(|&p| app.is_rendered(p)).collect();
    assert_eq!(left, [6, 7, 8, 10]);
    // A page that was dropped can be asked for again.
    app.seek(0);
    assert_eq!(app.prepare_page(), (0, true, true));
}

#[test]
fn a_click_goes_to_the_word_under_it() {
    let mut app = opened(&[3, 3]);
    app.seek(4);
    let avail = Rect { min: at(0.0, 0.0), max: at(1200.0, 1600.0) };
    let view = app.page_view(avail);
    assert_eq!(view, PageView { rect: avail, scale: s(2.0) });
    // The third word of the page measures 40 to 50 by 100 to 112.
    app.click(view, at(90.0, 210.0), 3);
    assert_eq!(app.idx(), 5);
    // Between two words, within three points of the first one.
    app.click(view, at(26.0, 210.0), 3);
    assert_eq!(app.idx(), 3);
    // Nowhere near a word.
    app.click(view, at(1000.0, 1000.0), 3);
    assert_eq!(app.idx(), 3);
    assert_eq!(
        app.highlight(view),
        Rect { min: at(-4.0, 196.0), max: at(24.0, 228.0) }
    );
    app.seek(0);
    app.click(view, at(30.0, 210.0), 3);
    assert_eq!(app.idx(), 0);
    app.pick_word(1, 8 * MS);
    assert_eq!((app.idx(), app.wake_after(8 * MS)), (1, 200 * MS));
}

#[test]
fn the_flowing_text_is_scrolled_once_for_each_move() {
    let mut app = opened(&[3, 0, 2]);
    let page = app.reader_page();
    assert_eq!((page.start, page.end, page.scroll), (0, 3, true));
    assert!(!app.reader_page().scroll);
    app.seek(4);
    let page = app.reader_page();
    assert_eq!((page.start, page.end, page.scroll), (3, 5, true));
    assert!(!app.reader_page().scroll);
    assert_eq!(app.tone(3), Tone::Read);
    assert_eq!(app.tone(4), Tone::Current);
    app.seek(3);
    assert_eq!(app.tone(4), Tone::Unread);
}

#[test]
fn rows_end_with_paragraphs() {
    let line = |y: usize, t: &str| {
        format!("<word xMin=\"1\" yMin=\"{}\" xMax=\"9\" yMax=\"{}\">{}</word>\n", y, y + 10, t)
    };
    let out = format!(
        "<page width=\"600\" height=\"800\">\n{}{}{}{}{}",
        line(10, "a"),
        line(10, "b"),
        line(50, "c"),
        line(90, "d"),
        line(90, "e")
    );
    let run = ToolRun::Finished { success: true, stdout: out.into_bytes(), stderr: Vec::new() };
    let mut app = App::load(Progress::new(), 0);
    assert!(app.open_pdf("rows.pdf".into(), &run));
    let page = app.reader_page();
    let mut rows = Vec::new();
    let mut i = page.start;
    while i < page.end {
        let next = app.row_end(i, page.end);
        rows.push((i..next).map(|k| app.word(k).text.clone()).collect::<Vec<_>>().join(" "));
        i = next;
    }
    assert_eq!(rows, ["a b", "c", "d e"]);
    assert_eq!(app.row_end(3, 4), 4);
}

#[test]
fn a_word_is_parted_at_the_letter_to_look_at() {
    let parts = |t: &str| {
        let out = format!(
            "<page width=\"1\" height=\"1\">\n<word xMin=\"1\" yMin=\"1\" xMax=\"9\" yMax=\"9\">{}</word>\n",
            t
        );
        let run = ToolRun::Finished { success: true, stdout: out.into_bytes(), stderr: Vec::new() };
        let mut app = App::load(Progress::new(), 0);
        assert!(app.open_pdf("one.pdf".into(), &run));
        app.focus_parts()
    };
    let p = |a: &str, b: &str, c: &str| (a.to_string(), b.to_string(), c.to_string());
    assert_eq!(parts("I"), p("", "I", ""));
    assert_eq!(parts("read"), p("r", "e", "ad"));
    assert_eq!(parts("éàüöñ"), p("é", "à", "üöñ"));
    assert_eq!(parts("attention"), p("att", "e", "ntion"));
}

#[test]
fn labels_and_modes() {
    let mut app = opened(&[12]);
    assert_eq!(app.position_label(), "1 / 12");
    app.seek(11);
    assert_eq!(app.position_label(), "12 / 12");
    for mode in [Mode::Reader, Mode::Focus, Mode::Pdf] {
        app.set_mode(mode);
        assert_eq!(app.screen(), Screen::Book(mode));
        assert_eq!((app.mode(), app.idx()), (mode, 11));
    }
    app.set_toc(vec![Chapter { level: 2, title: "Two".into(), page: 5 }]);
    assert_eq!(app.toc()[0].title, "Two");
    assert_eq!(app.pdf_path().as_deref(), Some("book.pdf"));
}

#[test]
fn notes_hold_each_path_once() {
    let mut notes = Progress::new();
    let a = Saved { index: 1, wpm: s(100.0) };
    let b = Saved { index: 2, wpm: s(200.0) };
    assert_eq!(notes.get(&"x".to_string()), None);
    notes.insert("x".into(), a);
    notes.insert("y".into(), a);
    notes.insert("x".into(), b);
    assert_eq!(notes.get(&"x".to_string()), Some(b));
    assert_eq!(notes.get(&"y".to_string()), Some(a));
    assert_eq!(notes.get(&"z".to_string()), None);
    assert_eq!(notes.entries().len(), 2);
}

/// A page with a word in each of the given ranges, all on one line.
fn line(ranges: &[(f32, f32)]) -> ToolRun {
    let mut out = String::from("<page width=\"600\" height=\"800\">\n");
    for (a, b) in ranges {
        out.push_str(&format!(
            "<word xMin=\"{}\" yMin=\"0\" xMax=\"{}\" yMax=\"10\">w</word>\n",
            a, b
        ));
    }
    ToolRun::Finished { success: true, stdout: out.into_bytes(), stderr: Vec::new() }
}

#[test]
fn a_click_inside_a_word_never_goes_to_a_neighbour() {
    let mut app = App::load(Progress::new(), 0);
    assert!(app.open_pdf("close.pdf".into(), &line(&[(0.0, 10.0), (12.0, 20.0), (19.0, 30.0)])));
    let view = PageView {
        rect: Rect { min: at(0.0, 0.0), max: at(600.0, 800.0) },
        scale: s(1.0),
    };
    let mut click = |from: usize, x: f32, y: f32| {
        app.seek(from);
        app.click(view, at(x, y), 1);
        app.idx()
    };
    // In the second word only, though within three points of the first one.
    assert_eq!(click(1, 12.0, 5.0), 1);
    assert_eq!(click(0, 12.5, 5.0), 1);
    assert_eq!(click(2, 10.0, 5.0), 0);
    // In the overlap of the last two.
    assert_eq!(click(0, 19.5, 5.0), 1);
    assert_eq!(click(0, 20.5, 5.0), 2);
    // In none: the first one close by.
    assert_eq!(click(2, 11.0, 5.0), 0);
    assert_eq!(click(0, 14.0, 12.0), 1);
    assert_eq!(click(0, 32.0, 5.0), 2);
    assert_eq!(click(1, 40.0, 5.0), 1);
}

#[test]
fn pictures_of_a_book_opened_before_are_left() {
    let mut app = opened(&[1, 1, 1]);
    let first = app.opening();
    assert_eq!(app.prepare_page(), (0, true, true));
    assert!(app.open_pdf("other.pdf".into(), &book(&[1, 1])));
    assert_ne!(app.opening(), first);
    // The picture of the first book comes late.
    assert!(!app.receive_page(first, 0));
    assert!(!app.is_rendered(0));
    assert_eq!(app.prepare_page(), (0, true, true));
    assert!(!app.receive_page(first, 1));
    assert!(app.receive_page(app.opening(), 0));
    assert!(app.is_rendered(0) && !app.is_rendered(1));
    // The same file, opened again, may have changed.
    let second = app.opening();
    assert!(app.open_pdf("other.pdf".into(), &book(&[1, 1])));
    assert!(!app.receive_page(second, 1) && !app.receive_page(first, 1));
    assert!(!app.is_rendered(0) && !app.is_rendered(1));
    // So after a book that could not be read.
    let third = app.opening();
    assert!(!app.open_pdf("scan.pdf".into(), &book(&[0])));
    assert!(!app.receive_page(third, 0));
    assert!(!app.is_rendered(0));
}

#[test]
fn the_pace_is_held_to_those_on_offer() {
    let mut app = opened(&[3]);
    let mut set = |x: f32| {
        app.set_wpm(s(x));
        f32::from_bits(app.wpm().to_bits())
    };
    for x in [100.0, 125.0, 300.0, 333.3, 999.9, 1000.0] {
        assert_eq!(set(x), x);
    }
    for x in [99.9, 0.0, -0.0, -300.0, f32::NEG_INFINITY] {
        assert_eq!(set(x), 100.0);
    }
    for x in [1000.1, 5000.0, f32::MAX, f32::INFINITY] {
        assert_eq!(set(x), 1000.0);
    }
    assert!(set(f32::NAN).is_nan());
}
