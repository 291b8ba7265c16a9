use eframe::egui;
use rsvp_reader::extract::PageInfo;
use rsvp_reader::geometry::{Pos, Rect};
use rsvp_reader::pace::{self, delay_for, orp_index};
use rsvp_reader::extract::{self, Word};
use rsvp_reader::single::Single;
use rsvp_reader::state;
use rsvp_reader::view::{self, anchor, fit_page, ticks, PageView};

fn s(x: f32) -> Single {
    Single::from_bits(x.to_bits())
}

fn pos(p: egui::Pos2) -> Pos {
    Pos { x: s(p.x), y: s(p.y) }
}

fn rect(r: egui::Rect) -> Rect {
    Rect { min: pos(r.min), max: pos(r.max) }
}

/// Pseudorandom coordinates as they occur on pages and screens.
fn numbers(n: usize) -> Vec<f32> {
    let mut x: u64 = 4711;
    (0..n)
        .map(|_| {
            x = x.wrapping_mul(6364136223846793005).wrapping_add(1442695040888963407);
            ((x >> 40) as f32) / 7919.0 - 300.0
        })
        .collect()
}

#[test]
fn constants_are_the_nearest_numbers() {
    let c = [
        (pace::RECOGNITION_SHARE, 0.35f32),
        (pace::MINUTE, 60_000.0),
        (pace::PLAIN, 1.0),
        (pace::LONG, 1.4),
        (pace::CLAUSE, 1.5),
        (pace::SENTENCE, 2.0),
        (pace::PARAGRAPH, 2.5),
        (pace::SLOWEST, 100.0),
        (pace::FASTEST, 1000.0),
        (extract::PARAGRAPH_GAP, 1.8),
        (state::FIRST_WPM, 300.0),
        (state::CLICK_MARGIN, 3.0),
        (view::ANCHOR_SHARE, 0.45),
        (view::TICK_FAR, 60.0),
        (view::TICK_NEAR, 44.0),
        (view::HIGHLIGHT_MARGIN, 2.0),
    ];
    for (bits, x) in c {
        assert_eq!(bits, x.to_bits(), "{}", x);
    }
}

#[test]
fn rectangles_agree_with_the_toolkit() {
    let v = numbers(4000);
    for c in v.chunks(7) {
        if let [a, b, d, e, k, x, y] = *c {
            let r = egui::Rect::from_min_max(egui::pos2(a, b), egui::pos2(d, e));
            let ours = rect(r);
            assert_eq!(ours.width(), s(r.width()));
            assert_eq!(ours.height(), s(r.height()));
            assert_eq!(ours.center(), pos(r.center()));
            assert_eq!(ours.expand(s(k)), rect(r.expand(k)));
            assert_eq!(ours.contains(Pos { x: s(x), y: s(y) }), r.contains(egui::pos2(x, y)));
            assert_eq!(
                Rect::from_center_size(Pos { x: s(a), y: s(b) }, Pos { x: s(d), y: s(e) }),
                rect(egui::Rect::from_center_size(egui::pos2(a, b), egui::vec2(d, e)))
            );
        }
    }
    let r = rect(egui::Rect::from_min_max(egui::pos2(0.0, 0.0), egui::pos2(10.0, 10.0)));
    for p in [(0.0, 0.0), (10.0, 10.0), (5.0, 5.0)] {
        let p = Pos { x: s(p.0), y: s(p.1) };
        assert!(r.contains(p));
        assert!(r.expand(s(3.0)).contains(p));
    }
    assert!(!r.contains(Pos { x: s(f32::NAN), y: s(1.0) }));
    assert!(!r.contains(Pos { x: s(10.1), y: s(1.0) }));
}

#[test]
fn the_page_is_as_large_as_the_room_lets_it_be() {
    let v = numbers(2000);
    for c in v.chunks(6) {
        if let [a, b, d, e, w, h] = *c {
            let avail = egui::Rect::from_min_max(egui::pos2(a, b), egui::pos2(d, e));
            let scale = (avail.width() / w).min(avail.height() / h);
            let size = egui::vec2(w * scale, h * scale);
            let img = egui::Rect::from_center_size(avail.center(), size);
            let ours = fit_page(rect(avail), PageInfo { width: s(w), height: s(h) });
            assert_eq!(ours, PageView { rect: rect(img), scale: s(scale) });
            let r = egui::Rect::from_min_max(egui::pos2(w, a), egui::pos2(h, b));
            let hl = egui::Rect::from_min_max(
                img.min + r.min.to_vec2() * scale,
                img.min + r.max.to_vec2() * scale,
            )
            .expand(2.0 * scale);
            assert_eq!(ours.highlight(rect(r)), rect(hl));
            let p = egui::pos2((d - img.min.x) / scale, (e - img.min.y) / scale);
            assert_eq!(ours.page_point(Pos { x: s(d), y: s(e) }), pos(p));
        }
    }
    let room = rect(egui::Rect::from_min_max(egui::pos2(0.0, 0.0), egui::pos2(1224.0, 792.0)));
    let page = fit_page(room, PageInfo { width: s(612.0), height: s(792.0) });
    assert_eq!(page.scale, s(1.0));
    assert_eq!(page.rect.min, Pos { x: s(306.0), y: s(0.0) });
    assert_eq!(page.rect.max, Pos { x: s(918.0), y: s(792.0) });
}

#[test]
fn the_fixed_point_and_its_ticks() {
    let v = numbers(1000);
    for c in v.chunks(4) {
        if let [a, b, d, e] = *c {
            let r = egui::Rect::from_min_max(egui::pos2(a, b), egui::pos2(d, e));
            let p = egui::pos2(r.left() + r.width() * 0.45, r.center().y);
            assert_eq!(anchor(rect(r)), pos(p));
            let ((t0, t1), (t2, t3)) = ticks(pos(p));
            assert_eq!(t0, pos(p - egui::vec2(0.0, 60.0)));
            assert_eq!(t1, pos(p - egui::vec2(0.0, 44.0)));
            assert_eq!(t2, pos(p + egui::vec2(0.0, 44.0)));
            assert_eq!(t3, pos(p + egui::vec2(0.0, 60.0)));
        }
    }
    let r = rect(egui::Rect::from_min_max(egui::pos2(0.0, 0.0), egui::pos2(100.0, 50.0)));
    assert_eq!(anchor(r), Pos { x: s(45.0), y: s(25.0) });
}

#[test]
fn the_letter_to_look_at_is_inside_and_nearest() {
    assert_eq!(orp_index(0), 0);
    for len in 1..5000usize {
        let at = orp_index(len);
        assert!(at < len);
        assert_eq!(at, (35 * (len - 1) + 50) / 100);
        assert_eq!(at, ((len as f32 - 1.0) * 0.35).round() as usize);
    }
    let mut len: usize = 5000;
    while len < usize::MAX / 3 {
        assert_eq!(orp_index(len), ((len as f32 - 1.0) * 0.35).round() as usize);
        assert!(orp_index(len) < len);
        len = len * 2 + 1;
    }
    assert!(orp_index(usize::MAX) < usize::MAX);
    // A longer word never has an earlier letter.
    for len in (0..3000usize).chain(5_991_000..5_993_000) {
        assert!(orp_index(len) <= orp_index(len + 1));
    }
    // The last length before the product is rounded across a half, and that length.
    assert_eq!(orp_index(5_991_867), 2_097_153);
    assert_eq!((35 * 5_991_866 + 50) / 100, 2_097_153);
    assert_eq!(orp_index(5_991_868), 2_097_154);
    assert_eq!((35u64 * 5_991_867 + 50) / 100, 2_097_153);
}

fn word(text: &str, para_end: bool) -> Word {
    let zero = Pos { x: s(0.0), y: s(0.0) };
    Word { text: text.into(), para_end, page: 0, rect: Rect { min: zero, max: zero } }
}

#[test]
fn stays_at_three_hundred_words_a_minute() {
    let at = |t: &str, p: bool| delay_for(&word(t, p), s(300.0));
    assert_eq!(at("word", false), 200);
    assert_eq!(at("eightlet", false), 200);
    assert_eq!(at("nineletts", false), 280);
    assert_eq!(at("nineletté", false), 280);
    for t in [",", ";", ":", "word,", "nineletters;"] {
        assert_eq!(at(t, false), 300);
    }
    for t in [".", "!", "?", "word!", "nineletters."] {
        assert_eq!(at(t, false), 400);
    }
    for t in ["word", "word,", "word.", "nineletters"] {
        assert_eq!(at(t, true), 500);
    }
}

#[test]
fn stays_agree_with_the_formula() {
    for wpm in (100..=1000).step_by(25) {
        let w = wpm as f32;
        let base = 60_000.0 / w;
        let cases = [("word", false, 1.0f32), ("nineletters", false, 1.4), ("a,", false, 1.5), ("a.", false, 2.0), ("a", true, 2.5)];
        let mut before = 0;
        for (t, p, m) in cases {
            let ms = delay_for(&word(t, p), s(w));
            assert_eq!(ms, (base * m) as u64);
            assert!(ms > before);
            before = ms;
        }
    }
    // Paces that only a damaged file can hold.
    assert_eq!(delay_for(&word("a", false), s(0.0)), u64::MAX);
    assert_eq!(delay_for(&word("a", false), s(-5.0)), 0);
    assert_eq!(delay_for(&word("a", false), s(f32::NAN)), 0);
    assert_eq!(delay_for(&word("a", false), s(f32::INFINITY)), 0);
    assert_eq!(delay_for(&word("a", false), s(1e-30)), u64::MAX);
}

#[test]
fn a_faster_pace_never_stays_longer() {
    let mut before = u64::MAX;
    for wpm in 1..3000u32 {
        let ms = delay_for(&word("nineletters", false), s(wpm as f32));
        assert!(ms <= before);
        before = ms;
    }
}

#[test]
fn stays_at_whole_paces() {
    let tenths = [("word", false, 10u64), ("a,", false, 15), ("a.", false, 20), ("a", true, 25)];
    for n in 100..=1000u64 {
        for (t, p, x) in tenths {
            assert_eq!(delay_for(&word(t, p), s(n as f32)), 6000 * x / n);
        }
        let expected = if n == 875 { 95 } else { 84_000 / n };
        assert_eq!(delay_for(&word("nineletters", false), s(n as f32)), expected);
    }
}
