use rsvp_reader::extract::Word;
use rsvp_reader::geometry::{Pos, Rect};
use rsvp_reader::pace::{delay_for, orp_index};
use rsvp_reader::single::Single;
use rsvp_reader::xml::{xml_attr, xml_unescape};

fn single(x: f32) -> Single {
    Single::from_bits(x.to_bits())
}

#[test]
fn orp_lands_about_a_third_in() {
    assert_eq!(orp_index(1), 0);
    assert_eq!(orp_index(4), 1);
    assert_eq!(orp_index(9), 3);
}

#[test]
fn delays_scale_with_punctuation_and_paragraphs() {
    let zero = Pos { x: single(0.0), y: single(0.0) };
    let w = |t: &str, p: bool| Word { text: t.into(), para_end: p, page: 0, rect: Rect { min: zero, max: zero } };
    let base = delay_for(&w("word", false), single(300.0));
    assert_eq!(base, 200);
    assert!(delay_for(&w("word,", false), single(300.0)) > base);
    assert!(delay_for(&w("word.", false), single(300.0)) > delay_for(&w("word,", false), single(300.0)));
    assert!(delay_for(&w("word", true), single(300.0)) > delay_for(&w("word.", false), single(300.0)));
    assert!(delay_for(&w("supercalifragilistic", false), single(300.0)) > base);
}

#[test]
fn xml_word_line_parses() {
    assert_eq!(xml_attr(r#"xMin="226.04" yMin="103.8""#, "yMin=\""), Some(single(103.8)));
    assert_eq!(xml_unescape("a&amp;b&#39;s"), "a&b's");
}
