use rsvp_reader::extract::{extract_bbox, extract_pdf, failure, page_starts, words_of, ToolRun, Word};
use rsvp_reader::geometry::{Pos, Rect};
use rsvp_reader::single::Single;
use rsvp_reader::text;
use rsvp_reader::xml::{xml_attr, xml_unescape};

const NO_TEXT: &str = "No extractable text — is this a scanned/image-only PDF?";

fn single(x: f32) -> Single {
    Single::from_bits(x.to_bits())
}

fn finished(stdout: &[u8]) -> ToolRun {
    ToolRun::Finished { success: true, stdout: stdout.to_vec(), stderr: Vec::new() }
}

fn texts(words: &[Word]) -> Vec<&str> {
    words.iter().map(|w| w.text.as_str()).collect()
}

const BOOK: &str = "<!DOCTYPE html PUBLIC \"-//W3C//DTD XHTML 1.0 Transitional//EN\">
<html xmlns=\"http://www.w3.org/1999/xhtml\">
<head>
<title>A book</title>
</head>
<body>
<doc>
  <page width=\"612.000000\" height=\"792.000000\">
    <word xMin=\"72.000000\" yMin=\"100.000000\" xMax=\"110.500000\" yMax=\"112.000000\">Tom</word>
    <word xMin=\"114.000000\" yMin=\"100.000000\" xMax=\"150.250000\" yMax=\"112.000000\">&amp;</word>
    <word xMin=\"154.000000\" yMin=\"100.000000\" xMax=\"190.000000\" yMax=\"112.000000\">Jerry&#39;s</word>
    <word xMin=\"72.000000\" yMin=\"114.000000\" xMax=\"110.000000\" yMax=\"126.000000\">line.</word>
    <word xMin=\"72.000000\" yMin=\"150.000000\" xMax=\"110.000000\" yMax=\"162.000000\">New</word>
  </page>
  <page width=\"612.000000\" height=\"792.000000\">
  </page>
  <page width=\"595.280000\" height=\"841.890000\">
    <word xMin=\"72.000000\" yMin=\"72.000000\" xMax=\"99.000000\" yMax=\"84.000000\">page</word>
    <word xMin=\"100.000000\" yMin=\"72.000000\" xMax=\"120.000000\" yMax=\"84.000000\">&lt;end&gt;</word>
  </page>
  <page width=\"612.000000\" height=\"792.000000\">
  </page>
</doc>
</body>
</html>
";

#[test]
fn a_printed_book_is_read() {
    let (words, starts, pages) = extract_pdf(&finished(BOOK.as_bytes())).unwrap();
    assert_eq!(texts(&words), ["Tom", "&", "Jerry's", "line.", "New", "page", "<end>"]);
    assert_eq!(words.iter().map(|w| w.page).collect::<Vec<_>>(), [0, 0, 0, 0, 0, 2, 2]);
    assert_eq!(
        words.iter().map(|w| w.para_end).collect::<Vec<_>>(),
        [false, false, false, true, true, false, true]
    );
    assert_eq!(starts, [0, 5, 5]);
    assert_eq!(pages.len(), 4);
    assert_eq!(pages[2].width, single(595.28));
    assert_eq!(pages[2].height, single(841.89));
    assert_eq!(
        words[1].rect,
        Rect {
            min: Pos { x: single(114.0), y: single(100.0) },
            max: Pos { x: single(150.25), y: single(112.0) },
        }
    );
}

#[test]
fn a_missing_tool_is_told() {
    let e = extract_bbox(&ToolRun::Missing).unwrap_err();
    assert_eq!(e, "pdftotext not found — install poppler: brew install poppler");
    assert!(extract_pdf(&ToolRun::Missing).is_err());
}

#[test]
fn a_failed_run_is_told_with_its_message() {
    let run = ToolRun::Finished {
        success: false,
        stdout: BOOK.as_bytes().to_vec(),
        stderr: b" \tSyntax Error: Couldn't find trailer\r\n".to_vec(),
    };
    assert_eq!(
        extract_bbox(&run).unwrap_err(),
        "pdftotext failed: Syntax Error: Couldn't find trailer"
    );
    assert_eq!(failure("\u{3000}x y\u{a0}"), "pdftotext failed: x y");
    assert_eq!(failure(""), "pdftotext failed: ");
}

#[test]
fn a_document_without_words_is_told() {
    assert_eq!(words_of("").unwrap_err(), NO_TEXT);
    assert_eq!(words_of("<page width=\"1\" height=\"1\">\n</page>").unwrap_err(), NO_TEXT);
    assert_eq!(extract_bbox(&finished(b"")).unwrap_err(), NO_TEXT);
}

fn word_line(text: &str) -> String {
    format!("<word xMin=\"1\" yMin=\"2\" xMax=\"3\" yMax=\"4\">{}</word>\n", text)
}

#[test]
fn lines_that_say_nothing_are_passed_over() {
    let page = "<page width=\"612\" height=\"792\">\n";
    // A word before the first page, a blank word, and words without all their bounds.
    let xml = format!(
        "{}{}{}{}<word xMin=\"1\" yMin=\"2\" xMax=\"3\">a</word>\n<word xMin=\"x\" yMin=\"2\" xMax=\"3\" yMax=\"4\">b</word>\n{}",
        word_line("early"),
        page,
        word_line(" "),
        word_line("\u{2003}"),
        word_line("kept")
    );
    let (words, pages) = words_of(&xml).unwrap();
    assert_eq!(texts(&words), ["kept"]);
    assert_eq!(pages.len(), 1);
    // A page without a size is no page.
    let xml = format!("<page width=\"612\">\n{}", word_line("lost"));
    assert_eq!(words_of(&xml).unwrap_err(), NO_TEXT);
    let xml = format!("{}<page height=\"792\">\n{}", page, word_line("kept"));
    let (words, pages) = words_of(&xml).unwrap();
    assert_eq!((words[0].page, pages.len()), (0, 1));
    // A tag without text.
    assert_eq!(words_of(&format!("{}<word xMin=\"1\" yMin=\"2\" xMax=\"3\" yMax=\"4\"", page)).unwrap_err(), NO_TEXT);
}

#[test]
fn lines_may_end_as_on_windows_and_be_indented() {
    let xml = format!("\t <page width=\"612\" height=\"792\">\r\n   {}", word_line("a").replace('\n', "\r\n"));
    let (words, _) = words_of(&xml).unwrap();
    assert_eq!(texts(&words), ["a"]);
}

#[test]
fn text_that_is_not_utf8_is_replaced() {
    let mut bytes = b"<page width=\"612\" height=\"792\">\n".to_vec();
    bytes.extend_from_slice(b"<word xMin=\"1\" yMin=\"2\" xMax=\"3\" yMax=\"4\">caf\xe9</word>\n");
    let (words, _) = extract_bbox(&finished(&bytes)).unwrap();
    assert_eq!(texts(&words), ["caf\u{fffd}"]);
    let run = ToolRun::Finished { success: false, stdout: Vec::new(), stderr: vec![0xff, b'!'] };
    assert_eq!(extract_bbox(&run).unwrap_err(), "pdftotext failed: \u{fffd}!");
}

#[test]
fn a_gap_of_more_than_about_two_lines_ends_a_paragraph() {
    let line = |y: f32| {
        format!("<word xMin=\"1\" yMin=\"{}\" xMax=\"3\" yMax=\"{}\">w</word>\n", y, y + 10.0)
    };
    let two = |gap: f32| {
        let xml = format!("<page width=\"612\" height=\"792\">\n{}{}", line(100.0), line(100.0 + gap));
        let (words, _) = words_of(&xml).unwrap();
        (words[0].para_end, words[1].para_end)
    };
    assert_eq!(two(12.0), (false, true));
    assert_eq!(two(18.0), (1.8f32 * 10.0 < 18.0, true));
    assert_eq!(two(18.5), (true, true));
    assert_eq!(two(-50.0), (false, true));
}

#[test]
fn pages_without_words_start_at_the_next_word() {
    let zero = Pos { x: single(0.0), y: single(0.0) };
    let w = |page: usize| Word {
        text: "w".into(),
        para_end: false,
        page,
        rect: Rect { min: zero, max: zero },
    };
    assert_eq!(page_starts(&vec![]), Vec::<usize>::new());
    assert_eq!(page_starts(&vec![w(0)]), [0]);
    assert_eq!(page_starts(&vec![w(2), w(2), w(5)]), [0, 0, 0, 2, 2, 2]);
    assert_eq!(page_starts(&vec![w(0), w(1), w(1), w(2)]), [0, 1, 3]);
}

#[test]
fn attributes_are_found_where_they_first_stand() {
    let s = "xMin=\"226.04\" yMin=\"103.8\" xMin=\"7\"";
    assert_eq!(xml_attr(s, "xMin=\""), Some(single(226.04)));
    assert_eq!(xml_attr(s, "xMax=\""), None);
    assert_eq!(xml_attr("a=\"\"", "a=\""), None);
    assert_eq!(xml_attr("a=\"1", "a=\""), Some(single(1.0)));
    assert_eq!(xml_attr("a=\" 1\"", "a=\""), None);
    assert_eq!(xml_attr("12\"", ""), Some(single(12.0)));
}

fn escape(s: &str, apostrophe: &str) -> String {
    s.chars()
        .map(|c| match c {
            '&' => "&amp;".to_string(),
            '<' => "&lt;".to_string(),
            '>' => "&gt;".to_string(),
            '"' => "&quot;".to_string(),
            '\'' => apostrophe.to_string(),
            c => c.to_string(),
        })
        .collect()
}

#[test]
fn entities_are_resolved() {
    assert_eq!(xml_unescape("&lt;&gt;&quot;&#39;&apos;&amp;"), "<>\"''&");
    assert_eq!(xml_unescape("&amp;lt;"), "&lt;");
    assert_eq!(xml_unescape("&am&amp;p;"), "&am&p;");
    assert_eq!(xml_unescape("&unknown; & é"), "&unknown; & é");
    assert_eq!(xml_unescape(""), "");
    for s in ["a&b's", "&amp;", "<&lt;>\"'", "&&&;", "plain", "'&apos;'"] {
        assert_eq!(xml_unescape(&escape(s, "&#39;")), s);
        assert_eq!(xml_unescape(&escape(s, "&apos;")), s);
    }
    assert_eq!(xml_unescape("&#39;a&apos;&amp;#39;&#39;"), "'a'&#39;'");
}

#[test]
fn whitespace_is_what_the_standard_says() {
    for c in '\0'..=char::MAX {
        assert_eq!(text::is_whitespace(c), c.is_whitespace(), "{:?}", c);
    }
}

#[test]
fn trimming_and_cutting() {
    let v = |s: &str| s.chars().collect::<Vec<char>>();
    assert_eq!(text::trim(&v(" \t a b\u{85} ")), v("a b"));
    assert_eq!(text::trim(&v(" \n ")), v(""));
    assert_eq!(text::part_before(&v("a>b>c"), '>'), v("a"));
    assert_eq!(text::part_after(&v("a>b>c"), '>').unwrap(), v("b>c"));
    assert!(text::part_after(&v("abc"), '>').is_none());
    assert_eq!(text::find(&v("abcabc"), &v("ca")), Some(2));
    assert_eq!(text::find(&v("abc"), &v("")), Some(0));
    assert_eq!(text::find(&v("abc"), &v("cb")), None);
    assert_eq!(text::replace(&v("aaa"), &v("aa"), &v("b")), v("ba"));
}

#[test]
fn numbers_written_to_attributes_are_read_back() {
    let back = |x: f32, key: &str, rest: &str| {
        let shortest = format!("{}{}\"{}", key, x, rest);
        assert_eq!(xml_attr(&shortest, key), Some(single(x)), "{}", shortest);
        let full = format!("{}{:.149}\"{}", key, x, rest);
        assert_eq!(xml_attr(&full, key), Some(single(x)), "{}", full);
    };
    for x in [
        0.0, -0.0, 1.0, -1.0, 0.1, 103.8, 612.0, 16_777_216.0, f32::MIN_POSITIVE, f32::MAX, f32::MIN,
        f32::from_bits(1), f32::from_bits(0x8000_0001), f32::from_bits(0x007f_ffff), 1.0e10, 1.0e-10,
    ] {
        back(x, "xMin=\"", " yMin=\"7\"");
        back(x, "", "");
        back(x, "\"\"", "xMin=");
        back(x, "1", "\"");
    }
    let mut n: u64 = 17;
    for _ in 0..300 {
        n = n.wrapping_mul(6364136223846793005).wrapping_add(1442695040888963407);
        let x = f32::from_bits((n >> 32) as u32);
        if x.is_finite() {
            back(x, "yMax=\"", ">word</word>");
        }
    }
}
