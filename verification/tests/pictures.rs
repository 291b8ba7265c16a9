use rsvp_reader::label::{join, write_decimal};
use rsvp_reader::outline::{chapter_label, load_toc, Chapter, TocEntry};
use rsvp_reader::render::{decode_page, page_image, render_options, render_stem, texture_name};

#[test]
fn a_png_is_decoded() {
    let mut picture = image::RgbaImage::new(3, 2);
    for (i, p) in picture.pixels_mut().enumerate() {
        *p = image::Rgba([i as u8, 10 * i as u8, 200, 255 - i as u8]);
    }
    let raw = picture.clone().into_raw();
    let mut file = std::io::Cursor::new(Vec::new());
    picture.write_to(&mut file, image::ImageFormat::Png).unwrap();
    let page = decode_page(file.get_ref()).unwrap();
    assert_eq!((page.width, page.height), (3, 2));
    assert_eq!(page.rgba, raw);
    assert_eq!(page.rgba.len(), 4 * 3 * 2);
}

#[test]
fn a_png_without_alpha_becomes_opaque() {
    let mut picture = image::RgbImage::new(1, 2);
    picture.put_pixel(0, 0, image::Rgb([1, 2, 3]));
    picture.put_pixel(0, 1, image::Rgb([4, 5, 6]));
    let mut file = std::io::Cursor::new(Vec::new());
    picture.write_to(&mut file, image::ImageFormat::Png).unwrap();
    let page = decode_page(file.get_ref()).unwrap();
    assert_eq!((page.width, page.height), (1, 2));
    assert_eq!(page.rgba, [1, 2, 3, 255, 4, 5, 6, 255]);
}

#[test]
fn anything_else_is_no_picture() {
    assert!(decode_page(b"").is_none());
    assert!(decode_page(b"not a picture").is_none());
    assert!(decode_page(b"\x89PNG\r\n\x1a\n").is_none());
    // Pictures of other kinds, and a PNG file behind something else.
    assert!(decode_page(b"GIF89a\x01\0\x01\0\0\0\0;").is_none());
    assert!(decode_page(b"\xff\xd8\xff\xe0").is_none());
    assert!(decode_page(b" \x89PNG\r\n\x1a\n").is_none());
    assert!(page_image(None).is_none());
    let page = page_image(Some((1, 1, vec![9, 8, 7, 6]))).unwrap();
    assert_eq!((page.width, page.height, page.rgba), (1, 1, vec![9, 8, 7, 6]));
}

fn checksum(bytes: &[u8]) -> u32 {
    let mut crc = u32::MAX;
    for b in bytes {
        crc ^= *b as u32;
        for _ in 0..8 {
            crc = if crc & 1 == 1 { (crc >> 1) ^ 0xedb8_8320 } else { crc >> 1 };
        }
    }
    !crc
}

fn chunk(name: &[u8], contents: &[u8]) -> Vec<u8> {
    let mut named = name.to_vec();
    named.extend_from_slice(contents);
    let mut out = (contents.len() as u32).to_be_bytes().to_vec();
    out.extend_from_slice(&named);
    out.extend_from_slice(&checksum(&named).to_be_bytes());
    out
}

/// A file with one pixel of the given kind, and the chunks before its data.
fn tiny_png(kind: u8, pixel: &[u8], before: &[Vec<u8>]) -> Vec<u8> {
    let mut out = b"\x89PNG\r\n\x1a\n".to_vec();
    out.extend(chunk(b"IHDR", &[0, 0, 0, 1, 0, 0, 0, 1, 8, kind, 0, 0, 0]));
    for c in before {
        out.extend_from_slice(c);
    }
    // The row, stored as it is, between the marks of a compressed stream.
    let mut row = vec![0u8];
    row.extend_from_slice(pixel);
    let (mut a, mut b) = (1u32, 0u32);
    for x in &row {
        a = (a + *x as u32) % 65521;
        b = (b + a) % 65521;
    }
    let n = row.len() as u16;
    let mut data = vec![0x78, 0x01, 1];
    data.extend_from_slice(&n.to_le_bytes());
    data.extend_from_slice(&(!n).to_le_bytes());
    data.extend_from_slice(&row);
    data.extend_from_slice(&(b << 16 | a).to_be_bytes());
    out.extend(chunk(b"IDAT", &data));
    out.extend(chunk(b"IEND", &[]));
    out
}

#[test]
fn a_palette_with_half_a_colour_is_no_picture() {
    let text = || chunk(b"tEXt", b"Title\0PLTE");
    // A whole palette, alone and behind another chunk.
    for before in [vec![], vec![text()]] {
        let mut before: Vec<Vec<u8>> = before;
        before.push(chunk(b"PLTE", &[9, 8, 7, 1, 2, 3]));
        let page = decode_page(&tiny_png(3, &[1], &before)).unwrap();
        assert_eq!((page.width, page.height, page.rgba), (1, 1, vec![1, 2, 3, 255]));
    }
    // Palettes that end within a colour.
    for n in [1usize, 2, 4, 5, 7, 8, 766, 767] {
        let palette = chunk(b"PLTE", &vec![7u8; n]);
        assert!(decode_page(&tiny_png(3, &[0], &[palette.clone()])).is_none());
        assert!(decode_page(&tiny_png(3, &[0], &[text(), palette])).is_none());
    }
    // No palette at all, and one that is cut off.
    assert!(decode_page(&tiny_png(3, &[0], &[])).is_none());
    let cut = tiny_png(3, &[0], &[chunk(b"PLTE", &[1, 2, 3])]);
    assert!(decode_page(&cut[..45]).is_none());
    // A palette that the pixels do not refer to is only a suggestion.
    let page = decode_page(&tiny_png(2, &[5, 6, 7], &[chunk(b"PLTE", &[1, 2, 3, 4])])).unwrap();
    assert_eq!(page.rgba, [5, 6, 7, 255]);
    // What follows the image data is no palette.
    let mut late = tiny_png(3, &[0], &[chunk(b"PLTE", &[1, 2, 3])]);
    late.truncate(late.len() - 12);
    late.extend(chunk(b"PLTE", &[1, 2, 3, 4]));
    assert_eq!(decode_page(&late).unwrap().rgba, [1, 2, 3, 255]);
}

#[test]
fn one_page_is_rendered_at_144_dpi() {
    assert_eq!(
        render_options(0),
        ["-png", "-r", "144", "-f", "1", "-l", "1", "-singlefile"]
    );
    assert_eq!(
        render_options(1098),
        ["-png", "-r", "144", "-f", "1099", "-l", "1099", "-singlefile"]
    );
    assert_eq!(render_stem(4242, 17), "rsvp-4242-17");
    assert_eq!(render_stem(0, 0), "rsvp-0-0");
    assert_eq!(texture_name(0), "page-0");
    assert_eq!(texture_name(120), "page-120");
}

#[test]
fn numbers_are_written_out() {
    for n in (0..2000).chain([9_999, 10_000, usize::MAX - 1, usize::MAX]) {
        let s = write_decimal(n);
        assert_eq!(s, n.to_string());
        assert_eq!(s.parse::<usize>().unwrap(), n);
    }
    assert_eq!(join("a", "b"), "ab");
}

fn entry(level: usize, title: &str, page: usize) -> TocEntry {
    TocEntry { level, title: title.into(), page }
}

#[test]
fn the_outline_becomes_the_table_of_contents() {
    let toc = load_toc(Some(vec![entry(1, "One", 3), entry(2, "One, part two", 9)]));
    let flat: Vec<_> = toc.iter().map(|c| (c.level, c.title.as_str(), c.page)).collect();
    assert_eq!(flat, [(1, "One", 3), (2, "One, part two", 9)]);
    assert!(load_toc(None).is_empty());
    assert!(load_toc(Some(vec![])).is_empty());
}

#[test]
fn chapters_are_indented_by_their_level() {
    let label = |level: usize| chapter_label(&Chapter { level, title: "T".into(), page: 1 });
    assert_eq!(label(0), "T");
    assert_eq!(label(1), "T");
    assert_eq!(label(2), "    T");
    assert_eq!(label(4), "            T");
}
