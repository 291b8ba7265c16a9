//! Pictures of pages: what to ask of `pdftoppm`, and what its files hold.
use crate::label;
use vstd::prelude::*;
use vstd::string::*;

verus! {

/// The picture of a page, four bytes to a pixel, row by row.
#[derive(Debug)]
pub struct PageImage {
    pub width: usize,
    pub height: usize,
    pub rgba: Vec<u8>,
}

/// What went wrong when a picture was decoded.
#[verifier::external_type_specification]
#[verifier::external_body]
pub struct ExImageError(image::ImageError);

/// The number that four bytes of `bytes` from `at` on write, the highest first.
pub open spec fn number_at(bytes: Seq<u8>, at: int) -> int {
    bytes[at] * 0x100_0000 + bytes[at + 1] * 0x1_0000 + bytes[at + 2] * 0x100 + bytes[at + 3]
}

/// The name of a palette chunk, `PLTE`, as a number.
pub const PALETTE: u32 = 0x504c_5445;

/// The name of an image data chunk, `IDAT`, as a number.
pub const IMAGE_DATA: u32 = 0x4944_4154;

/// Whether every palette chunk of a PNG file, from the chunk at `at` up to the
/// first one with image data, is made of whole colours, three bytes each. A
/// chunk is its length, its name, its contents and a checksum.
pub open spec fn whole_palette(bytes: Seq<u8>, at: int) -> bool
    decreases bytes.len() - at,
{
    if at < 0 || at + 8 > bytes.len() {
        true
    } else {
        let length = number_at(bytes, at);
        let name = number_at(bytes, at + 4);
        if name == IMAGE_DATA {
            true
        } else if name == PALETTE && length % 3 != 0 {
            false
        } else if at + 12 + length > bytes.len() {
            true
        } else {
            whole_palette(bytes, at + 12 + length)
        }
    }
}

/// Whether the palette of a PNG file, if its pixels are indices into one, is
/// made of whole colours. The kind of its pixels is the byte at 25, and the
/// first chunk begins at 8.
pub open spec fn sound_palette(bytes: Seq<u8>) -> bool {
    bytes.len() > 25 && bytes[25] == 3 ==> whole_palette(bytes, 8)
}

/// The width, the height and the red, green, blue and alpha bytes of the
/// picture that `image::load_from_memory_with_format`, told that it is a PNG
/// file, and `to_rgba8` make of `bytes`, if they make one.
pub uninterp spec fn decoded(bytes: Seq<u8>) -> Option<(u32, u32, Seq<u8>)>;

/// Calls `image::load_from_memory_with_format` for a PNG file and, on what it
/// returns, `DynamicImage::to_rgba8`. A picture has four bytes for each pixel.
/// A palette that the pixels refer to has to be made of whole colours: on
/// another one the decoder panics.
#[verifier::external_body]
fn decode_rgba(bytes: &[u8]) -> (r: Result<(u32, u32, Vec<u8>), image::ImageError>)
    requires
        sound_palette(bytes@),
    ensures
        match decoded(bytes@) {
            Some((w, h, rgba)) => r matches Ok(x) && x.0 == w && x.1 == h && x.2@ == rgba,
            None => r is Err,
        },
        r matches Ok(x) ==> x.2@.len() == 4 * (x.0 * x.1),
{
    let picture = image::load_from_memory_with_format(bytes, image::ImageFormat::Png)?.to_rgba8();
    Ok((picture.width(), picture.height(), picture.into_raw()))
}

/// The number that four bytes from `at` on write, the highest first.
fn read_number(bytes: &[u8], at: usize) -> (r: u32)
    requires
        at + 4 <= bytes@.len(),
    ensures
        r == number_at(bytes@, at as int),
{
    bytes[at] as u32 * 0x100_0000 + bytes[at + 1] as u32 * 0x1_0000 + bytes[at + 2] as u32 * 0x100
        + bytes[at + 3] as u32
}

/// Whether the palette, if the pixels are indices into one, is made of whole
/// colours.
fn has_sound_palette(bytes: &[u8]) -> (r: bool)
    ensures
        r == sound_palette(bytes@),
{
    let len: usize = bytes.len();
    if len <= 25 || bytes[25] != 3 {
        return true;
    }
    let mut at: usize = 8;
    while len - at >= 8
        invariant
            len == bytes@.len(),
            at <= len,
            whole_palette(bytes@, 8) == whole_palette(bytes@, at as int),
            len > 25,
            bytes@[25] == 3,
        decreases len - at,
    {
        let length = read_number(bytes, at);
        let name = read_number(bytes, at + 4);
        if name == IMAGE_DATA {
            return true;
        }
        if name == PALETTE && length % 3 != 0 {
            return false;
        }
        if length as u64 + 12 > (len - at) as u64 {
            return true;
        }
        at = at + 12 + length as usize;
    }
    true
}

/// The picture of a page with the given size and bytes, if there is one.
pub fn page_image(decoded: Option<(u32, u32, Vec<u8>)>) -> (r: Option<PageImage>)
    ensures
        match decoded {
            Some((w, h, rgba)) => r matches Some(x) && x.width == w && x.height == h && x.rgba
                == rgba,
            None => r is None,
        },
{
    match decoded {
        Some((width, height, rgba)) => Some(
            PageImage { width: width as usize, height: height as usize, rgba },
        ),
        None => None,
    }
}

/// The picture that the file of a rendered page holds, if it holds one. A file
/// whose pixels refer to a palette with half a colour holds none.
pub fn decode_page(bytes: &[u8]) -> (r: Option<PageImage>)
    ensures
        sound_palette(bytes@) ==> match decoded(bytes@) {
            Some((w, h, rgba)) => r matches Some(x) && x.width == w && x.height == h && x.rgba@
                == rgba,
            None => r is None,
        },
        !sound_palette(bytes@) ==> r is None,
        r matches Some(x) ==> x.rgba@.len() == 4 * (x.width * x.height),
{
    if !has_sound_palette(bytes) {
        return None;
    }
    match decode_rgba(bytes) {
        Ok(picture) => page_image(Some(picture)),
        Err(_) => None,
    }
}

/// The options that make `pdftoppm` render the page with index `page` alone,
/// at 144 dots an inch, to one PNG file.
pub open spec fn options(page: nat) -> Seq<Seq<char>> {
    let n = label::written(page + 1);
    seq!["-png"@, "-r"@, "144"@, "-f"@, n, "-l"@, n, "-singlefile"@]
}

/// The options for rendering the page with index `page`.
pub fn render_options(page: usize) -> (r: Vec<String>)
    requires
        page < usize::MAX,
    ensures
        r@.map_values(|s: String| s@) == options(page as nat),
{
    let n = label::write_decimal(page + 1);
    let mut r: Vec<String> = Vec::new();
    r.push("-png".to_string());
    r.push("-r".to_string());
    r.push("144".to_string());
    r.push("-f".to_string());
    r.push(n.clone());
    r.push("-l".to_string());
    r.push(n);
    r.push("-singlefile".to_string());
    assert(r@.map_values(|s: String| s@) =~= options(page as nat));
    r
}

/// The name of the file, without its extension, that process `process`
/// renders the page with index `page` to.
pub fn render_stem(process: u32, page: usize) -> (r: String)
    ensures
        r@ == "rsvp-"@ + label::written(process as nat) + "-"@ + label::written(page as nat),
{
    let a = label::join("rsvp-", label::write_decimal(process as usize).as_str());
    let b = label::join(a.as_str(), "-");
    label::join(b.as_str(), label::write_decimal(page).as_str())
}

/// The name of the picture of the page with index `page`.
pub fn texture_name(page: usize) -> (r: String)
    ensures
        r@ == "page-"@ + label::written(page as nat),
{
    label::join("page-", label::write_decimal(page).as_str())
}

/// Whether `at` are the places at which the first chunks of a file begin, one
/// behind the other, none of them with image data.
pub open spec fn chunks_at(bytes: Seq<u8>, at: Seq<int>) -> bool {
    &&& at.len() > 0 && at[0] == 8
    &&& forall|k: int|
        0 <= k < at.len() - 1 ==> {
            &&& 8 <= #[trigger] at[k] && at[k] + 8 <= bytes.len()
            &&& number_at(bytes, at[k] + 4) != 0x4944_4154
            &&& at[k] + 12 + number_at(bytes, at[k]) <= bytes.len()
        }
    &&& forall|k: int, l: int|
        0 <= k && l == k + 1 && l < at.len() ==> #[trigger] at[l] == #[trigger] at[k] + 12
            + number_at(bytes, at[k])
}

/// A file whose pixels refer to a palette is sound exactly if no palette chunk
/// before its image data, or before its end, has a length that three does not
/// divide; any other file is sound whatever its chunks are.
pub proof fn only_half_colours_are_unsound(bytes: Seq<u8>, at: Seq<int>)
    requires
        chunks_at(bytes, at),
        ({
            let last = at[at.len() - 1];
            ||| last + 8 > bytes.len()
            ||| number_at(bytes, last + 4) == 0x4944_4154
        }),
    ensures
        bytes.len() > 25 && bytes[25] == 3 ==> (sound_palette(bytes) <==> forall|k: int|
            0 <= k < at.len() - 1 && number_at(bytes, #[trigger] at[k] + 4) == 0x504c_5445
                ==> number_at(bytes, at[k]) % 3 == 0),
        bytes.len() <= 25 || bytes[25] != 3 ==> sound_palette(bytes),
{
    lemma_chunks(bytes, at, 0);
}

/// The chunks from the one numbered `k` on.
proof fn lemma_chunks(bytes: Seq<u8>, at: Seq<int>, k: int)
    requires
        0 <= k < at.len(),
        chunks_at(bytes, at),
        ({
            let last = at[at.len() - 1];
            ||| last + 8 > bytes.len()
            ||| number_at(bytes, last + 4) == 0x4944_4154
        }),
    ensures
        whole_palette(bytes, at[k]) <==> forall|j: int|
            k <= j < at.len() - 1 && number_at(bytes, #[trigger] at[j] + 4) == 0x504c_5445
                ==> number_at(bytes, at[j]) % 3 == 0,
    decreases at.len() - k,
{
    if k < at.len() - 1 {
        lemma_chunks(bytes, at, k + 1);
        assert(at[k + 1] == at[k] + 12 + number_at(bytes, at[k]));
        assert(number_at(bytes, at[k] + 4) != 0x4944_4154);
    }
}

/// Four bytes are a number, the highest byte first.
pub proof fn bytes_are_numbers(bytes: Seq<u8>, at: int)
    ensures
        number_at(bytes, at) == ((bytes[at] * 256 + bytes[at + 1]) * 256 + bytes[at + 2]) * 256
            + bytes[at + 3],
{
}

/// What `pdftoppm` is asked for: a PNG file at 144 dots an inch of one page
/// alone, the page counted from one.
pub proof fn one_page_at_144_dots(page: nat)
    ensures
        ({
            let o = options(page);
            &&& o.len() == 8
            &&& o[0] == "-png"@
            &&& o[1] == "-r"@ && o[2] == "144"@
            &&& o[3] == "-f"@ && o[4] == label::written(page + 1)
            &&& o[5] == "-l"@ && o[6] == label::written(page + 1)
            &&& o[7] == "-singlefile"@
        }),
{
}

} // verus!
