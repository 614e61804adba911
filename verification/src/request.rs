//! A print request of the HTTP API, from its base64 PNG to the job that goes
//! to the printer: decoding the image, choosing the cartridge the canvas is
//! sized for, and laying the image out on the canvas.

use vstd::prelude::*;
use vstd::string::*;
use vstd::utf8::*;
use base64::Engine;
use crate::job::{placed, GrayPixels, JobParams, Raster};
use crate::supply::{Supply, first_with_part, first_ten, supply_table};
use crate::text::{has_prefix, trimmed};
use crate::server::SDK_DEFAULT_ROW;

verus! {

#[verifier::external_type_specification]
#[verifier::external_body]
pub struct ExDecodeError(base64::DecodeError);

#[verifier::external_type_specification]
#[verifier::external_body]
pub struct ExImageError(image::ImageError);

/// Text given as its bytes, each byte read as one character.
pub open spec fn byte_chars(text: Seq<u8>) -> Seq<char> {
    text.map_values(|c: u8| c as char)
}

/// The bytes whose standard base64 text is `text`, if there are any (there is
/// at most one such byte string: `lemma_base64_text_injective`).
pub open spec fn base64_bytes(text: Seq<u8>) -> Option<Seq<u8>> {
    if exists|b: Seq<u8>| #[trigger] base64_text(b) == byte_chars(text) {
        Some(choose|b: Seq<u8>| #[trigger] base64_text(b) == byte_chars(text))
    } else {
        None
    }
}

/// `base64::engine::general_purpose::STANDARD.decode`. The engine's `PAD`
/// configuration decodes with canonical padding required and trailing bits
/// refused, so it accepts exactly the texts that `STANDARD.encode` writes
/// (`base64_text`), and gives back the bytes encoded; any other text is
/// refused.
#[verifier::external_body]
fn base64_decode(text: &[u8]) -> (r: Result<Vec<u8>, base64::DecodeError>)
    ensures
        match r {
            Ok(v) => base64_text(v@) == byte_chars(text@),
            Err(_) => forall|b: Seq<u8>| #[trigger] base64_text(b) != byte_chars(text@),
        },
{
    base64::engine::general_purpose::STANDARD.decode(text)
}

/// The `Display` text of a `base64::DecodeError` (which byte, at which offset,
/// or which length was refused). Nothing is stated of the text: the error is
/// opaque to the proofs, and a name can only be given over plain values.
#[verifier::external_body]
fn decode_error_text(e: &base64::DecodeError) -> String {
    e.to_string()
}

/// What `image::load_from_memory` followed by `to_luma8` gives for `bytes`:
/// width, height and pixel buffer of the 8-bit gray image, or `None` where the
/// bytes hold no image the crate reads.
pub uninterp spec fn luma8_of(bytes: Seq<u8>) -> Option<(u32, u32, Seq<u8>)>;

/// `image::load_from_memory` (the format guessed from the bytes) and then
/// `DynamicImage::to_luma8`: the image as 8-bit gray, taken apart into its
/// width, height and pixel buffer; an `ImageBuffer` holds at least one value
/// per pixel. The outcome depends on the bytes alone.
#[verifier::external_body]
fn load_luma8(bytes: &[u8]) -> (r: Result<(u32, u32, Vec<u8>), image::ImageError>)
    ensures
        match r {
            Ok((w, h, d)) => luma8_of(bytes@) == Some((w, h, d@)) && d@.len() >= w * h,
            Err(_) => luma8_of(bytes@) is None,
        },
{
    let gray = image::load_from_memory(bytes)?.to_luma8();
    let (w, h) = gray.dimensions();
    Ok((w, h, gray.into_raw()))
}

/// The `Display` text of an `image::ImageError`. Nothing is stated of the
/// text: the error is opaque to the proofs, and a name can only be given over
/// plain values.
#[verifier::external_body]
fn image_error_text(e: &image::ImageError) -> String {
    e.to_string()
}

/// The gray image that a decoded pixel buffer holds: its first
/// `width * height` values, row by row.
pub fn gray_from_buffer(width: u32, height: u32, data: Vec<u8>) -> (g: GrayPixels)
    requires
        data@.len() >= width * height,
    ensures
        g.wf(),
        g.width == width,
        g.height == height,
        g.data@ == data@.take(width * height),
{
    let mut data = data;
    proof {
        vstd::arithmetic::mul::lemma_mul_nonnegative(width as int, height as int);
        assert(width * height <= 0xffff_ffff * 0xffff_ffff) by (nonlinear_arith)
            requires
                width <= 0xffff_ffff,
                height <= 0xffff_ffff,
        ;
    }
    let n: usize = (width as u64 * height as u64) as usize;
    data.truncate(n);
    GrayPixels { width, height, data }
}

/// Prepends `prefix` to `detail`.
fn prefixed(prefix: &str, detail: String) -> (s: String)
    ensures
        s@ == prefix@ + detail@,
{
    let mut s = String::from_str(prefix);
    s.append(detail.as_str());
    s
}

/// The bytes that the request's `pngBase64` field spells once leading and
/// trailing whitespace is removed.
pub open spec fn request_png(png_base64: Seq<char>) -> Option<Seq<u8>> {
    base64_bytes(encode_utf8(trimmed(png_base64)))
}

/// The image of a print request: the `pngBase64` text, trimmed, is decoded as
/// standard base64 and the bytes as an image, which is turned to 8-bit gray.
/// Text that is no base64 is refused with a message that starts `pngBase64: `;
/// bytes that hold no image, with one that starts `png: `.
pub fn request_image(png_base64: &str) -> (r: Result<GrayPixels, String>)
    ensures
        match request_png(png_base64@) {
            None => r is Err && has_prefix(r->Err_0@, "pngBase64: "@),
            Some(png) => match luma8_of(png) {
                None => r is Err && has_prefix(r->Err_0@, "png: "@),
                Some((w, h, d)) => r is Ok && r->Ok_0.wf() && r->Ok_0.width == w
                    && r->Ok_0.height == h && r->Ok_0.data@ == d.take(w * h),
            },
        },
{
    let text = crate::text::trim(png_base64);
    let png = match base64_decode(text.as_bytes()) {
        Ok(b) => {
            proof {
                let t = byte_chars(encode_utf8(trimmed(png_base64@)));
                assert(base64_text(b@) == t);
                let c = choose|c: Seq<u8>| #[trigger] base64_text(c) == t;
                lemma_base64_text_injective(b@, c);
            }
            b
        },
        Err(e) => {
            let s = prefixed("pngBase64: ", decode_error_text(&e));
            proof {
                reveal_strlit("pngBase64: ");
                assert(s@.take(11) =~= "pngBase64: "@);
            }
            return Err(s);
        },
    };
    match load_luma8(png.as_slice()) {
        Ok((w, h, d)) => Ok(gray_from_buffer(w, h, d)),
        Err(e) => {
            let s = prefixed("png: ", image_error_text(&e));
            proof {
                reveal_strlit("png: ");
                assert(s@.take(5) =~= "png: "@);
            }
            Err(s)
        },
    }
}

/// Why a print request is refused before anything is laid out.
#[derive(Debug)]
pub enum Refusal {
    /// The connected printer holds a cartridge that is not in the table: its
    /// part number (empty when the printer has not reported one).
    UnknownSupply(String),
    /// A print, not a dry run, while no printer is connected.
    NotConnected,
}

/// The refusal of an operation that needs the printer while none is connected.
pub const NOT_CONNECTED: &'static str = "printer not connected: wake it (power button) and press Connect";

/// The part number a printer reported, or the empty text when it reported none.
pub open spec fn part_or_empty(part_number: Option<&str>) -> Seq<char> {
    match part_number {
        Some(p) => p@,
        None => Seq::empty(),
    }
}

/// The cartridge a print request is laid out for: with a printer connected,
/// the one its reported part number names, and a part number that is not in
/// the table is refused (dry run or not); with none connected, a dry run
/// uses the first cartridge of the table and a print is refused.
pub fn request_supply(connected: bool, part_number: Option<&str>, dry: bool) -> (r: Result<Supply, Refusal>)
    ensures
        connected ==> match first_with_part(supply_table(), part_or_empty(part_number)) {
            Some(s) => r == Ok::<Supply, Refusal>(s),
            None => r matches Err(Refusal::UnknownSupply(p)) && p@ == part_or_empty(part_number),
        },
        !connected && dry ==> r == Ok::<Supply, Refusal>(supply_table()[0]),
        !connected && !dry ==> r matches Err(Refusal::NotConnected),
{
    if connected {
        let part = match part_number {
            Some(p) => p,
            None => "",
        };
        proof {
            reveal_strlit("");
            assert(part@ =~= part_or_empty(part_number));
        }
        match crate::supply::lookup(part) {
            Some(s) => Ok(s),
            None => Err(Refusal::UnknownSupply(String::from_str(part))),
        }
    } else if dry {
        let t = crate::supply::supplies();
        Ok(t[0])
    } else {
        Err(Refusal::NotConnected)
    }
}

/// The job a print request sends: its parameters and its raster.
pub struct JobPlan {
    pub params: JobParams,
    pub raster: Raster,
}

/// Lays a request's image out as a job for `supply`: the canvas is as tall as
/// the cartridge is wide at 300 dpi, the image's top-left pixel lands `y_dots`
/// columns along the tape and `SDK_DEFAULT_ROW + x_dots` rows across it (the
/// studio's x offset is across the tape), dark pixels (below 128) print; at
/// least one copy is made, and `cut` is the cut mode.
pub fn plan_job(
    img: &GrayPixels,
    supply: Supply,
    y_dots: i32,
    x_dots: i32,
    copies: u32,
    cut: u8,
    job_id: String,
) -> (plan: JobPlan)
    requires
        img.wf(),
        img.width * (supply.width_mils * 300 / 1000) <= u32::MAX,
        img.width <= 0x8000_0000,
        img.height <= 0x8000_0000,
        img.width + y_dots <= 0x8000_0000,
        SDK_DEFAULT_ROW + x_dots <= i32::MAX,
        img.height + SDK_DEFAULT_ROW + x_dots <= 0x8000_0000,
    ensures
        plan.raster.wf(),
        plan.raster@.cols == img.width,
        plan.raster@.rows == supply.width_mils * 300 / 1000,
        forall|x: int, y: int|
            0 <= x < img.width && 0 <= y < plan.raster@.rows ==> #[trigger] plan.raster@.pixel(x, y)
                == img.dark(x - y_dots, y - (SDK_DEFAULT_ROW + x_dots)),
        plan.raster@ == placed(*img, (supply.width_mils * 300 / 1000) as nat, y_dots as int, SDK_DEFAULT_ROW + x_dots),
        plan.params.job_id@ == job_id@,
        plan.params.supply_prefix@ == first_ten(supply.name@),
        plan.params.copies == if copies == 0 { 1 } else { copies },
        plan.params.cut == cut,
        plan.params.d == 1,
        plan.params.c_lower == 0,
        plan.params.p == 0,
        plan.params.o == 0,
        plan.params.o_upper == 0,
        plan.params.b == 0,
        plan.params.m == 0,
        plan.params.label_name@ == "BUlbl0"@,
{
    let rows = crate::supply::canvas_rows(supply.width_mils);
    let raster = Raster::place(img, rows, y_dots, SDK_DEFAULT_ROW + x_dots);
    let mut params = JobParams::new(job_id, crate::supply::job_prefix(supply.name));
    params.copies = if copies == 0 { 1 } else { copies };
    params.cut = cut;
    JobPlan { params, raster }
}

/// The PNG file that the `image` crate writes for an 8-bit gray image of
/// `width` by `height` pixels, or `None` where it writes none.
pub uninterp spec fn png_of_gray(width: u32, height: u32, pixels: Seq<u8>) -> Option<Seq<u8>>;

/// `image::write_buffer_with_format` with `ImageFormat::Png` and
/// `ExtendedColorType::L8` into memory, which is what `GrayImage::write_to`
/// does: the PNG file for the pixels, or the reason none was written. The
/// encoder asserts one value per pixel. The outcome depends on the arguments
/// alone; the file, a `Vec`, holds at most `isize::MAX` bytes.
#[verifier::external_body]
fn encode_png_gray(width: u32, height: u32, pixels: &[u8]) -> (r: Result<Vec<u8>, image::ImageError>)
    requires
        pixels@.len() == width * height,
    ensures
        match r {
            Ok(v) => png_of_gray(width, height, pixels@) == Some(v@) && v@.len() <= isize::MAX,
            Err(_) => png_of_gray(width, height, pixels@) is None,
        },
{
    let mut out: Vec<u8> = Vec::new();
    let mut cursor = std::io::Cursor::new(&mut out);
    image::write_buffer_with_format(&mut cursor, pixels, width, height, image::ExtendedColorType::L8, image::ImageFormat::Png)?;
    Ok(out)
}

/// The base64 digit of the six bits `n`.
pub open spec fn base64_digit(n: int) -> char {
    if n < 26 {
        (65 + n) as char
    } else if n < 52 {
        (97 + n - 26) as char
    } else if n < 62 {
        (48 + n - 52) as char
    } else if n == 62 {
        '+'
    } else {
        '/'
    }
}

/// `b` in the standard base64 alphabet: each three bytes become four digits,
/// six bits each, high bits first; a last group of one or two bytes is filled
/// with zero bits and padded with `=` to four characters.
pub open spec fn base64_text(b: Seq<u8>) -> Seq<char>
    decreases b.len(),
{
    if b.len() == 0 {
        Seq::empty()
    } else {
        let x = b[0] as int;
        let y = if b.len() > 1 { b[1] as int } else { 0 };
        let z = if b.len() > 2 { b[2] as int } else { 0 };
        let d0 = base64_digit(x / 4);
        let d1 = base64_digit((x % 4) * 16 + y / 16);
        if b.len() == 1 {
            seq![d0, d1, '=', '=']
        } else if b.len() == 2 {
            seq![d0, d1, base64_digit((y % 16) * 4), '=']
        } else {
            seq![d0, d1, base64_digit((y % 16) * 4 + z / 64), base64_digit(z % 64)] + base64_text(b.skip(3))
        }
    }
}

/// Different six-bit values have different digits, and no digit is `=`.
proof fn lemma_base64_digit(m: int, n: int)
    requires
        0 <= m < 64,
        0 <= n < 64,
    ensures
        base64_digit(m) == base64_digit(n) ==> m == n,
        base64_digit(m) != '=',
{
    let cm = base64_digit(m) as int;
    let cn = base64_digit(n) as int;
    assert(cm == if m < 26 { 65 + m } else if m < 52 { 97 + m - 26 } else if m < 62 { 48 + m - 52 } else if m == 62 { 43 } else { 47 });
    assert(cn == if n < 26 { 65 + n } else if n < 52 { 97 + n - 26 } else if n < 62 { 48 + n - 52 } else if n == 62 { 43 } else { 47 });
}

/// Different byte strings have different base64 texts.
pub proof fn lemma_base64_text_injective(a: Seq<u8>, b: Seq<u8>)
    requires
        base64_text(a) == base64_text(b),
    ensures
        a == b,
    decreases a.len(),
{
    let ta = base64_text(a);
    let tb = base64_text(b);
    if a.len() == 0 || b.len() == 0 {
        if a.len() != 0 {
            assert(ta.len() >= 4);
        }
        if b.len() != 0 {
            assert(tb.len() >= 4);
        }
        assert(a =~= b);
    } else {
        let (x, y, z) = (a[0] as int, if a.len() > 1 { a[1] as int } else { 0 }, if a.len() > 2 { a[2] as int } else { 0 });
        let (u, v, w) = (b[0] as int, if b.len() > 1 { b[1] as int } else { 0 }, if b.len() > 2 { b[2] as int } else { 0 });
        assert(ta[0] == tb[0] && ta[1] == tb[1] && ta[2] == tb[2] && ta[3] == tb[3]);
        assert(ta[0] == base64_digit(x / 4));
        assert(tb[0] == base64_digit(u / 4));
        assert(ta[1] == base64_digit((x % 4) * 16 + y / 16));
        assert(tb[1] == base64_digit((u % 4) * 16 + v / 16));
        lemma_base64_digit(x / 4, u / 4);
        lemma_base64_digit((x % 4) * 16 + y / 16, (u % 4) * 16 + v / 16);
        lemma_base64_digit((y % 16) * 4 + z / 64, (v % 16) * 4 + w / 64);
        lemma_base64_digit((y % 16) * 4, (v % 16) * 4);
        lemma_base64_digit((y % 16) * 4 + z / 64, (v % 16) * 4);
        lemma_base64_digit((y % 16) * 4, (v % 16) * 4 + w / 64);
        lemma_base64_digit(z % 64, w % 64);
        lemma_base64_digit(z % 64, 0);
        lemma_base64_digit(0, w % 64);
        // The padding tells the group sizes apart.
        assert((a.len() == 1) == (b.len() == 1));
        assert((a.len() == 2) == (b.len() == 2));
        assert(x == u && y / 16 == v / 16) by (nonlinear_arith)
            requires
                0 <= x < 256,
                0 <= u < 256,
                0 <= y < 256,
                0 <= v < 256,
                x / 4 == u / 4,
                (x % 4) * 16 + y / 16 == (u % 4) * 16 + v / 16,
        ;
        if a.len() == 2 {
            assert(ta[2] == base64_digit((y % 16) * 4));
            assert(tb[2] == base64_digit((v % 16) * 4));
            assert(y == v) by (nonlinear_arith)
                requires
                    0 <= y < 256,
                    0 <= v < 256,
                    y / 16 == v / 16,
                    (y % 16) * 4 == (v % 16) * 4,
            ;
        }
        if a.len() >= 3 {
            assert(ta[2] == base64_digit((y % 16) * 4 + z / 64));
            assert(tb[2] == base64_digit((v % 16) * 4 + w / 64));
            assert(ta[3] == base64_digit(z % 64));
            assert(tb[3] == base64_digit(w % 64));
            assert(y == v && z / 64 == w / 64) by (nonlinear_arith)
                requires
                    0 <= y < 256,
                    0 <= v < 256,
                    0 <= z < 256,
                    0 <= w < 256,
                    y / 16 == v / 16,
                    (y % 16) * 4 + z / 64 == (v % 16) * 4 + w / 64,
            ;
            assert(z == w) by (nonlinear_arith)
                requires
                    0 <= z < 256,
                    0 <= w < 256,
                    z / 64 == w / 64,
                    z % 64 == w % 64,
            ;
            assert(ta.skip(4) == base64_text(a.skip(3)));
            assert(tb.skip(4) == base64_text(b.skip(3)));
            lemma_base64_text_injective(a.skip(3), b.skip(3));
            assert(a =~= a.take(3) + a.skip(3));
            assert(b =~= b.take(3) + b.skip(3));
            assert(a.take(3) =~= b.take(3));
        } else {
            assert(a =~= b);
        }
    }
}

/// `base64::engine::general_purpose::STANDARD.encode`: the bytes in the
/// standard alphabet with `=` padding. It panics when the length of the text
/// overflows `usize`, which no input of at most `isize::MAX` bytes reaches.
#[verifier::external_body]
fn base64_encode(bytes: &[u8]) -> (s: String)
    requires
        bytes@.len() <= isize::MAX,
    ensures
        s@ == base64_text(bytes@),
{
    base64::engine::general_purpose::STANDARD.encode(bytes)
}

/// The gray values of a raster's picture: 0 for ink, 255 for blank, row by row.
pub open spec fn preview_pixels(r: crate::job::RasterView) -> Seq<u8> {
    r.cells.map_values(|b: bool| if b { 0u8 } else { 255u8 })
}

/// The raster as a PNG picture (black ink on white), base64 encoded: what a
/// print request returns for the studio to show. When the `image` crate
/// writes no PNG, its reason.
pub fn raster_preview(r: &Raster) -> (p: Result<String, String>)
    requires
        r.wf(),
    ensures
        match png_of_gray(r@.cols as u32, r@.rows as u32, preview_pixels(r@)) {
            Some(png) => p is Ok && p->Ok_0@ == base64_text(png),
            None => p is Err,
        },
{
    let img = r.to_image();
    match encode_png_gray(img.width, img.height, img.data.as_slice()) {
        Ok(png) => Ok(base64_encode(png.as_slice())),
        Err(e) => Err(image_error_text(&e)),
    }
}

} // verus!
