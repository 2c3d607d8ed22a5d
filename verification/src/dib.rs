//! Clipboard images in the device-independent bitmap format (`CF_DIB`): reading the
//! `BITMAPINFOHEADER`, turning 24- and 32-bit pixel rows into RGBA, and encoding the
//! result as PNG; and decoding a stored PNG back to RGBA for writing to the clipboard.

use vstd::prelude::*;

verus! {

/// The little-endian 16-bit value at `off`.
pub open spec fn le16(b: Seq<u8>, off: int) -> int {
    b[off] + 256 * b[off + 1]
}

/// The little-endian 32-bit value at `off`, read unsigned.
pub open spec fn le32(b: Seq<u8>, off: int) -> int {
    b[off] + 256 * b[off + 1] + 65536 * b[off + 2] + 16777216 * b[off + 3]
}

/// `biWidth` reinterpreted as unsigned.
pub open spec fn dib_width(b: Seq<u8>) -> int {
    le32(b, 4)
}

/// `biHeight` is negative: the rows are stored top-down.
pub open spec fn dib_top_down(b: Seq<u8>) -> bool {
    le32(b, 8) >= 0x8000_0000
}

/// The absolute value of `biHeight`.
pub open spec fn dib_height(b: Seq<u8>) -> int {
    if dib_top_down(b) {
        0x1_0000_0000 - le32(b, 8)
    } else {
        le32(b, 8)
    }
}

/// `biBitCount`.
pub open spec fn dib_bit_count(b: Seq<u8>) -> int {
    le16(b, 14)
}

/// The bitmap has a full header and 24- or 32-bit pixels.
pub open spec fn dib_supported(b: Seq<u8>) -> bool {
    b.len() >= 40 && (dib_bit_count(b) == 24 || dib_bit_count(b) == 32)
}

/// Bytes per pixel.
pub open spec fn dib_bpp(b: Seq<u8>) -> int {
    dib_bit_count(b) / 8
}

/// Bytes per stored row: the pixels, padded to a multiple of four.
pub open spec fn dib_stride(b: Seq<u8>) -> int {
    ((dib_width(b) * dib_bpp(b) + 3) / 4) * 4
}

/// Where pixel `(x, y)` of the picture (top row first) is stored: after the 40-byte
/// header, in stored row `y` for top-down bitmaps and `height - 1 - y` for bottom-up
/// ones.
pub open spec fn dib_src(b: Seq<u8>, x: int, y: int) -> int {
    let row = if dib_top_down(b) {
        y
    } else {
        dib_height(b) - 1 - y
    };
    40 + row * dib_stride(b) + x * dib_bpp(b)
}

/// Channel `c` (red, green, blue, alpha) of pixel `(x, y)`: stored as blue, green, red
/// and, for 32-bit pixels, alpha (opaque otherwise); a pixel past the end of the data
/// is transparent black.
pub open spec fn dib_channel(b: Seq<u8>, x: int, y: int, c: int) -> u8 {
    let s = dib_src(b, x, y);
    let bpp = dib_bpp(b);
    if s + bpp > b.len() {
        0
    } else if c == 0 {
        b[s + 2]
    } else if c == 1 {
        b[s + 1]
    } else if c == 2 {
        b[s]
    } else if bpp == 4 {
        b[s + 3]
    } else {
        255
    }
}

/// The RGBA buffer of a picture of the given width needs at most `u32::MAX` bytes.
pub open spec fn dib_fits(b: Seq<u8>) -> bool {
    dib_width(b) * dib_height(b) * 4 <= u32::MAX
}

/// The position of channel `c` of pixel `(x, y)` in a row-major RGBA buffer of width `w`.
pub open spec fn pixel_index(w: int, x: int, y: int, c: int) -> int {
    (y * w + x) * 4 + c
}

proof fn lemma_pixel_before(w: int, xx: int, yy: int, c: int, x: int, y: int)
    requires
        0 <= xx < w,
        0 <= yy,
        0 <= x,
        0 <= c < 4,
        yy < y || (yy == y && xx < x),
    ensures
        pixel_index(w, xx, yy, c) < pixel_index(w, x, y, 0),
{
    if yy < y {
        assert(yy * w + w <= y * w) by (nonlinear_arith)
            requires
                yy < y,
                0 <= w,
        ;
    }
}

/// How a bitmap stores its rows: bottom-up where `biHeight` is positive, top-down where it
/// is negative, whatever its bit count. Pixel `(x, y)` of the decoded picture (top row
/// first) comes from stored row `|biHeight| - 1 - y` of a bottom-up bitmap and from stored
/// row `y` of a top-down one; a stored row is `((biWidth * bytes per pixel + 3) / 4) * 4`
/// bytes after the 40-byte header, and a pixel's bytes are blue, green, red and, for
/// 32-bit pixels, alpha.
pub proof fn lemma_dib_pixel_source(b: Seq<u8>, x: int, y: int)
    requires
        dib_supported(b),
        0 <= x < dib_width(b),
        0 <= y < dib_height(b),
    ensures
        ({
            let raw_height = le32(b, 8);
            let bytes_per_pixel = le16(b, 14) / 8;
            let row_bytes = ((le32(b, 4) * bytes_per_pixel + 3) / 4) * 4;
            let stored_row = if raw_height < 0x8000_0000 {
                raw_height - 1 - y
            } else {
                y
            };
            let at = 40 + stored_row * row_bytes + x * bytes_per_pixel;
            &&& at + bytes_per_pixel <= b.len() ==> {
                &&& dib_channel(b, x, y, 0) == b[at + 2]
                &&& dib_channel(b, x, y, 1) == b[at + 1]
                &&& dib_channel(b, x, y, 2) == b[at]
                &&& dib_channel(b, x, y, 3) == if bytes_per_pixel == 4 {
                    b[at + 3]
                } else {
                    255u8
                }
            }
            &&& at + bytes_per_pixel > b.len() ==> forall|c: int| 0 <= c < 4 ==> #[trigger] dib_channel(b, x, y, c) == 0
        }),
{
}

/// A bitmap turned into RGBA.
#[derive(Debug)]
pub struct DibImage {
    pub width: u32,
    pub height: u32,
    /// Row-major RGBA bytes, top row first.
    pub rgba: Vec<u8>,
}

fn read_le32(b: &[u8], off: usize) -> (r: u32)
    requires
        off + 4 <= b@.len(),
    ensures
        r == le32(b@, off as int),
{
    b[off] as u32 + (b[off + 1] as u32) * 256 + (b[off + 2] as u32) * 65536 + (b[off + 3] as u32) * 16777216
}

/// Whether the bitmap can be decoded: it has a full header with 24- or 32-bit pixels,
/// and its RGBA buffer fits in `u32::MAX` bytes.
pub fn dib_decodable(bytes: &[u8]) -> (r: bool)
    ensures
        r == (dib_supported(bytes@) && dib_fits(bytes@)),
{
    if bytes.len() < 40 {
        return false;
    }
    let bit_count: u32 = bytes[14] as u32 + (bytes[15] as u32) * 256;
    if bit_count != 24 && bit_count != 32 {
        return false;
    }
    let w: u128 = read_le32(bytes, 4) as u128;
    let raw: u32 = read_le32(bytes, 8);
    let h: u128 = if raw >= 0x8000_0000 { 0x1_0000_0000u128 - raw as u128 } else { raw as u128 };
    assert(w * h <= 0xffff_ffff * 0x8000_0000) by (nonlinear_arith)
        requires
            w <= 0xffff_ffff,
            h <= 0x8000_0000,
    ;
    w * h * 4 <= 0xffff_ffff
}

/// Reads a bitmap with a `BITMAPINFOHEADER` and 24- or 32-bit pixels into RGBA, top row
/// first; other bitmaps give `None`.
pub fn decode_dib(bytes: &[u8]) -> (r: Option<DibImage>)
    requires
        dib_supported(bytes@) ==> dib_fits(bytes@),
    ensures
        r is Some <==> dib_supported(bytes@),
        r matches Some(img) ==> {
            &&& img.width == dib_width(bytes@)
            &&& img.height == dib_height(bytes@)
            &&& img.rgba@.len() == img.width * img.height * 4
            &&& forall|y: int, x: int, c: int|
                0 <= y < img.height && 0 <= x < img.width && 0 <= c < 4 ==> img.rgba@[#[trigger] pixel_index(
                    img.width as int,
                    x,
                    y,
                    c,
                )] == dib_channel(bytes@, x, y, c)
        },
{
    if bytes.len() < 40 {
        return None;
    }
    let bit_count: u32 = bytes[14] as u32 + (bytes[15] as u32) * 256;
    if bit_count != 24 && bit_count != 32 {
        return None;
    }
    let ghost b = bytes@;
    let width: u32 = read_le32(bytes, 4);
    let raw: u32 = read_le32(bytes, 8);
    let top_down = raw >= 0x8000_0000;
    let height: u32 = if top_down { (0x1_0000_0000u64 - raw as u64) as u32 } else { raw };
    let bpp: u32 = bit_count / 8;
    assert(width as int * bpp as int <= 0x4_0000_0000) by (nonlinear_arith)
        requires
            width <= 0xffff_ffff,
            bpp <= 4,
    ;
    let stride: u128 = ((width as u128 * bpp as u128 + 3) / 4) * 4;
    proof {
        assert(bpp == dib_bpp(b));
        assert(stride == dib_stride(b));
        assert(width as int * height as int * 4 <= u32::MAX);
    }
    let len: u128 = bytes.len() as u128;
    let mut rgba: Vec<u8> = Vec::new();
    let mut y: u32 = 0;
    while y < height
        invariant
            b == bytes@,
            dib_supported(b),
            width == dib_width(b),
            height == dib_height(b),
            top_down == dib_top_down(b),
            bpp == dib_bpp(b),
            bpp == 3 || bpp == 4,
            stride == dib_stride(b),
            len == b.len(),
            width as int * height as int * 4 <= u32::MAX,
            y <= height,
            rgba@.len() == pixel_index(width as int, 0, y as int, 0),
            forall|yy: int, xx: int, c: int|
                0 <= yy < y && 0 <= xx < width && 0 <= c < 4 ==> rgba@[#[trigger] pixel_index(width as int, xx, yy, c)]
                    == dib_channel(b, xx, yy, c),
        decreases height - y,
    {
        let row: u128 = if top_down { y as u128 } else { (height - 1 - y) as u128 };
        let mut x: u32 = 0;
        while x < width
            invariant
                b == bytes@,
                dib_supported(b),
                width == dib_width(b),
                height == dib_height(b),
                top_down == dib_top_down(b),
                bpp == dib_bpp(b),
                bpp == 3 || bpp == 4,
                stride == dib_stride(b),
                len == b.len(),
                width as int * height as int * 4 <= u32::MAX,
                y < height,
                row == (if top_down { y as int } else { height - 1 - y }),
                x <= width,
                rgba@.len() == pixel_index(width as int, x as int, y as int, 0),
                forall|yy: int, xx: int, c: int|
                    0 <= yy && 0 <= xx < width && 0 <= c < 4 && (yy < y || (yy == y && xx < x)) ==> rgba@[#[trigger] pixel_index(
                        width as int,
                        xx,
                        yy,
                        c,
                    )] == dib_channel(b, xx, yy, c),
            decreases width - x,
        {
            proof {
                assert(row < height);
                assert(stride <= 4 * width + 3) by {
                    assert(width as int * bpp as int <= 4 * width) by (nonlinear_arith)
                        requires
                            bpp <= 4,
                    ;
                }
                assert(row * stride <= 0x1_0000_0000 * 0x4_0000_0003) by (nonlinear_arith)
                    requires
                        row <= 0x1_0000_0000,
                        stride <= 0x4_0000_0003,
                ;
                assert(x as int * bpp as int <= 0x4_0000_0000) by (nonlinear_arith)
                    requires
                        x <= 0xffff_ffff,
                        bpp <= 4,
                ;
            }
            let src: u128 = 40 + row * stride + x as u128 * bpp as u128;
            proof {
                assert(src == dib_src(b, x as int, y as int));
            }
            let ghost before = rgba@;
            if src + bpp as u128 > len {
                rgba.push(0);
                rgba.push(0);
                rgba.push(0);
                rgba.push(0);
            } else {
                let s: usize = src as usize;
                let bb = bytes[s];
                let g = bytes[s + 1];
                let r = bytes[s + 2];
                let a = if bpp == 4 { bytes[s + 3] } else { 255 };
                rgba.push(r);
                rgba.push(g);
                rgba.push(bb);
                rgba.push(a);
            }
            proof {
                let base = before.len() as int;
                assert(rgba@.len() == base + 4);
                assert forall|c: int| 0 <= c < 4 implies rgba@[base + c] == dib_channel(b, x as int, y as int, c) by {
                }
                assert(pixel_index(width as int, x as int + 1, y as int, 0) == base + 4);
                assert forall|yy: int, xx: int, c: int|
                    0 <= yy && 0 <= xx < width && 0 <= c < 4 && (yy < y || (yy == y && xx < x + 1))
                        implies rgba@[#[trigger] pixel_index(width as int, xx, yy, c)] == dib_channel(b, xx, yy, c) by {
                    if yy == y && xx == x {
                        assert(pixel_index(width as int, xx, yy, c) == base + c);
                    } else {
                        lemma_pixel_before(width as int, xx, yy, c, x as int, y as int);
                        assert(rgba@[pixel_index(width as int, xx, yy, c)] == before[pixel_index(width as int, xx, yy, c)]);
                    }
                }
            }
            x = x + 1;
        }
        proof {
            assert(pixel_index(width as int, width as int, y as int, 0) == pixel_index(width as int, 0, y + 1, 0)) by (nonlinear_arith);
        }
        y = y + 1;
    }
    proof {
        assert(pixel_index(width as int, 0, height as int, 0) == width * height * 4) by (nonlinear_arith);
    }
    Some(DibImage { width, height, rgba })
}

/// The PNG encoding of an RGBA picture, as the `image` crate writes it; `None` where the
/// buffer does not hold the picture or the encoder refuses it.
pub uninterp spec fn png_of_rgba(width: u32, height: u32, rgba: Seq<u8>) -> Option<Seq<u8>>;

/// What the `image` crate decodes from a byte buffer, as RGBA (width, height, row-major
/// bytes), or the text of its error.
pub uninterp spec fn rgba_of_image(bytes: Seq<u8>) -> Result<(u32, u32, Seq<u8>), Seq<char>>;

/// `image::RgbaImage::from_raw` followed by `write_to` in the PNG format.
///
/// Trusted: the result is named `png_of_rgba(width, height, rgba)`; PNG encoding in the
/// `image` crate depends on the picture alone.
#[verifier::external_body]
fn encode_png(width: u32, height: u32, rgba: Vec<u8>) -> (r: Option<Vec<u8>>)
    ensures
        r is Some ==> png_of_rgba(width, height, rgba@) == Some(r->Some_0@),
        r is None ==> png_of_rgba(width, height, rgba@) is None,
{
    let image = image::RgbaImage::from_raw(width, height, rgba)?;
    let mut out = std::io::Cursor::new(Vec::new());
    image.write_to(&mut out, image::ImageFormat::Png).ok()?;
    Some(out.into_inner())
}

/// `image::load_from_memory` followed by `to_rgba8`.
///
/// Trusted: the result is named `rgba_of_image(bytes)`, the error given as the text of
/// `image::ImageError`'s `Display`.
#[verifier::external_body]
fn decode_image(bytes: &[u8]) -> (r: Result<(u32, u32, Vec<u8>), String>)
    ensures
        r is Ok ==> rgba_of_image(bytes@) == Ok::<(u32, u32, Seq<u8>), Seq<char>>(
            (r->Ok_0.0, r->Ok_0.1, r->Ok_0.2@),
        ),
        r is Err ==> rgba_of_image(bytes@) == Err::<(u32, u32, Seq<u8>), Seq<char>>(r->Err_0@),
{
    match image::load_from_memory(bytes) {
        Ok(img) => {
            let rgba = img.to_rgba8();
            let (w, h) = rgba.dimensions();
            Ok((w, h, rgba.into_raw()))
        },
        Err(e) => Err(e.to_string()),
    }
}

/// Encodes an RGBA picture (row-major, top row first) as PNG; `None` where the buffer
/// does not hold the picture or the encoder refuses it.
pub fn rgba_to_png(width: u32, height: u32, rgba: Vec<u8>) -> (r: Option<Vec<u8>>)
    ensures
        match r {
            Some(v) => png_of_rgba(width, height, rgba@) == Some(v@),
            None => png_of_rgba(width, height, rgba@) is None,
        },
{
    encode_png(width, height, rgba)
}

/// Converts a clipboard bitmap to PNG bytes: `None` where the bitmap is not a 24- or
/// 32-bit `BITMAPINFOHEADER` bitmap or the encoder refuses the picture.
pub fn dib_to_png(bytes: &[u8]) -> (r: Option<Vec<u8>>)
    requires
        dib_supported(bytes@) ==> dib_fits(bytes@),
    ensures
        !dib_supported(bytes@) ==> r is None,
        dib_supported(bytes@) ==> exists|rgba: Seq<u8>|
            #[trigger] is_dib_rgba(bytes@, rgba) && match r {
                Some(v) => png_of_rgba(dib_width(bytes@) as u32, dib_height(bytes@) as u32, rgba) == Some(v@),
                None => png_of_rgba(dib_width(bytes@) as u32, dib_height(bytes@) as u32, rgba) is None,
            },
{
    match decode_dib(bytes) {
        None => None,
        Some(img) => {
            let ghost rgba = img.rgba@;
            let r = rgba_to_png(img.width, img.height, img.rgba);
            proof {
                assert(is_dib_rgba(bytes@, rgba));
            }
            r
        },
    }
}

/// `rgba` is the RGBA picture of the bitmap `b`, top row first.
pub open spec fn is_dib_rgba(b: Seq<u8>, rgba: Seq<u8>) -> bool {
    &&& rgba.len() == dib_width(b) * dib_height(b) * 4
    &&& forall|y: int, x: int, c: int|
        0 <= y < dib_height(b) && 0 <= x < dib_width(b) && 0 <= c < 4 ==> rgba[#[trigger] pixel_index(dib_width(b), x, y, c)]
            == dib_channel(b, x, y, c)
}

/// Decodes a stored PNG to RGBA for writing to the clipboard; a decoding failure is an
/// `Internal` error with the decoder's text.
pub fn png_to_rgba(png: &[u8]) -> (r: Result<(u32, u32, Vec<u8>), crate::error::ShelfError>)
    ensures
        r matches Ok(t) ==> rgba_of_image(png@) == Ok::<(u32, u32, Seq<u8>), Seq<char>>((t.0, t.1, t.2@)),
        r matches Err(e) ==> e is Internal && rgba_of_image(png@) is Err
            && e.detail() == "画像のデコードに失敗しました: "@ + rgba_of_image(png@)->Err_0,
{
    match decode_image(png) {
        Ok(t) => Ok(t),
        Err(e) => {
            let mut s = crate::text::to_string("画像のデコードに失敗しました: ");
            crate::text::append_str(&mut s, e.as_str());
            Err(crate::error::ShelfError::Internal(s))
        },
    }
}

} // verus!
