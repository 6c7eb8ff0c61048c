//! Pasted images: what an attachment is, how it is named, and the checks made
//! on the raw pixels before anything is encoded.
//!
//! Screenshots arrive as multi-megabyte bitmaps; what is kept is a legible
//! reminder, scaled down and re-encoded as WebP. The resampling is the image
//! crate's and the encoding the webp crate's; when to scale, and the name,
//! which is what deduplicates an image pasted twice, are decided here.
use vstd::prelude::*;
use sha2::{Digest, Sha256};
use image::{imageops::FilterType, DynamicImage, RgbaImage};
use crate::number::{decimal, decimal_chars};
use crate::text::{chars_of, push_all, push_str, string_of};

verus! {

/// Long edge of a stored image. Smaller images are never upscaled. Measured
/// on a 3840x2160 capture: 1200px is 62 KB but no longer legible, 1600px
/// stays legible at 104 KB.
pub const MAX_EDGE: u32 = 1600;

/// Long edge of a grid thumbnail.
pub const THUMB_EDGE: u32 = 320;

/// Hex characters of the content hash used in filenames. 12 gives 48 bits:
/// identical images collide and dedupe on purpose, while two different
/// images sharing a name stays unlikely over tens of thousands of them.
pub const HASH_LEN: usize = 12;

/// A pasted image, ready to store.
#[derive(Debug, Clone, PartialEq, Eq)]
pub struct Attachment {
    /// Content hash of the source image, before any scaling or encoding, so
    /// the same screenshot pasted twice always yields the same name.
    pub hash: String,
    pub webp: Vec<u8>,
    pub thumb: Vec<u8>,
    pub width: u32,
    pub height: u32,
}

/// The bytes of `n` in little-endian order.
pub open spec fn le_bytes(n: u32) -> Seq<u8> {
    seq![
        (n % 256) as u8,
        ((n / 256) % 256) as u8,
        ((n / 65536) % 256) as u8,
        ((n / 16777216) % 256) as u8,
    ]
}

/// SHA-256 of some bytes.
pub uninterp spec fn sha256_of(bytes: Seq<u8>) -> Seq<u8>;

/// Calls sha2's `Sha256`: `update` with the width's and the height's
/// little-endian bytes and then the pixels, and `finalize`. Feeding a hasher
/// in parts hashes their concatenation; the digest is named, and is 32
/// bytes. Dimensions are hashed too, so two images that share a pixel
/// buffer's length cannot collide.
#[verifier::external_body]
fn sha256_image(width: u32, height: u32, rgba: &[u8]) -> (r: Vec<u8>)
    ensures
        r@ == sha256_of(le_bytes(width) + le_bytes(height) + rgba@),
        r@.len() == 32,
{
    let mut hasher = Sha256::new();
    hasher.update(width.to_le_bytes());
    hasher.update(height.to_le_bytes());
    hasher.update(rgba);
    hasher.finalize().to_vec()
}

/// A lower-case hexadecimal digit for `d` below sixteen.
pub open spec fn hex_lower(d: int) -> char {
    if d < 10 {
        (48 + d) as char
    } else {
        (87 + d) as char
    }
}

/// Bytes written as two lower-case hexadecimal digits each.
pub open spec fn hex_text(bs: Seq<u8>) -> Seq<char>
    decreases bs.len(),
{
    if bs.len() == 0 {
        Seq::empty()
    } else {
        hex_text(bs.drop_last()) + seq![hex_lower(bs.last() as int / 16), hex_lower(bs.last() as int % 16)]
    }
}

pub open spec fn is_hex_lower(c: char) -> bool {
    ('0' <= c && c <= '9') || ('a' <= c && c <= 'f')
}

/// The first `HASH_LEN` hexadecimal digits of a digest.
pub fn hex(bytes: &[u8]) -> (r: String)
    requires
        bytes@.len() >= HASH_LEN / 2,
    ensures
        r@ == hex_text(bytes@.subrange(0, (HASH_LEN / 2) as int)),
        r@.len() == HASH_LEN,
        forall|i: int| 0 <= i < r@.len() ==> is_hex_lower(#[trigger] r@[i]),
{
    let mut out: Vec<char> = Vec::new();
    let mut i: usize = 0;
    while i < HASH_LEN / 2
        invariant
            i <= HASH_LEN / 2 <= bytes@.len(),
            out@ == hex_text(bytes@.subrange(0, i as int)),
            out@.len() == 2 * i,
            forall|k: int| 0 <= k < out@.len() ==> is_hex_lower(#[trigger] out@[k]),
        decreases HASH_LEN / 2 - i,
    {
        let b = bytes[i];
        assert(bytes@.subrange(0, i + 1).drop_last() =~= bytes@.subrange(0, i as int));
        let hi = b / 16;
        let lo = b % 16;
        let ch = if hi < 10 {
            (48u8 + hi) as char
        } else {
            (87u8 + hi) as char
        };
        let cl = if lo < 10 {
            (48u8 + lo) as char
        } else {
            (87u8 + lo) as char
        };
        out.push(ch);
        out.push(cl);
        i += 1;
    }
    string_of(out.as_slice())
}

/// The content hash of an image given as raw RGBA pixels.
pub fn hash_of(width: u32, height: u32, rgba: &[u8]) -> (r: String)
    ensures
        r@ == hex_text(sha256_of(le_bytes(width) + le_bytes(height) + rgba@).subrange(0, (HASH_LEN / 2) as int)),
        r@.len() == HASH_LEN,
        forall|i: int| 0 <= i < r@.len() ==> is_hex_lower(#[trigger] r@[i]),
{
    let digest = sha256_image(width, height, rgba);
    hex(digest.as_slice())
}

/// The image crate's resampling of `width` by `height` RGBA pixels into the
/// box of `edge` by `edge`: the new width, the new height and the pixels.
pub uninterp spec fn resized(width: u32, height: u32, rgba: Seq<u8>, edge: u32) -> (u32, u32, Seq<u8>);

/// Calls image's `DynamicImage::resize` with a Lanczos3 filter on the pixels
/// as an `RgbaImage`. The result is named. What its source shows is stated
/// besides: the aspect ratio is kept by one ratio, the smaller of `edge`
/// over each side, and each new side is its old side times that ratio
/// rounded, and at least one; so the longer side becomes exactly `edge`, no
/// side grows, and the buffer holds four bytes a pixel. Which side the
/// rounding gives the shorter one is left to the name.
#[verifier::external_body]
fn resize_rgba(width: u32, height: u32, rgba: &[u8], edge: u32) -> (r: (u32, u32, Vec<u8>))
    requires
        width >= 1,
        height >= 1,
        width > edge || height > edge,
        edge >= 1,
        rgba@.len() == rgba_len(width, height),
    ensures
        (r.0, r.1, r.2@) == resized(width, height, rgba@, edge),
        1 <= r.0 <= width,
        1 <= r.1 <= height,
        r.0 <= edge,
        r.1 <= edge,
        width >= height ==> r.0 == edge,
        height >= width ==> r.1 == edge,
        r.2@.len() == rgba_len(r.0, r.1),
{
    let img = RgbaImage::from_raw(width, height, rgba.to_vec()).unwrap();
    let out = DynamicImage::ImageRgba8(img).resize(edge, edge, FilterType::Lanczos3).into_rgba8();
    (out.width(), out.height(), out.into_raw())
}

/// A copy of some bytes.
fn copy_bytes(b: &[u8]) -> (r: Vec<u8>)
    ensures
        r@ == b@,
{
    let mut out: Vec<u8> = Vec::with_capacity(b.len());
    let mut i: usize = 0;
    while i < b.len()
        invariant
            i <= b@.len(),
            out@ == b@.subrange(0, i as int),
        decreases b@.len() - i,
    {
        out.push(b[i]);
        i += 1;
        assert(out@ == b@.subrange(0, i as int));
    }
    out
}

/// The longer of two sides.
pub open spec fn long_side(width: u32, height: u32) -> u32 {
    if width >= height {
        width
    } else {
        height
    }
}

/// What `fit` gives: the pixels as they are inside the box, else resampled.
pub open spec fn fitted(width: u32, height: u32, rgba: Seq<u8>, edge: u32) -> (u32, u32, Seq<u8>) {
    if width <= edge && height <= edge {
        (width, height, rgba)
    } else {
        resized(width, height, rgba, edge)
    }
}

/// Scales `width` by `height` RGBA pixels so that the long side is at most
/// `edge`, keeping the aspect ratio. Never upscales: an image already inside
/// the box is handed back as it is.
pub fn fit(width: u32, height: u32, rgba: &[u8], edge: u32) -> (r: (u32, u32, Vec<u8>))
    requires
        width >= 1,
        height >= 1,
        edge >= 1,
        rgba@.len() == rgba_len(width, height),
    ensures
        width <= edge && height <= edge ==> r.0 == width && r.1 == height && r.2@ == rgba@,
        !(width <= edge && height <= edge) ==> (r.0, r.1, r.2@) == resized(width, height, rgba@, edge),
        1 <= r.0 <= width,
        1 <= r.1 <= height,
        long_side(r.0, r.1) == if long_side(width, height) <= edge {
            long_side(width, height)
        } else {
            edge
        },
        r.2@.len() == rgba_len(r.0, r.1),
{
    if width <= edge && height <= edge {
        return (width, height, copy_bytes(rgba));
    }
    resize_rgba(width, height, rgba, edge)
}

/// The width and height libwebp reads from a WebP image, if it decodes.
pub uninterp spec fn webp_size(bytes: Seq<u8>) -> Option<(u32, u32)>;

/// Width and height of a stored WebP, without keeping the decoded pixels.
/// The image window is sized to its picture, so it needs this before it
/// opens.
///
/// Calls webp's `Decoder::decode`, which gives nothing for bytes that are
/// not a still WebP image; the answer is named.
#[verifier::external_body]
pub fn dimensions(webp: &[u8]) -> (r: Option<(u32, u32)>)
    ensures
        r == webp_size(webp@),
{
    let decoded = webp::Decoder::new(webp).decode()?;
    Some((decoded.width(), decoded.height()))
}

/// The image crate's decoding of some encoded image bytes, whatever their
/// format, as width, height and RGBA pixels.
pub uninterp spec fn decoded_rgba(bytes: Seq<u8>) -> Option<(u32, u32, Seq<u8>)>;

/// Calls image's `load_from_memory`, which guesses the format from the bytes
/// and gives an error for what it cannot decode, and `to_rgba8`. The answer
/// is named; `to_rgba8` keeps the size and holds four bytes a pixel.
#[verifier::external_body]
fn decode_rgba(bytes: &[u8]) -> (r: Option<(u32, u32, Vec<u8>)>)
    ensures
        r is None <==> decoded_rgba(bytes@) is None,
        r matches Some(d) ==> decoded_rgba(bytes@) == Some((d.0, d.1, d.2@)) && d.2@.len() == rgba_len(
            d.0,
            d.1,
        ),
{
    match image::load_from_memory(bytes) {
        Ok(img) => {
            let rgba = img.to_rgba8();
            Some((rgba.width(), rgba.height(), rgba.into_raw()))
        },
        Err(_) => None,
    }
}

/// An image pasted already encoded, as a paste event delivers it: its
/// width, height and RGBA pixels, and the content hash of those pixels, the
/// same hash raw pixels of that picture get. `None` where the bytes are no
/// image the image crate can decode.
pub fn encoded_source(bytes: &[u8]) -> (r: Option<(u32, u32, Vec<u8>, String)>)
    ensures
        r is None <==> decoded_rgba(bytes@) is None,
        r matches Some(d) ==> {
            &&& decoded_rgba(bytes@) == Some((d.0, d.1, d.2@))
            &&& d.2@.len() == rgba_len(d.0, d.1)
            &&& d.3@ == hex_text(
                sha256_of(le_bytes(d.0) + le_bytes(d.1) + d.2@).subrange(0, (HASH_LEN / 2) as int),
            )
        },
{
    match decode_rgba(bytes) {
        Some((w, h, px)) => {
            let hash = hash_of(w, h, px.as_slice());
            Some((w, h, px, hash))
        },
        None => None,
    }
}

/// The pixels a thumbnail is encoded from: a stored image decoded and
/// fitted into `edge`. `None` where the bytes do not decode, or decode to a
/// picture with no pixels.
pub fn thumbnail_pixels(stored: &[u8], edge: u32) -> (r: Option<(u32, u32, Vec<u8>)>)
    requires
        edge >= 1,
    ensures
        r is None <==> match decoded_rgba(stored@) {
            None => true,
            Some(d) => d.0 == 0 || d.1 == 0,
        },
        r matches Some(t) ==> decoded_rgba(stored@) matches Some(d) && fitted(d.0, d.1, d.2, edge) == (
            t.0,
            t.1,
            t.2@,
        ),
{
    match decode_rgba(stored) {
        Some((w, h, px)) => {
            if w == 0 || h == 0 {
                return None;
            }
            let (tw, th, tp) = fit(w, h, px.as_slice(), edge);
            Some((tw, th, tp))
        },
        None => None,
    }
}

/// What the clipboard's pixels are checked against: four bytes for each of
/// `width` by `height` pixels.
pub open spec fn rgba_len(width: u32, height: u32) -> int {
    width as int * height as int * 4
}

/// The complaint about a pixel buffer of the wrong size.
pub open spec fn size_complaint(width: u32, height: u32, len: int) -> Seq<char> {
    "clipboard image is "@ + decimal(len as nat) + " bytes, expected "@ + decimal(
        rgba_len(width, height) as nat,
    ) + " for "@ + decimal(width as nat) + seq!['x'] + decimal(height as nat)
}

/// Checks that a clipboard's pixel buffer is as long as its dimensions say,
/// before the pixels are trusted.
pub fn check_rgba(width: u32, height: u32, len: usize) -> (r: Result<(), String>)
    requires
        rgba_len(width, height) <= usize::MAX,
    ensures
        r is Ok <==> len == rgba_len(width, height),
        r matches Err(e) ==> e@ == size_complaint(width, height, len as int),
{
    let w = width as usize;
    let h = height as usize;
    assert(w * h * 4 == rgba_len(width, height)) by (nonlinear_arith)
        requires
            w == width,
            h == height,
    ;
    assert(w * h <= usize::MAX) by (nonlinear_arith)
        requires
            w * h * 4 <= usize::MAX,
            0 <= w,
            0 <= h,
    ;
    let expected = w * h * 4;
    if len == expected {
        return Ok(());
    }
    let mut out = chars_of("clipboard image is ");
    let a = decimal_chars(len as u64);
    push_all(&mut out, a.as_slice());
    push_str(&mut out, " bytes, expected ");
    let b = decimal_chars(expected as u64);
    push_all(&mut out, b.as_slice());
    push_str(&mut out, " for ");
    let c = decimal_chars(width as u64);
    push_all(&mut out, c.as_slice());
    out.push('x');
    let d = decimal_chars(height as u64);
    push_all(&mut out, d.as_slice());
    Err(string_of(out.as_slice()))
}

} // verus!
