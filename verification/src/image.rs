//! PNG images (the window icon and splash art) as 8-bit RGBA pixels. The
//! `png` crate decodes the first frame; 8-bit RGBA frames are taken as they
//! are, 8-bit RGB frames get an opaque alpha byte per pixel, and any other
//! format is refused.

use vstd::prelude::*;

verus! {

/// PNG colour type code of an RGB image.
pub const PNG_RGB: u8 = 2;

/// PNG colour type code of an RGBA image.
pub const PNG_RGBA: u8 = 6;

/// The first frame the `png` crate decodes from `bytes`: its bytes, width,
/// height, bit depth in bits per sample, and PNG colour type code; `None`
/// when it cannot decode one.
pub uninterp spec fn png_first_frame(bytes: Seq<u8>) -> Option<(Seq<u8>, u32, u32, u8, u8)>;

/// Decodes the first frame of a PNG with `png::Decoder::new`,
/// `Reader::read_info` and `Reader::next_frame` into a buffer of
/// `Reader::output_buffer_size` bytes, cut to the frame's `buffer_size`.
/// The bit depth and colour type come out as the numbers the crate's enums
/// stand for. The result is whatever the crate decodes from these bytes,
/// named `png_first_frame`; the buffer is allocated at the size the header
/// asks for.
#[verifier::external_body]
fn decode_first_frame(bytes: &[u8]) -> (r: Option<(Vec<u8>, u32, u32, u8, u8)>)
    ensures
        match r {
            Some((buf, w, h, depth, color)) => png_first_frame(bytes@) == Some((buf@, w, h, depth, color)),
            None => png_first_frame(bytes@) is None,
        },
{
    let mut reader = png::Decoder::new(bytes).read_info().ok()?;
    let mut buf = vec![0; reader.output_buffer_size()];
    let info = reader.next_frame(&mut buf).ok()?;
    buf.truncate(info.buffer_size());
    Some((buf, info.width, info.height, info.bit_depth as u8, info.color_type as u8))
}

/// RGB bytes with an opaque alpha byte after each whole pixel; a trailing
/// partial pixel is dropped.
pub open spec fn rgb_to_rgba(s: Seq<u8>) -> Seq<u8> {
    Seq::new(
        ((s.len() / 3) * 4) as nat,
        |i: int|
            if i % 4 == 3 {
                255u8
            } else {
                s[(i / 4) * 3 + i % 4]
            },
    )
}

/// The RGBA image of a decoded frame, or `None` for a format other than
/// 8-bit RGB or RGBA.
pub open spec fn frame_rgba(buf: Seq<u8>, w: u32, h: u32, depth: u8, color: u8) -> Option<(Seq<u8>, u32, u32)> {
    if depth != 8 {
        None
    } else if color == PNG_RGBA {
        Some((buf, w, h))
    } else if color == PNG_RGB {
        Some((rgb_to_rgba(buf), w, h))
    } else {
        None
    }
}

proof fn lemma_rgba_index(k: int, r: int)
    requires
        0 <= k,
        0 <= r < 4,
    ensures
        (4 * k + r) / 4 == k,
        (4 * k + r) % 4 == r,
{
    vstd::arithmetic::div_mod::lemma_fundamental_div_mod_converse(4 * k + r, 4, k, r);
}

/// Expand RGB bytes to RGBA with opaque alpha.
fn expand_rgb(s: &Vec<u8>) -> (out: Vec<u8>)
    ensures
        out@ == rgb_to_rgba(s@),
{
    let mut out: Vec<u8> = Vec::new();
    let mut k: usize = 0;
    while k < s.len() / 3
        invariant
            0 <= k <= s@.len() / 3,
            out@.len() == 4 * k,
            forall|i: int| 0 <= i < 4 * k ==> out@[i] == (if i % 4 == 3 { 255u8 } else { s@[(i / 4) * 3 + i % 4] }),
        decreases s@.len() / 3 - k,
    {
        let b = 3 * k;
        out.push(s[b]);
        out.push(s[b + 1]);
        out.push(s[b + 2]);
        out.push(255u8);
        proof {
            assert forall|i: int| 0 <= i < 4 * (k + 1) implies out@[i] == (if i % 4 == 3 {
                255u8
            } else {
                s@[(i / 4) * 3 + i % 4]
            }) by {
                if i >= 4 * k {
                    let r = i - 4 * k;
                    lemma_rgba_index(k as int, r);
                }
            }
        }
        k = k + 1;
    }
    assert(out@ =~= rgb_to_rgba(s@));
    out
}

/// The RGBA image of a decoded frame: 8-bit RGBA as it is, 8-bit RGB with
/// opaque alpha, anything else refused.
pub fn frame_to_rgba(buf: Vec<u8>, w: u32, h: u32, depth: u8, color: u8) -> (r: Option<(Vec<u8>, u32, u32)>)
    ensures
        match r {
            Some((px, rw, rh)) => frame_rgba(buf@, w, h, depth, color) == Some((px@, rw, rh)),
            None => frame_rgba(buf@, w, h, depth, color) is None,
        },
{
    if depth != 8 {
        None
    } else if color == PNG_RGBA {
        Some((buf, w, h))
    } else if color == PNG_RGB {
        Some((expand_rgb(&buf), w, h))
    } else {
        None
    }
}

/// Decode a PNG into 8-bit RGBA pixels with its width and height; `None`
/// when it does not decode or is not 8-bit RGB or RGBA.
pub fn decode_rgba(bytes: &[u8]) -> (r: Option<(Vec<u8>, u32, u32)>)
    ensures
        match png_first_frame(bytes@) {
            Some((buf, w, h, depth, color)) => match r {
                Some((px, rw, rh)) => frame_rgba(buf, w, h, depth, color) == Some((px@, rw, rh)),
                None => frame_rgba(buf, w, h, depth, color) is None,
            },
            None => r is None,
        },
{
    match decode_first_frame(bytes) {
        Some((buf, w, h, depth, color)) => frame_to_rgba(buf, w, h, depth, color),
        None => None,
    }
}

} // verus!
