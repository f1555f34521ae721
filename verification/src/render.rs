//! Packing raw grid values into RGBA pixels and encoding them as lossless
//! WebP images for the map overlay: each value is stored exactly in the red
//! and green bytes (high and low byte), so the client can decode it.

use vstd::prelude::*;
use crate::constants::{GRID_H, GRID_W, NODATA};

verus! {

/// The lossless WebP bytes that `image`'s encoder writes for RGBA pixels.
pub uninterp spec fn webp_lossless_rgba(pixels: Seq<u8>, width: u32, height: u32) -> Seq<u8>;

/// The bytes `"RIFF"`.
pub open spec fn riff_tag() -> Seq<u8> {
    seq![82u8, 73u8, 70u8, 70u8]
}

/// The bytes `"WEBP"`.
pub open spec fn webp_tag() -> Seq<u8> {
    seq![87u8, 69u8, 66u8, 80u8]
}

/// Calls `image`'s `WebPEncoder::new_lossless(..).encode(..)` on RGBA pixels,
/// writing into a vector. The contract states that the encoder accepts
/// exactly the dimensions from 1 to 16384 (writing into a vector cannot
/// fail), that its output is the named encoding of the pixels, and that the
/// output is a simple RIFF container: `"RIFF"`, a four-byte size, `"WEBP"`.
#[verifier::external_body]
fn encode_webp_rgba(pixels: &[u8], width: u32, height: u32) -> (r: Option<Vec<u8>>)
    requires
        pixels@.len() == width * height * 4,
    ensures
        (1 <= width <= 16384 && 1 <= height <= 16384) <==> r is Some,
        r matches Some(b) ==> {
            &&& b@ == webp_lossless_rgba(pixels@, width, height)
            &&& b@.len() >= 12
            &&& b@.subrange(0, 4) == riff_tag()
            &&& b@.subrange(8, 12) == webp_tag()
        },
{
    let mut out: Vec<u8> = Vec::new();
    let encoder = image::codecs::webp::WebPEncoder::new_lossless(std::io::Cursor::new(&mut out));
    match encoder.encode(pixels, width, height, image::ExtendedColorType::Rgba8) {
        Ok(()) => Some(out),
        Err(_) => None,
    }
}

/// The pixel of a raw value: high byte, low byte, 0, opaque; fully
/// transparent for [`NODATA`].
pub open spec fn data_pixel(v: u16) -> Seq<u8> {
    if v == NODATA {
        seq![0u8, 0u8, 0u8, 0u8]
    } else {
        seq![(v / 256) as u8, (v % 256) as u8, 0u8, 255u8]
    }
}

/// The pixel of a wind vector: high and low byte of `u`, then of `v`;
/// fully transparent when either is [`NODATA`].
pub open spec fn wind_pixel(u: u16, v: u16) -> Seq<u8> {
    if u == NODATA || v == NODATA {
        seq![0u8, 0u8, 0u8, 0u8]
    } else {
        seq![(u / 256) as u8, (u % 256) as u8, (v / 256) as u8, (v % 256) as u8]
    }
}

/// The pixels of a sequence of raw values, four bytes each.
pub open spec fn data_pixels(values: Seq<u16>) -> Seq<u8>
    decreases values.len(),
{
    if values.len() == 0 {
        Seq::empty()
    } else {
        data_pixels(values.drop_last()) + data_pixel(values.last())
    }
}

/// The pixels of two sequences of wind components, four bytes each.
pub open spec fn wind_pixels(u: Seq<u16>, v: Seq<u16>) -> Seq<u8>
    decreases u.len(),
{
    if u.len() == 0 || v.len() == 0 {
        Seq::empty()
    } else {
        wind_pixels(u.drop_last(), v.drop_last()) + wind_pixel(u.last(), v.last())
    }
}

/// Packs raw values into RGBA pixels (see [`data_pixel`]).
pub fn pack_data_pixels(values: &[u16]) -> (pixels: Vec<u8>)
    ensures
        pixels@ == data_pixels(values@),
        pixels@.len() == 4 * values@.len(),
{
    let mut out: Vec<u8> = Vec::new();
    let mut i: usize = 0;
    while i < values.len()
        invariant
            i <= values@.len(),
            out@ == data_pixels(values@.take(i as int)),
            out@.len() == 4 * i,
        decreases values@.len() - i,
    {
        let v = values[i];
        proof {
            assert(values@.take(i + 1).drop_last() =~= values@.take(i as int));
        }
        let ghost before = out@;
        if v == NODATA {
            out.push(0);
            out.push(0);
            out.push(0);
            out.push(0);
        } else {
            out.push((v / 256) as u8);
            out.push((v % 256) as u8);
            out.push(0);
            out.push(255);
        }
        assert(out@ =~= before + data_pixel(v));
        i += 1;
    }
    assert(values@.take(i as int) =~= values@);
    out
}

/// Packs wind components into RGBA pixels (see [`wind_pixel`]).
pub fn pack_wind_pixels(u_values: &[u16], v_values: &[u16]) -> (pixels: Vec<u8>)
    requires
        u_values@.len() == v_values@.len(),
    ensures
        pixels@ == wind_pixels(u_values@, v_values@),
        pixels@.len() == 4 * u_values@.len(),
{
    let mut out: Vec<u8> = Vec::new();
    let mut i: usize = 0;
    while i < u_values.len()
        invariant
            u_values@.len() == v_values@.len(),
            i <= u_values@.len(),
            out@ == wind_pixels(u_values@.take(i as int), v_values@.take(i as int)),
            out@.len() == 4 * i,
        decreases u_values@.len() - i,
    {
        let u = u_values[i];
        let v = v_values[i];
        proof {
            assert(u_values@.take(i + 1).drop_last() =~= u_values@.take(i as int));
            assert(v_values@.take(i + 1).drop_last() =~= v_values@.take(i as int));
        }
        let ghost before = out@;
        if u == NODATA || v == NODATA {
            out.push(0);
            out.push(0);
            out.push(0);
            out.push(0);
        } else {
            out.push((u / 256) as u8);
            out.push((u % 256) as u8);
            out.push((v / 256) as u8);
            out.push((v % 256) as u8);
        }
        assert(out@ =~= before + wind_pixel(u, v));
        i += 1;
    }
    assert(u_values@.take(i as int) =~= u_values@);
    assert(v_values@.take(i as int) =~= v_values@);
    out
}

/// The overlay image of the raw values of the map pixels, row by row.
pub fn render_values_webp(values: &[u16]) -> (webp: Vec<u8>)
    requires
        values@.len() == GRID_W * GRID_H,
    ensures
        webp@ == webp_lossless_rgba(data_pixels(values@), GRID_W, GRID_H),
{
    let pixels = pack_data_pixels(values);
    match encode_webp_rgba(pixels.as_slice(), GRID_W, GRID_H) {
        Some(b) => b,
        None => Vec::new(),
    }
}

/// The wind overlay image of the wind components of the map pixels.
pub fn render_wind_values_webp(u_values: &[u16], v_values: &[u16]) -> (webp: Vec<u8>)
    requires
        u_values@.len() == GRID_W * GRID_H,
        v_values@.len() == GRID_W * GRID_H,
    ensures
        webp@ == webp_lossless_rgba(wind_pixels(u_values@, v_values@), GRID_W, GRID_H),
{
    let pixels = pack_wind_pixels(u_values, v_values);
    match encode_webp_rgba(pixels.as_slice(), GRID_W, GRID_H) {
        Some(b) => b,
        None => Vec::new(),
    }
}

/// A fully transparent overlay image.
pub fn transparent_webp() -> (webp: Vec<u8>)
    ensures
        webp@ == webp_lossless_rgba(Seq::new((GRID_W * GRID_H * 4) as nat, |i: int| 0u8), GRID_W, GRID_H),
{
    let n: usize = (GRID_W as usize) * (GRID_H as usize) * 4;
    let mut pixels: Vec<u8> = Vec::new();
    let mut i: usize = 0;
    while i < n
        invariant
            n == GRID_W * GRID_H * 4,
            i <= n,
            pixels@.len() == i,
            forall|k: int| 0 <= k < i ==> pixels@[k] == 0u8,
        decreases n - i,
    {
        pixels.push(0);
        i += 1;
    }
    assert(pixels@ =~= Seq::new((GRID_W * GRID_H * 4) as nat, |i: int| 0u8));
    match encode_webp_rgba(pixels.as_slice(), GRID_W, GRID_H) {
        Some(b) => b,
        None => Vec::new(),
    }
}

/// A pixel gives its value back: a value other than [`NODATA`] is its red
/// byte times 256 plus its green byte, with an opaque alpha byte; [`NODATA`]
/// gives a fully transparent pixel.
pub proof fn lemma_data_pixel_decodes(v: u16)
    ensures
        data_pixel(v).len() == 4,
        v != NODATA ==> data_pixel(v)[0] * 256 + data_pixel(v)[1] == v && data_pixel(v)[3] == 255,
        v == NODATA ==> data_pixel(v)[3] == 0,
{
}

/// A wind pixel gives both components back when neither is [`NODATA`].
pub proof fn lemma_wind_pixel_decodes(u: u16, v: u16)
    ensures
        wind_pixel(u, v).len() == 4,
        u != NODATA && v != NODATA ==> wind_pixel(u, v)[0] * 256 + wind_pixel(u, v)[1] == u
            && wind_pixel(u, v)[2] * 256 + wind_pixel(u, v)[3] == v,
        u == NODATA || v == NODATA ==> wind_pixel(u, v) == seq![0u8, 0u8, 0u8, 0u8],
{
}

} // verus!
