//! Payload codec: a texture's packed on-disk pixel payload against its
//! canonical RGBA raster. Payloads are stored row-major bottom-to-top, so
//! decoding unpacks every pixel and then flips vertically, and encoding is
//! the exact mirror.

use crate::pixel::{decode_word, decode_word_exec, encode_word, encode_word_exec, lemma_expand_quant, quant};
use crate::pixel_format::{spec_data_size, TexError, TextureFormat};
use crate::raster::{flip_idx, flip_vert, lemma_flip_idx, Raster};
use vstd::arithmetic::div_mod::{
    lemma_div_multiples_vanish, lemma_fundamental_div_mod, lemma_fundamental_div_mod_converse,
    lemma_mod_bound, lemma_multiply_divide_lt,
};
use vstd::arithmetic::mul::{lemma_mul_is_commutative, lemma_mul_upper_bound};
use vstd::prelude::*;

verus! {

/// The dimensions and format a pixel payload is read with.
#[derive(Clone, Copy, Debug)]
pub struct TextureDataArgs {
    pub width: u32,
    pub height: u32,
    pub texture_format: TextureFormat,
}

/// The four channels of a decoded pixel as a byte sequence.
pub open spec fn pix_seq(p: (u8, u8, u8, u8)) -> Seq<u8> {
    seq![p.0, p.1, p.2, p.3]
}

/// A 16-bit word from its two little-endian bytes.
pub open spec fn le16(b0: u8, b1: u8) -> u16 {
    (b0 as u16) | ((b1 as u16) << 8)
}

/// The two little-endian bytes of a 16-bit word.
pub open spec fn le16_bytes(w: u16) -> Seq<u8> {
    seq![(w & 0xff) as u8, (w >> 8) as u8]
}

/// Decode the packed bytes of one pixel to canonical RGBA.
pub open spec fn decode_packed(format: TextureFormat, bytes: Seq<u8>) -> Seq<u8> {
    match format {
        TextureFormat::R8G8B8A8 => bytes,
        _ => pix_seq(decode_word(format, le16(bytes[0], bytes[1]))),
    }
}

/// Encode one canonical RGBA pixel to its packed bytes.
pub open spec fn encode_packed(format: TextureFormat, p: Seq<u8>) -> Seq<u8> {
    match format {
        TextureFormat::R8G8B8A8 => p,
        _ => le16_bytes(encode_word(format, (p[0], p[1], p[2], p[3]))),
    }
}

/// Decode `n` pixels of a packed payload, in payload order.
pub open spec fn decode_pixels(format: TextureFormat, n: nat, payload: Seq<u8>) -> Seq<u8> {
    Seq::new(
        4 * n,
        |i: int|
            decode_packed(
                format,
                payload.subrange(
                    format.spec_bpp() * (i / 4),
                    format.spec_bpp() * (i / 4) + format.spec_bpp(),
                ),
            )[i % 4],
    )
}

/// Encode `n` canonical pixels to a packed payload, in order.
pub open spec fn encode_pixels(format: TextureFormat, n: nat, rgba: Seq<u8>) -> Seq<u8> {
    Seq::new(
        format.spec_bpp() * n,
        |i: int|
            encode_packed(
                format,
                rgba.subrange(
                    4 * (i / (format.spec_bpp() as int)),
                    4 * (i / (format.spec_bpp() as int)) + 4,
                ),
            )[i % (format.spec_bpp() as int)],
    )
}

/// The canonical raster a payload decodes to: unpack every pixel, then flip
/// the rows, since the payload is stored bottom-to-top.
pub open spec fn decode_payload(
    format: TextureFormat,
    width: u32,
    height: u32,
    payload: Seq<u8>,
) -> Seq<u8> {
    flip_vert(width, height, decode_pixels(format, (width * height) as nat, payload))
}

/// The payload a canonical raster encodes to: flip the rows, then pack every
/// pixel.
pub open spec fn encode_payload(
    format: TextureFormat,
    width: u32,
    height: u32,
    rgba: Seq<u8>,
) -> Seq<u8> {
    encode_pixels(format, (width * height) as nat, flip_vert(width, height, rgba))
}

/// Read one texture's pixel payload into its canonical raster. The payload
/// must hold exactly `width * height * bpp` bytes.
pub fn read_texture_data(data: &[u8], args: &TextureDataArgs) -> (r: Result<Raster, TexError>)
    ensures
        (match r {
            Ok(raster) => data@.len() == spec_data_size(args.texture_format, args.width, args.height)
                && raster@.wf() && raster@.width == args.width && raster@.height == args.height
                && raster@.pixels == decode_payload(
                args.texture_format,
                args.width,
                args.height,
                data@,
            ),
            Err(e) => e == TexError::MalformedContainer && data@.len() != spec_data_size(
                args.texture_format,
                args.width,
                args.height,
            ),
        }),
{
    let w = args.width;
    let h = args.height;
    let f = args.texture_format;
    let bpp: u32 = f.bpp();
    proof {
        lemma_mul_upper_bound(w as int, u32::MAX as int, h as int, u32::MAX as int);
    }
    let wh: u64 = (w as u64) * (h as u64);
    proof {
        lemma_mul_upper_bound(wh as int, u64::MAX as int, bpp as int, 4);
    }
    let size: u128 = (wh as u128) * (bpp as u128);
    if (data.len() as u128) != size {
        return Err(TexError::MalformedContainer);
    }
    proof {
        assert(f.spec_bpp() == 2 || f.spec_bpp() == 4);
        lemma_mul_is_commutative(wh as int, bpp as int);
        lemma_div_multiples_vanish(wh as int, bpp as int);
    }
    let npix: usize = data.len() / (bpp as usize);
    let ghost dp = decode_pixels(f, npix as nat, data@);
    let mut pix: Vec<u8> = Vec::new();
    let mut j: usize = 0;
    let mut base: usize = 0;
    while j < npix
        invariant
            f == args.texture_format,
            w == args.width,
            h == args.height,
            bpp == f.spec_bpp(),
            npix == w as int * h as int,
            data@.len() == npix * f.spec_bpp(),
            data@.len() <= usize::MAX,
            dp == decode_pixels(f, npix as nat, data@),
            dp.len() == 4 * npix,
            j <= npix,
            base == j * f.spec_bpp(),
            pix@.len() == 4 * j,
            forall|i: int| 0 <= i < pix@.len() ==> pix@[i] == dp[i],
        decreases npix - j,
    {
        proof {
            assert((j + 1) * f.spec_bpp() <= npix * f.spec_bpp()) by (nonlinear_arith)
                requires
                    j < npix,
                    f.spec_bpp() >= 0,
            ;
            assert((j + 1) * f.spec_bpp() == j * f.spec_bpp() + f.spec_bpp()) by (nonlinear_arith);
            lemma_fundamental_div_mod_converse(4 * (j as int), 4, j as int, 0);
            lemma_fundamental_div_mod_converse(4 * (j as int) + 1, 4, j as int, 1);
            lemma_fundamental_div_mod_converse(4 * (j as int) + 2, 4, j as int, 2);
            lemma_fundamental_div_mod_converse(4 * (j as int) + 3, 4, j as int, 3);
        }
        match f {
            TextureFormat::R8G8B8A8 => {
                let b0 = data[base];
                let b1 = data[base + 1];
                let b2 = data[base + 2];
                let b3 = data[base + 3];
                proof {
                    let bi = base as int;
                    assert(data@.subrange(bi, bi + 4) =~= seq![
                        data@[bi],
                        data@[bi + 1],
                        data@[bi + 2],
                        data@[bi + 3],
                    ]);
                    assert(dp[4 * (j as int)] == b0);
                    assert(dp[4 * (j as int) + 1] == b1);
                    assert(dp[4 * (j as int) + 2] == b2);
                    assert(dp[4 * (j as int) + 3] == b3);
                }
                pix.push(b0);
                pix.push(b1);
                pix.push(b2);
                pix.push(b3);
                base = base + 4;
            },
            TextureFormat::R5G5B5A1 | TextureFormat::R4G4B4A4 | TextureFormat::R5G6B5 => {
                let b0 = data[base];
                let b1 = data[base + 1];
                let word: u16 = (b0 as u16) | ((b1 as u16) << 8);
                let t = decode_word_exec(f, word);
                proof {
                    let bi = base as int;
                    assert(data@.subrange(bi, bi + 2) =~= seq![data@[bi], data@[bi + 1]]);
                    assert(dp[4 * (j as int)] == t.0);
                    assert(dp[4 * (j as int) + 1] == t.1);
                    assert(dp[4 * (j as int) + 2] == t.2);
                    assert(dp[4 * (j as int) + 3] == t.3);
                }
                pix.push(t.0);
                pix.push(t.1);
                pix.push(t.2);
                pix.push(t.3);
                base = base + 2;
            },
        }
        j = j + 1;
    }
    proof {
        assert(pix@ =~= dp);
        assert(4 * npix == 4 * (w as int) * (h as int)) by (nonlinear_arith)
            requires
                npix == w as int * h as int,
        ;
    }
    let raster = Raster { width: w, height: h, pixels: pix };
    let out = raster.flip_vertical();
    Ok(out)
}

/// Encode a canonical raster into its packed on-disk payload.
pub fn encode_texture_data(raster: &Raster, format: TextureFormat) -> (out: Vec<u8>)
    requires
        raster@.wf(),
    ensures
        out@ == encode_payload(format, raster.width, raster.height, raster@.pixels),
        out@.len() == spec_data_size(format, raster.width, raster.height),
{
    let w = raster.width;
    let h = raster.height;
    let flipped = raster.flip_vertical();
    let ghost fs = flipped@.pixels;
    proof {
        assert(fs.len() == 4 * (w as int * h as int)) by (nonlinear_arith)
            requires
                fs.len() == 4 * w * h,
        ;
        lemma_div_multiples_vanish(w as int * h as int, 4);
    }
    let npix: usize = flipped.pixels.len() / 4;
    let ghost ep = encode_pixels(format, npix as nat, fs);
    let mut out: Vec<u8> = Vec::new();
    let mut j: usize = 0;
    let mut base: usize = 0;
    while j < npix
        invariant
            npix == w as int * h as int,
            fs == flipped@.pixels,
            fs.len() == 4 * npix,
            fs.len() <= usize::MAX,
            ep == encode_pixels(format, npix as nat, fs),
            ep.len() == format.spec_bpp() * npix,
            j <= npix,
            base == 4 * j,
            out@.len() == format.spec_bpp() * j,
            forall|i: int| 0 <= i < out@.len() ==> out@[i] == ep[i],
        decreases npix - j,
    {
        proof {
            assert(4 * (j + 1) <= 4 * npix && format.spec_bpp() * (j + 1) == format.spec_bpp() * j
                + format.spec_bpp() && format.spec_bpp() * (j + 1) <= format.spec_bpp() * npix) by (
            nonlinear_arith)
                requires
                    j < npix,
                    format.spec_bpp() >= 0,
            ;
        }
        let p0 = flipped.pixels[base];
        let p1 = flipped.pixels[base + 1];
        let p2 = flipped.pixels[base + 2];
        let p3 = flipped.pixels[base + 3];
        proof {
            let bi = base as int;
            assert(fs.subrange(bi, bi + 4) =~= seq![p0, p1, p2, p3]);
        }
        match format {
            TextureFormat::R8G8B8A8 => {
                proof {
                    lemma_fundamental_div_mod_converse(4 * (j as int), 4, j as int, 0);
                    lemma_fundamental_div_mod_converse(4 * (j as int) + 1, 4, j as int, 1);
                    lemma_fundamental_div_mod_converse(4 * (j as int) + 2, 4, j as int, 2);
                    lemma_fundamental_div_mod_converse(4 * (j as int) + 3, 4, j as int, 3);
                    assert(ep[4 * (j as int)] == p0);
                    assert(ep[4 * (j as int) + 1] == p1);
                    assert(ep[4 * (j as int) + 2] == p2);
                    assert(ep[4 * (j as int) + 3] == p3);
                }
                out.push(p0);
                out.push(p1);
                out.push(p2);
                out.push(p3);
            },
            TextureFormat::R5G5B5A1 | TextureFormat::R4G4B4A4 | TextureFormat::R5G6B5 => {
                let word = encode_word_exec(format, (p0, p1, p2, p3));
                let lo: u8 = (word & 0xff) as u8;
                let hi: u8 = (word >> 8) as u8;
                proof {
                    lemma_fundamental_div_mod_converse(2 * (j as int), 2, j as int, 0);
                    lemma_fundamental_div_mod_converse(2 * (j as int) + 1, 2, j as int, 1);
                    assert(word >> 8 <= 255) by (bit_vector);
                    assert(ep[2 * (j as int)] == lo);
                    assert(ep[2 * (j as int) + 1] == hi);
                }
                out.push(lo);
                out.push(hi);
            },
        }
        base = base + 4;
        j = j + 1;
    }
    proof {
        assert(out@ =~= ep);
        assert(ep == encode_payload(format, w, h, raster@.pixels));
        assert(format.spec_bpp() * npix == w as int * h as int * format.spec_bpp()) by (
        nonlinear_arith)
            requires
                npix == w as int * h as int,
        ;
    }
    out
}

/// The most a channel can move by through one encode-decode round trip:
/// nothing for R8G8B8A8, the quantization loss of the channel's bit depth
/// for the reduced formats, and the whole range for an alpha the format
/// carries in one bit or not at all.
pub open spec fn chan_bound(format: TextureFormat, c: int) -> int {
    match format {
        TextureFormat::R8G8B8A8 => 0,
        TextureFormat::R4G4B4A4 => 16,
        TextureFormat::R5G5B5A1 => if c == 3 {
            255
        } else {
            9
        },
        TextureFormat::R5G6B5 => if c == 3 {
            255
        } else if c == 1 {
            4
        } else {
            9
        },
    }
}

/// One pixel through encode then decode: every channel stays within
/// `chan_bound` of where it started.
pub proof fn lemma_decode_encode_packed(format: TextureFormat, p: Seq<u8>)
    requires
        p.len() == 4,
    ensures
        decode_packed(format, encode_packed(format, p)).len() == 4,
        forall|c: int|
            0 <= c < 4 ==> p[c] - chan_bound(format, c) <= #[trigger] decode_packed(
                format,
                encode_packed(format, p),
            )[c] <= p[c] + chan_bound(format, c),
{
    let v0 = p[0];
    let v1 = p[1];
    let v2 = p[2];
    let v3 = p[3];
    match format {
        TextureFormat::R8G8B8A8 => {
        },
        _ => {
            let w = encode_word(format, (v0, v1, v2, v3));
            let eb = encode_packed(format, p);
            assert(eb =~= le16_bytes(w));
            assert(le16((w & 0xff) as u8, (w >> 8) as u8) == w) by (bit_vector);
            assert(decode_packed(format, eb) =~= pix_seq(decode_word(format, w)));
            match format {
                TextureFormat::R5G5B5A1 => {
                    assert({
                        let ww = (quant(v0, 31) << 11) | (quant(v1, 31) << 6) | (quant(v2, 31)
                            << 1) | quant(v3, 1);
                        ((ww >> 11) & 0x1f) == quant(v0, 31) && ((ww >> 6) & 0x1f) == quant(v1, 31)
                            && ((ww >> 1) & 0x1f) == quant(v2, 31) && (ww & 0x1) == quant(v3, 1)
                    }) by (bit_vector);
                    lemma_expand_quant(v0, 31);
                    lemma_expand_quant(v1, 31);
                    lemma_expand_quant(v2, 31);
                    lemma_expand_quant(v3, 1);
                },
                TextureFormat::R4G4B4A4 => {
                    assert({
                        let ww = (quant(v0, 15) << 12) | (quant(v1, 15) << 8) | (quant(v2, 15)
                            << 4) | quant(v3, 15);
                        ((ww >> 12) & 0xf) == quant(v0, 15) && ((ww >> 8) & 0xf) == quant(v1, 15)
                            && ((ww >> 4) & 0xf) == quant(v2, 15) && (ww & 0xf) == quant(v3, 15)
                    }) by (bit_vector);
                    lemma_expand_quant(v0, 15);
                    lemma_expand_quant(v1, 15);
                    lemma_expand_quant(v2, 15);
                    lemma_expand_quant(v3, 15);
                },
                TextureFormat::R5G6B5 => {
                    assert({
                        let ww = (quant(v0, 31) << 11) | (quant(v1, 63) << 5) | quant(v2, 31);
                        ((ww >> 11) & 0x1f) == quant(v0, 31) && ((ww >> 5) & 0x3f) == quant(v1, 63)
                            && (ww & 0x1f) == quant(v2, 31)
                    }) by (bit_vector);
                    lemma_expand_quant(v0, 31);
                    lemma_expand_quant(v1, 63);
                    lemma_expand_quant(v2, 31);
                },
                TextureFormat::R8G8B8A8 => {
                },
            }
        },
    }
}

/// A whole raster through encode then decode: same length back, and every
/// byte within `chan_bound` of its channel.
pub proof fn lemma_decode_encode_payload(
    format: TextureFormat,
    width: u32,
    height: u32,
    pixels: Seq<u8>,
)
    requires
        pixels.len() == 4 * width * height,
    ensures
        decode_payload(format, width, height, encode_payload(format, width, height, pixels)).len()
            == pixels.len(),
        forall|i: int|
            0 <= i < pixels.len() ==> pixels[i] - chan_bound(format, i % 4)
                <= #[trigger] decode_payload(
                format,
                width,
                height,
                encode_payload(format, width, height, pixels),
            )[i] <= pixels[i] + chan_bound(format, i % 4),
{
    let wh = width as int * height as int;
    let s = flip_vert(width, height, pixels);
    let e = encode_pixels(format, wh as nat, s);
    let dp = decode_pixels(format, wh as nat, e);
    let d = flip_vert(width, height, dp);
    assert(4 * wh == 4 * width * height) by (nonlinear_arith)
        requires
            wh == width as int * height as int,
    ;
    assert(encode_payload(format, width, height, pixels) == e);
    assert(dp.len() == 4 * wh);
    assert(decode_payload(format, width, height, e) == d);
    assert(d.len() == pixels.len());
    assert forall|i: int| 0 <= i < pixels.len() implies pixels[i] - chan_bound(format, i % 4)
        <= #[trigger] d[i] <= pixels[i] + chan_bound(format, i % 4) by {
        let bpp = format.spec_bpp() as int;
        assert(bpp == 2 || bpp == 4);
        assert(width > 0 && height > 0) by (nonlinear_arith)
            requires
                0 <= i < 4 * width * height,
        ;
        lemma_flip_idx(width, height, i);
        let ii = flip_idx(width, height, i);
        assert(d[i] == dp[ii]);
        lemma_fundamental_div_mod(ii, 4);
        lemma_mod_bound(ii, 4);
        let jj = ii / 4;
        let c = ii % 4;
        assert(c == i % 4);
        lemma_multiply_divide_lt(ii, 4, wh);
        assert(0 <= jj < wh);
        assert(bpp * jj + bpp <= bpp * wh && 4 * jj + 4 <= 4 * wh) by (nonlinear_arith)
            requires
                0 <= jj < wh,
                bpp == 2 || bpp == 4,
        ;
        let pj = s.subrange(4 * jj, 4 * jj + 4);
        assert(e.subrange(bpp * jj, bpp * jj + bpp) =~= encode_packed(format, pj)) by {
            assert(encode_packed(format, pj).len() == bpp);
            assert forall|c2: int| 0 <= c2 < bpp implies e.subrange(bpp * jj, bpp * jj + bpp)[c2]
                == encode_packed(format, pj)[c2] by {
                lemma_fundamental_div_mod_converse(bpp * jj + c2, bpp, jj, c2);
                assert(e[bpp * jj + c2] == encode_packed(format, pj)[c2]);
            }
        }
        assert(dp[ii] == decode_packed(format, encode_packed(format, pj))[c]);
        lemma_decode_encode_packed(format, pj);
        assert(pj[c] == s[4 * jj + c]);
        lemma_fundamental_div_mod_converse(4 * jj + c, 4, jj, c);
        assert(4 * jj + c == ii) by {
            lemma_fundamental_div_mod(ii, 4);
        }
        assert(s[ii] == pixels[flip_idx(width, height, ii)]);
        assert(flip_idx(width, height, ii) == i);
        assert(pj[c] == pixels[i]);
    }
}

/// For R8G8B8A8 rasters the encode-decode round trip is exact.
pub proof fn lemma_r8g8b8a8_round_trip(width: u32, height: u32, pixels: Seq<u8>)
    requires
        pixels.len() == 4 * width * height,
    ensures
        decode_payload(
            TextureFormat::R8G8B8A8,
            width,
            height,
            encode_payload(TextureFormat::R8G8B8A8, width, height, pixels),
        ) == pixels,
{
    let f = TextureFormat::R8G8B8A8;
    lemma_decode_encode_payload(f, width, height, pixels);
    let d = decode_payload(f, width, height, encode_payload(f, width, height, pixels));
    assert forall|i: int| 0 <= i < pixels.len() implies d[i] == pixels[i] by {
        assert(chan_bound(f, i % 4) == 0);
        assert(pixels[i] - 0 <= d[i] <= pixels[i] + 0);
    }
    assert(d =~= pixels);
}

} // verus!
