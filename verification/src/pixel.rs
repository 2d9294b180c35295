//! Packing and unpacking of single pixels: a packed 16-bit word (or four raw
//! bytes for R8G8B8A8) against a canonical 8-bit-per-channel RGBA pixel.
//! Channel expansion uses linear scaling `value * 255 / max`, not bit
//! replication, and quantization mirrors it with `value * max / 255`.

use crate::pixel_format::TextureFormat;
use vstd::prelude::*;

verus! {

/// Quantize a canonical 8-bit channel down to a channel whose largest value
/// is `max` (`2^bits - 1`).
pub open spec fn quant(v: u8, max: u16) -> u16 {
    ((v as int) * max / 255) as u16
}

/// Expand a reduced channel whose largest value is `max` back to 8 bits.
pub open spec fn expand(v: u16, max: u16) -> u8 {
    ((v as int) * 255 / (max as int)) as u8
}

/// Unpack a 16-bit word into a canonical RGBA pixel. Only the three 16-bit
/// formats carry their pixels in words; the word is unused for R8G8B8A8.
pub open spec fn decode_word(format: TextureFormat, w: u16) -> (u8, u8, u8, u8) {
    match format {
        TextureFormat::R5G5B5A1 => (
            expand((w >> 11) & 0x1f, 31),
            expand((w >> 6) & 0x1f, 31),
            expand((w >> 1) & 0x1f, 31),
            expand(w & 0x1, 1),
        ),
        TextureFormat::R4G4B4A4 => (
            expand((w >> 12) & 0xf, 15),
            expand((w >> 8) & 0xf, 15),
            expand((w >> 4) & 0xf, 15),
            expand(w & 0xf, 15),
        ),
        TextureFormat::R5G6B5 => (
            expand((w >> 11) & 0x1f, 31),
            expand((w >> 5) & 0x3f, 63),
            expand(w & 0x1f, 31),
            255u8,
        ),
        TextureFormat::R8G8B8A8 => (0u8, 0u8, 0u8, 0u8),
    }
}

/// Pack a canonical RGBA pixel into a 16-bit word. Zero for R8G8B8A8, whose
/// pixels are stored as four raw bytes instead.
pub open spec fn encode_word(format: TextureFormat, p: (u8, u8, u8, u8)) -> u16 {
    match format {
        TextureFormat::R5G5B5A1 => (quant(p.0, 31) << 11) | (quant(p.1, 31) << 6) | (quant(
            p.2,
            31,
        ) << 1) | quant(p.3, 1),
        TextureFormat::R4G4B4A4 => (quant(p.0, 15) << 12) | (quant(p.1, 15) << 8) | (quant(
            p.2,
            15,
        ) << 4) | quant(p.3, 15),
        TextureFormat::R5G6B5 => (quant(p.0, 31) << 11) | (quant(p.1, 63) << 5) | quant(p.2, 31),
        TextureFormat::R8G8B8A8 => 0u16,
    }
}

/// Bounds of every masked field a word is split into.
proof fn lemma_mask_bounds(w: u16)
    by (bit_vector)
    ensures
        (w >> 11) & 0x1f < 32,
        (w >> 6) & 0x1f < 32,
        (w >> 1) & 0x1f < 32,
        w & 0x1 < 2,
        (w >> 12) & 0xf < 16,
        (w >> 8) & 0xf < 16,
        (w >> 4) & 0xf < 16,
        w & 0xf < 16,
        (w >> 5) & 0x3f < 64,
        w & 0x1f < 32,
{
}

fn quant_exec(v: u8, max: u16) -> (r: u16)
    requires
        1 <= max <= 255,
    ensures
        r == quant(v, max),
        r <= max,
{
    proof {
        assert((v as u16) * max <= 65025 && ((v as u16) * max) as u16 / 255 <= max) by (bit_vector)
            requires
                max <= 255,
        ;
    }
    (v as u16) * max / 255
}

fn expand_exec(v: u16, max: u16) -> (r: u8)
    requires
        1 <= max <= 255,
        v <= max,
    ensures
        r == expand(v, max),
{
    proof {
        assert(v * 255 <= 65025 && (v * 255) as u16 / max <= 255) by (bit_vector)
            requires
                1 <= max <= 255 && v <= max,
        ;
    }
    (v * 255 / max) as u8
}

/// Unpack one 16-bit word of the given format.
pub fn decode_word_exec(format: TextureFormat, w: u16) -> (r: (u8, u8, u8, u8))
    ensures
        r == decode_word(format, w),
{
    proof {
        lemma_mask_bounds(w);
    }
    match format {
        TextureFormat::R5G5B5A1 => (
            expand_exec((w >> 11) & 0x1f, 31),
            expand_exec((w >> 6) & 0x1f, 31),
            expand_exec((w >> 1) & 0x1f, 31),
            expand_exec(w & 0x1, 1),
        ),
        TextureFormat::R4G4B4A4 => (
            expand_exec((w >> 12) & 0xf, 15),
            expand_exec((w >> 8) & 0xf, 15),
            expand_exec((w >> 4) & 0xf, 15),
            expand_exec(w & 0xf, 15),
        ),
        TextureFormat::R5G6B5 => (
            expand_exec((w >> 11) & 0x1f, 31),
            expand_exec((w >> 5) & 0x3f, 63),
            expand_exec(w & 0x1f, 31),
            255u8,
        ),
        TextureFormat::R8G8B8A8 => (0u8, 0u8, 0u8, 0u8),
    }
}

/// Pack one canonical pixel into a 16-bit word of the given format.
pub fn encode_word_exec(format: TextureFormat, p: (u8, u8, u8, u8)) -> (r: u16)
    ensures
        r == encode_word(format, p),
{
    match format {
        TextureFormat::R5G5B5A1 => (quant_exec(p.0, 31) << 11u16) | (quant_exec(p.1, 31) << 6u16)
            | (quant_exec(p.2, 31) << 1u16) | quant_exec(p.3, 1),
        TextureFormat::R4G4B4A4 => (quant_exec(p.0, 15) << 12u16) | (quant_exec(p.1, 15) << 8u16)
            | (quant_exec(p.2, 15) << 4u16) | quant_exec(p.3, 15),
        TextureFormat::R5G6B5 => (quant_exec(p.0, 31) << 11u16) | (quant_exec(p.1, 63) << 5u16)
            | quant_exec(p.2, 31),
        TextureFormat::R8G8B8A8 => 0u16,
    }
}

/// The largest amount an 8-bit channel can drop by when quantized down to a
/// channel of largest value `max` and expanded back. For the exact divisor
/// 15 this is one quantization step less one; for 31 and 63 the floor in the
/// quantization can cost one more than the step `255 / max`.
pub open spec fn quant_err_bound(max: u16) -> int {
    if max == 1 {
        255
    } else if max == 15 {
        16
    } else if max == 31 {
        9
    } else {
        4
    }
}

/// Expanding a quantized channel comes back at or below the original value,
/// short of it by at most `quant_err_bound`.
pub proof fn lemma_expand_quant(v: u8, max: u16)
    requires
        max == 1 || max == 15 || max == 31 || max == 63,
    ensures
        expand(quant(v, max), max) <= v,
        v - expand(quant(v, max), max) <= quant_err_bound(max),
{
    if max == 1 {
        assert(expand(quant(v, 1), 1) <= v && v - expand(quant(v, 1), 1) <= 255) by (bit_vector);
    } else if max == 15 {
        assert(expand(quant(v, 15), 15) <= v && v - expand(quant(v, 15), 15) <= 16) by (
        bit_vector);
    } else if max == 31 {
        assert(expand(quant(v, 31), 31) <= v && v - expand(quant(v, 31), 31) <= 9) by (bit_vector);
    } else {
        assert(expand(quant(v, 63), 63) <= v && v - expand(quant(v, 63), 63) <= 4) by (bit_vector);
    }
}


} // verus!
