//! The pixel encode engine: little-endian primitive writers and one packing
//! routine per supported (bits-per-pixel, compression) combination.

use crate::pixel::BitmapPalette;
use crate::pixel::BitmapPixel;
use crate::pixel::spec_closest_index;
use crate::util::spec_mask_offset;
use crate::util::spec_mask_shifted;
use crate::util::spec_map_zero_based;
use crate::util::spec_pad_to_align;
use vstd::bytes::spec_u16_to_le_bytes;
use vstd::bytes::spec_u32_to_le_bytes;
use vstd::prelude::*;

verus! {

/// A run of `n` zero bytes.
pub open spec fn spec_zeros(n: int) -> Seq<u8> {
    Seq::new(n as nat, |i: int| 0u8)
}

/// The little-endian byte image of a signed 32-bit value: the bytes of its
/// two's-complement bit pattern.
pub open spec fn spec_i32_to_le_bytes(x: i32) -> Seq<u8> {
    spec_u32_to_le_bytes(x as u32)
}

/// The 32-bit bitfields word a pixel packs into: each channel byte shifted
/// to its mask's offset; the alpha bits are confined to the alpha mask, so
/// the same packing serves both ARGB and XRGB layouts.
pub open spec fn spec_enc_32bf_word(p: BitmapPixel, red_mask: u32, green_mask: u32, blue_mask: u32, alpha_mask: u32) -> u32 {
    ((p.red as u32) << (spec_mask_offset(red_mask) as u32)) | ((p.green as u32) << (
    spec_mask_offset(green_mask) as u32)) | ((p.blue as u32) << (spec_mask_offset(blue_mask) as u32))
        | (((p.alpha as u32) << (spec_mask_offset(alpha_mask) as u32)) & alpha_mask)
}

/// The encoded bytes of a 32-bit bitfields pixel stream: one little-endian
/// word per pixel, no row padding.
pub open spec fn spec_enc_32bf(pixels: Seq<BitmapPixel>, red_mask: u32, green_mask: u32, blue_mask: u32, alpha_mask: u32) -> Seq<u8>
    decreases pixels.len(),
{
    if pixels.len() == 0 {
        Seq::empty()
    } else {
        spec_u32_to_le_bytes(
            spec_enc_32bf_word(pixels[0], red_mask, green_mask, blue_mask, alpha_mask),
        ) + spec_enc_32bf(pixels.skip(1), red_mask, green_mask, blue_mask, alpha_mask)
    }
}

/// The encoded bytes of a 32-bit uncompressed pixel stream: blue, green,
/// red and a zero padding byte per pixel; alpha is dropped.
pub open spec fn spec_enc_32u(pixels: Seq<BitmapPixel>) -> Seq<u8>
    decreases pixels.len(),
{
    if pixels.len() == 0 {
        Seq::empty()
    } else {
        seq![pixels[0].blue, pixels[0].green, pixels[0].red, 0u8] + spec_enc_32u(pixels.skip(1))
    }
}

/// Writes 32-bit bitfields pixel data: packs the four channels of each
/// pixel at their mask offsets and appends the words in little-endian
/// order; the alpha channel is masked, so XRGB targets simply drop it.
pub fn write_32_bitfield(
    data: &mut Vec<u8>,
    pixels: &Vec<BitmapPixel>,
    red_mask: u32,
    green_mask: u32,
    blue_mask: u32,
    alpha_mask: u32,
)
    ensures
        final(data)@ == old(data)@ + spec_enc_32bf(
            pixels@,
            red_mask,
            green_mask,
            blue_mask,
            alpha_mask,
        ),
{
    let (red_offset, _) = crate::util::mask_offset_and_shifted(red_mask);
    let (green_offset, _) = crate::util::mask_offset_and_shifted(green_mask);
    let (blue_offset, _) = crate::util::mask_offset_and_shifted(blue_mask);
    let (alpha_offset, _) = crate::util::mask_offset_and_shifted(alpha_mask);
    let mut i: usize = 0;
    proof {
        assert(pixels@.skip(0) =~= pixels@);
    }
    while i < pixels.len()
        invariant
            i <= pixels@.len(),
            red_offset == spec_mask_offset(red_mask) && red_offset <= 31,
            green_offset == spec_mask_offset(green_mask) && green_offset <= 31,
            blue_offset == spec_mask_offset(blue_mask) && blue_offset <= 31,
            alpha_offset == spec_mask_offset(alpha_mask) && alpha_offset <= 31,
            data@ + spec_enc_32bf(pixels@.skip(i as int), red_mask, green_mask, blue_mask, alpha_mask)
                == old(data)@ + spec_enc_32bf(pixels@, red_mask, green_mask, blue_mask, alpha_mask),
        decreases pixels@.len() - i,
    {
        let pixel = pixels[i];
        let pixel_value: u32 = (pixel.red as u32) << (red_offset as u32) | (pixel.green as u32) << (
        green_offset as u32) | (pixel.blue as u32) << (blue_offset as u32) | (pixel.alpha as u32)
            << (alpha_offset as u32) & alpha_mask;
        let ghost rest = pixels@.skip(i as int);
        push_u32(data, pixel_value);
        proof {
            assert(pixel_value == spec_enc_32bf_word(
                pixels@[i as int],
                red_mask,
                green_mask,
                blue_mask,
                alpha_mask,
            ));
            assert(rest[0] == pixels@[i as int]);
            assert(rest.skip(1) =~= pixels@.skip(i as int + 1));
            assert(spec_enc_32bf(rest, red_mask, green_mask, blue_mask, alpha_mask)
                == spec_u32_to_le_bytes(
                spec_enc_32bf_word(pixels@[i as int], red_mask, green_mask, blue_mask, alpha_mask),
            ) + spec_enc_32bf(rest.skip(1), red_mask, green_mask, blue_mask, alpha_mask));
            assert(data@ + spec_enc_32bf(
                pixels@.skip(i as int + 1),
                red_mask,
                green_mask,
                blue_mask,
                alpha_mask,
            ) =~= old(data)@ + spec_enc_32bf(pixels@, red_mask, green_mask, blue_mask, alpha_mask));
        }
        i = i + 1;
    }
    proof {
        assert(data@ =~= data@ + spec_enc_32bf(
            pixels@.skip(pixels@.len() as int),
            red_mask,
            green_mask,
            blue_mask,
            alpha_mask,
        ));
    }
}

/// Writes 32-bit uncompressed pixel data: blue, green, red and a zero
/// padding byte per pixel; alpha is dropped.
pub fn write_32_uncompressed(data: &mut Vec<u8>, pixels: &Vec<BitmapPixel>)
    ensures
        final(data)@ == old(data)@ + spec_enc_32u(pixels@),
{
    let mut i: usize = 0;
    proof {
        assert(pixels@.skip(0) =~= pixels@);
    }
    while i < pixels.len()
        invariant
            i <= pixels@.len(),
            data@ + spec_enc_32u(pixels@.skip(i as int)) == old(data)@ + spec_enc_32u(pixels@),
        decreases pixels@.len() - i,
    {
        let pixel = pixels[i];
        let ghost rest = pixels@.skip(i as int);
        data.push(pixel.blue);
        data.push(pixel.green);
        data.push(pixel.red);
        data.push(0x00);
        proof {
            assert(rest[0] == pixels@[i as int]);
            assert(rest.skip(1) =~= pixels@.skip(i as int + 1));
            assert(spec_enc_32u(rest) == seq![
                pixels@[i as int].blue,
                pixels@[i as int].green,
                pixels@[i as int].red,
                0u8,
            ] + spec_enc_32u(rest.skip(1)));
            assert(data@ + spec_enc_32u(pixels@.skip(i as int + 1)) =~= old(data)@ + spec_enc_32u(
                pixels@,
            ));
        }
        i = i + 1;
    }
    proof {
        assert(data@ =~= data@ + spec_enc_32u(pixels@.skip(pixels@.len() as int)));
    }
}

/// Appends `n` zero bytes.
pub(crate) fn push_zero_bytes(data: &mut Vec<u8>, n: u64)
    ensures
        final(data)@ == old(data)@ + spec_zeros(n as int),
{
    let mut j: u64 = 0;
    proof {
        assert(data@ =~= data@ + spec_zeros(0));
    }
    while j < n
        invariant
            j <= n,
            data@ == old(data)@ + spec_zeros(j as int),
        decreases n - j,
    {
        data.push(0x00);
        proof {
            assert(data@ =~= old(data)@ + spec_zeros(j as int + 1));
        }
        j = j + 1;
    }
}

/// The encoded bytes of one row of a 24-bit uncompressed image: blue,
/// green and red per pixel.
pub open spec fn spec_enc_24_row(pixels: Seq<BitmapPixel>) -> Seq<u8>
    decreases pixels.len(),
{
    if pixels.len() == 0 {
        Seq::empty()
    } else {
        seq![pixels[0].blue, pixels[0].green, pixels[0].red] + spec_enc_24_row(pixels.skip(1))
    }
}

/// The encoded bytes of a 24-bit uncompressed image: `height` rows of
/// `width` pixels, each row padded with zero bytes to a 4-byte boundary.
pub open spec fn spec_enc_24(pixels: Seq<BitmapPixel>, width: int, height: int) -> Seq<u8>
    decreases height,
{
    if height <= 0 {
        Seq::empty()
    } else {
        spec_enc_24_row(pixels.take(width)) + spec_zeros(spec_pad_to_align(3 * width, 4))
            + spec_enc_24(pixels.skip(width), width, height - 1)
    }
}

/// Writes 24-bit uncompressed pixel data: blue, green and red per pixel,
/// each row of `image_width` pixels padded with zero bytes to a 4-byte
/// boundary.
#[verifier::rlimit(90)]
#[verifier::spinoff_prover]
pub fn write_24_uncompressed(
    data: &mut Vec<u8>,
    pixels: &Vec<BitmapPixel>,
    image_width: i32,
    image_height: i32,
)
    requires
        0 <= image_width,
        0 <= image_height,
        pixels@.len() == image_width as int * image_height as int,
    ensures
        final(data)@ == old(data)@ + spec_enc_24(pixels@, image_width as int, image_height as int),
{
    let width_u: u32 = image_width as u32;
    let height_u: u32 = image_height as u32;
    let used64: u64 = 3 * (width_u as u64);
    let pad64: u64 = crate::util::pad_to_align(used64, 4);
    // bind the length so the prover knows it fits a usize
    let _n_pixels: usize = pixels.len();
    let mut idx: usize = 0;
    let mut row: u32 = 0;
    proof {
        assert(pixels@.skip(0) =~= pixels@);
    }
    while row < height_u
        invariant
            row <= height_u,
            pixels@.len() <= usize::MAX,
            pixels@.len() == width_u as int * height_u as int,
            idx == row as int * (width_u as int),
            0 <= idx <= pixels@.len(),
            pad64 == spec_pad_to_align(3 * (width_u as int), 4),
            data@ + spec_enc_24(pixels@.skip(idx as int), width_u as int, height_u as int - row)
                == old(data)@ + spec_enc_24(pixels@, width_u as int, height_u as int),
        decreases height_u - row,
    {
        let ghost idx0 = idx as int;
        let ghost data_at_row = data@;
        proof {
            assert((row as int + 1) * (width_u as int) == row as int * (width_u as int) + (
            width_u as int)) by (nonlinear_arith);
            assert((row as int + 1) * (width_u as int) <= height_u as int * (width_u as int)) by (
            nonlinear_arith)
                requires
                    row as int + 1 <= height_u as int,
                    width_u as int >= 0,
            ;
            assert(height_u as int * (width_u as int) == width_u as int * (height_u as int)) by (
            nonlinear_arith);
        }
        let mut col: u32 = 0;
        while col < width_u
            invariant
                col <= width_u,
                idx == idx0 + col,
                0 <= idx0,
                pixels@.len() <= usize::MAX,
                idx0 + width_u as int <= pixels@.len(),
                data@ + spec_enc_24_row(pixels@.subrange(idx as int, idx0 + width_u as int))
                    == data_at_row + spec_enc_24_row(pixels@.subrange(idx0, idx0 + width_u as int)),
            decreases width_u - col,
        {
            let pixel = pixels[idx];
            let ghost cur = pixels@.subrange(idx as int, idx0 + width_u as int);
            data.push(pixel.blue);
            data.push(pixel.green);
            data.push(pixel.red);
            proof {
                assert(cur[0] == pixels@[idx as int]);
                assert(cur.skip(1) =~= pixels@.subrange(idx as int + 1, idx0 + width_u as int));
                assert(spec_enc_24_row(cur) == seq![cur[0].blue, cur[0].green, cur[0].red]
                    + spec_enc_24_row(cur.skip(1)));
                assert(data@ + spec_enc_24_row(
                    pixels@.subrange(idx as int + 1, idx0 + width_u as int),
                ) =~= data_at_row + spec_enc_24_row(pixels@.subrange(idx0, idx0 + width_u as int)));
            }
            idx = idx + 1;
            col = col + 1;
        }
        proof {
            assert(data@ =~= data@ + spec_enc_24_row(
                pixels@.subrange(idx as int, idx0 + width_u as int),
            ));
        }
        let ghost data_after_row = data@;
        push_zero_bytes(data, pad64);
        proof {
            let row_tail = pixels@.skip(idx0);
            assert(spec_enc_24(row_tail, width_u as int, height_u as int - row) == spec_enc_24_row(
                row_tail.take(width_u as int),
            ) + spec_zeros(spec_pad_to_align(3 * (width_u as int), 4)) + spec_enc_24(
                row_tail.skip(width_u as int),
                width_u as int,
                height_u as int - row - 1,
            ));
            assert(row_tail.take(width_u as int) =~= pixels@.subrange(idx0, idx0 + width_u as int));
            assert(row_tail.skip(width_u as int) =~= pixels@.skip(idx0 + width_u as int));
            assert(data@ =~= data_at_row + spec_enc_24_row(
                pixels@.subrange(idx0, idx0 + width_u as int),
            ) + spec_zeros(spec_pad_to_align(3 * (width_u as int), 4)));
            assert(data@ + spec_enc_24(
                pixels@.skip(idx as int),
                width_u as int,
                height_u as int - row - 1,
            ) =~= old(data)@ + spec_enc_24(pixels@, width_u as int, height_u as int));
        }
        row = row + 1;
    }
    proof {
        assert(data@ =~= data@ + spec_enc_24(pixels@.skip(idx as int), width_u as int, 0));
    }
}

/// The 16-bit bitfields word a pixel packs into: each channel is rescaled
/// from `0..=0xff` down to its mask's zero-based maximum, then shifted to
/// the mask's offset; the alpha bits are confined to the alpha mask.
pub open spec fn spec_enc_16bf_word(p: BitmapPixel, red_mask: u32, green_mask: u32, blue_mask: u32, alpha_mask: u32) -> u16 {
    ((spec_map_zero_based(p.red, 0xff, spec_mask_shifted(red_mask)) as u16) << (spec_mask_offset(
        red_mask,
    ) as u16)) | ((spec_map_zero_based(p.green, 0xff, spec_mask_shifted(green_mask)) as u16) << (
    spec_mask_offset(green_mask) as u16)) | ((spec_map_zero_based(
        p.blue,
        0xff,
        spec_mask_shifted(blue_mask),
    ) as u16) << (spec_mask_offset(blue_mask) as u16)) | (((spec_map_zero_based(
        p.alpha,
        0xff,
        spec_mask_shifted(alpha_mask),
    ) as u16) << (spec_mask_offset(alpha_mask) as u16)) & (alpha_mask as u16))
}

/// The encoded bytes of one row of a 16-bit bitfields image: one
/// little-endian word per pixel.
pub open spec fn spec_enc_16bf_row(pixels: Seq<BitmapPixel>, red_mask: u32, green_mask: u32, blue_mask: u32, alpha_mask: u32) -> Seq<u8>
    decreases pixels.len(),
{
    if pixels.len() == 0 {
        Seq::empty()
    } else {
        spec_u16_to_le_bytes(
            spec_enc_16bf_word(pixels[0], red_mask, green_mask, blue_mask, alpha_mask),
        ) + spec_enc_16bf_row(pixels.skip(1), red_mask, green_mask, blue_mask, alpha_mask)
    }
}

/// The encoded bytes of a 16-bit bitfields image: `height` rows of `width`
/// pixels, each row padded with zero bytes to a 4-byte boundary.
pub open spec fn spec_enc_16bf(pixels: Seq<BitmapPixel>, width: int, height: int, red_mask: u32, green_mask: u32, blue_mask: u32, alpha_mask: u32) -> Seq<u8>
    decreases height,
{
    if height <= 0 {
        Seq::empty()
    } else {
        spec_enc_16bf_row(pixels.take(width), red_mask, green_mask, blue_mask, alpha_mask)
            + spec_zeros(spec_pad_to_align(2 * width, 4)) + spec_enc_16bf(
            pixels.skip(width),
            width,
            height - 1,
            red_mask,
            green_mask,
            blue_mask,
            alpha_mask,
        )
    }
}

/// Writes 16-bit bitfields pixel data: rescales each channel from
/// `0..=0xff` down to its mask's zero-based maximum, packs the channels at
/// their mask offsets (the alpha bits confined to the alpha mask), and pads
/// each row of `image_width` pixels with zero bytes to a 4-byte boundary.
/// The masks must lie within the 16-bit pixel word.
#[verifier::rlimit(90)]
#[verifier::spinoff_prover]
pub fn write_16_bitfield(
    data: &mut Vec<u8>,
    pixels: &Vec<BitmapPixel>,
    image_width: i32,
    image_height: i32,
    red_mask: u32,
    green_mask: u32,
    blue_mask: u32,
    alpha_mask: u32,
)
    requires
        0 <= image_width,
        0 <= image_height,
        pixels@.len() == image_width as int * image_height as int,
        red_mask <= 0xffff,
        green_mask <= 0xffff,
        blue_mask <= 0xffff,
        alpha_mask <= 0xffff,
    ensures
        final(data)@ == old(data)@ + spec_enc_16bf(
            pixels@,
            image_width as int,
            image_height as int,
            red_mask,
            green_mask,
            blue_mask,
            alpha_mask,
        ),
{
    let width_u: u32 = image_width as u32;
    let height_u: u32 = image_height as u32;
    let used64: u64 = 2 * (width_u as u64);
    let pad64: u64 = crate::util::pad_to_align(used64, 4);
    let (red_offset, red_shifted) = crate::util::mask_offset_and_shifted(red_mask);
    let (green_offset, green_shifted) = crate::util::mask_offset_and_shifted(green_mask);
    let (blue_offset, blue_shifted) = crate::util::mask_offset_and_shifted(blue_mask);
    let (alpha_offset, alpha_shifted) = crate::util::mask_offset_and_shifted(alpha_mask);
    proof {
        crate::util::lemma_mask_offset_within_16(red_mask);
        crate::util::lemma_mask_offset_within_16(green_mask);
        crate::util::lemma_mask_offset_within_16(blue_mask);
        crate::util::lemma_mask_offset_within_16(alpha_mask);
    }
    // bind the length so the prover knows it fits a usize
    let _n_pixels: usize = pixels.len();
    let mut idx: usize = 0;
    let mut row: u32 = 0;
    proof {
        assert(pixels@.skip(0) =~= pixels@);
    }
    while row < height_u
        invariant
            row <= height_u,
            pixels@.len() <= usize::MAX,
            pixels@.len() == width_u as int * height_u as int,
            idx == row as int * (width_u as int),
            0 <= idx <= pixels@.len(),
            pad64 == spec_pad_to_align(2 * (width_u as int), 4),
            red_offset == spec_mask_offset(red_mask) && red_shifted
                == spec_mask_shifted(red_mask) && red_offset <= 15,
            green_offset == spec_mask_offset(green_mask) && green_shifted
                == spec_mask_shifted(green_mask) && green_offset <= 15,
            blue_offset == spec_mask_offset(blue_mask) && blue_shifted
                == spec_mask_shifted(blue_mask) && blue_offset <= 15,
            alpha_offset == spec_mask_offset(alpha_mask) && alpha_shifted
                == spec_mask_shifted(alpha_mask) && alpha_offset <= 15,
            alpha_mask <= 0xffff,
            data@ + spec_enc_16bf(
                pixels@.skip(idx as int),
                width_u as int,
                height_u as int - row,
                red_mask,
                green_mask,
                blue_mask,
                alpha_mask,
            ) == old(data)@ + spec_enc_16bf(
                pixels@,
                width_u as int,
                height_u as int,
                red_mask,
                green_mask,
                blue_mask,
                alpha_mask,
            ),
        decreases height_u - row,
    {
        let ghost idx0 = idx as int;
        let ghost data_at_row = data@;
        proof {
            assert((row as int + 1) * (width_u as int) == row as int * (width_u as int) + (
            width_u as int)) by (nonlinear_arith);
            assert((row as int + 1) * (width_u as int) <= height_u as int * (width_u as int)) by (
            nonlinear_arith)
                requires
                    row as int + 1 <= height_u as int,
                    width_u as int >= 0,
            ;
            assert(height_u as int * (width_u as int) == width_u as int * (height_u as int)) by (
            nonlinear_arith);
        }
        let mut col: u32 = 0;
        while col < width_u
            invariant
                col <= width_u,
                idx == idx0 + col,
                0 <= idx0,
                pixels@.len() <= usize::MAX,
                idx0 + width_u as int <= pixels@.len(),
                red_offset == spec_mask_offset(red_mask) && red_shifted
                    == spec_mask_shifted(red_mask) && red_offset <= 15,
                green_offset == spec_mask_offset(green_mask) && green_shifted
                    == spec_mask_shifted(green_mask) && green_offset <= 15,
                blue_offset == spec_mask_offset(blue_mask) && blue_shifted
                    == spec_mask_shifted(blue_mask) && blue_offset <= 15,
                alpha_offset == spec_mask_offset(alpha_mask) && alpha_shifted
                    == spec_mask_shifted(alpha_mask) && alpha_offset <= 15,
                alpha_mask <= 0xffff,
                data@ + spec_enc_16bf_row(
                    pixels@.subrange(idx as int, idx0 + width_u as int),
                    red_mask,
                    green_mask,
                    blue_mask,
                    alpha_mask,
                ) == data_at_row + spec_enc_16bf_row(
                    pixels@.subrange(idx0, idx0 + width_u as int),
                    red_mask,
                    green_mask,
                    blue_mask,
                    alpha_mask,
                ),
            decreases width_u - col,
        {
            let mut pixel = pixels[idx];
            let ghost cur = pixels@.subrange(idx as int, idx0 + width_u as int);
            crate::util::map_zero_based(&mut pixel.red, 0xff, red_shifted);
            crate::util::map_zero_based(&mut pixel.green, 0xff, green_shifted);
            crate::util::map_zero_based(&mut pixel.blue, 0xff, blue_shifted);
            crate::util::map_zero_based(&mut pixel.alpha, 0xff, alpha_shifted);
            let pixel_value: u16 = (pixel.red as u16) << (red_offset as u16) | (pixel.green as u16)
                << (green_offset as u16) | (pixel.blue as u16) << (blue_offset as u16) | (
            pixel.alpha as u16) << (alpha_offset as u16) & (alpha_mask as u16);
            push_u16(data, pixel_value);
            proof {
                assert(pixel_value == spec_enc_16bf_word(
                    pixels@[idx as int],
                    red_mask,
                    green_mask,
                    blue_mask,
                    alpha_mask,
                ));
                assert(cur[0] == pixels@[idx as int]);
                assert(cur.skip(1) =~= pixels@.subrange(idx as int + 1, idx0 + width_u as int));
                assert(spec_enc_16bf_row(cur, red_mask, green_mask, blue_mask, alpha_mask)
                    == spec_u16_to_le_bytes(
                    spec_enc_16bf_word(cur[0], red_mask, green_mask, blue_mask, alpha_mask),
                ) + spec_enc_16bf_row(
                    cur.skip(1),
                    red_mask,
                    green_mask,
                    blue_mask,
                    alpha_mask,
                ));
                assert(data@ + spec_enc_16bf_row(
                    pixels@.subrange(idx as int + 1, idx0 + width_u as int),
                    red_mask,
                    green_mask,
                    blue_mask,
                    alpha_mask,
                ) =~= data_at_row + spec_enc_16bf_row(
                    pixels@.subrange(idx0, idx0 + width_u as int),
                    red_mask,
                    green_mask,
                    blue_mask,
                    alpha_mask,
                ));
            }
            idx = idx + 1;
            col = col + 1;
        }
        proof {
            assert(data@ =~= data@ + spec_enc_16bf_row(
                pixels@.subrange(idx as int, idx0 + width_u as int),
                red_mask,
                green_mask,
                blue_mask,
                alpha_mask,
            ));
        }
        push_zero_bytes(data, pad64);
        proof {
            let row_tail = pixels@.skip(idx0);
            assert(spec_enc_16bf(
                row_tail,
                width_u as int,
                height_u as int - row,
                red_mask,
                green_mask,
                blue_mask,
                alpha_mask,
            ) == spec_enc_16bf_row(
                row_tail.take(width_u as int),
                red_mask,
                green_mask,
                blue_mask,
                alpha_mask,
            ) + spec_zeros(spec_pad_to_align(2 * (width_u as int), 4)) + spec_enc_16bf(
                row_tail.skip(width_u as int),
                width_u as int,
                height_u as int - row - 1,
                red_mask,
                green_mask,
                blue_mask,
                alpha_mask,
            ));
            assert(row_tail.take(width_u as int) =~= pixels@.subrange(idx0, idx0 + width_u as int));
            assert(row_tail.skip(width_u as int) =~= pixels@.skip(idx0 + width_u as int));
            assert(data@ =~= data_at_row + spec_enc_16bf_row(
                pixels@.subrange(idx0, idx0 + width_u as int),
                red_mask,
                green_mask,
                blue_mask,
                alpha_mask,
            ) + spec_zeros(spec_pad_to_align(2 * (width_u as int), 4)));
            assert(data@ + spec_enc_16bf(
                pixels@.skip(idx as int),
                width_u as int,
                height_u as int - row - 1,
                red_mask,
                green_mask,
                blue_mask,
                alpha_mask,
            ) =~= old(data)@ + spec_enc_16bf(
                pixels@,
                width_u as int,
                height_u as int,
                red_mask,
                green_mask,
                blue_mask,
                alpha_mask,
            ));
        }
        row = row + 1;
    }
    proof {
        assert(data@ =~= data@ + spec_enc_16bf(
            pixels@.skip(idx as int),
            width_u as int,
            0,
            red_mask,
            green_mask,
            blue_mask,
            alpha_mask,
        ));
    }
}

/// The encoded bytes of one row of an 8-bit indexed image: for each pixel,
/// the index of the nearest palette entry.
pub open spec fn spec_enc_8_row(pixels: Seq<BitmapPixel>, palette: Seq<BitmapPixel>) -> Seq<u8>
    decreases pixels.len(),
{
    if pixels.len() == 0 {
        Seq::empty()
    } else {
        seq![spec_closest_index(pixels[0], palette) as u8] + spec_enc_8_row(
            pixels.skip(1),
            palette,
        )
    }
}

/// The encoded bytes of an 8-bit indexed image: `height` rows of `width`
/// pixels, each row padded with zero bytes to a 4-byte boundary.
pub open spec fn spec_enc_8(pixels: Seq<BitmapPixel>, palette: Seq<BitmapPixel>, width: int, height: int) -> Seq<u8>
    decreases height,
{
    if height <= 0 {
        Seq::empty()
    } else {
        spec_enc_8_row(pixels.take(width), palette) + spec_zeros(spec_pad_to_align(width, 4))
            + spec_enc_8(pixels.skip(width), palette, width, height - 1)
    }
}

/// Writes 8-bit indexed pixel data: each pixel becomes the index of its
/// nearest palette entry, each row of `image_width` pixels padded with zero
/// bytes to a 4-byte boundary.  The palette must be non-empty and small
/// enough for every index to fit one byte.
#[verifier::rlimit(90)]
#[verifier::spinoff_prover]
pub fn write_8_uncompressed(
    data: &mut Vec<u8>,
    pixels: &Vec<BitmapPixel>,
    image_palette: &BitmapPalette,
    image_width: i32,
    image_height: i32,
)
    requires
        0 <= image_width,
        0 <= image_height,
        pixels@.len() == image_width as int * image_height as int,
        1 <= image_palette@.len() <= 256,
    ensures
        final(data)@ == old(data)@ + spec_enc_8(
            pixels@,
            image_palette@,
            image_width as int,
            image_height as int,
        ),
{
    let width_u: u32 = image_width as u32;
    let height_u: u32 = image_height as u32;
    let pad64: u64 = crate::util::pad_to_align(width_u as u64, 4);
    // bind the length so the prover knows it fits a usize
    let _n_pixels: usize = pixels.len();
    let mut idx: usize = 0;
    let mut row: u32 = 0;
    proof {
        assert(pixels@.skip(0) =~= pixels@);
    }
    while row < height_u
        invariant
            row <= height_u,
            pixels@.len() <= usize::MAX,
            pixels@.len() == width_u as int * height_u as int,
            idx == row as int * (width_u as int),
            0 <= idx <= pixels@.len(),
            1 <= image_palette@.len() <= 256,
            pad64 == spec_pad_to_align(width_u as int, 4),
            data@ + spec_enc_8(
                pixels@.skip(idx as int),
                image_palette@,
                width_u as int,
                height_u as int - row,
            ) == old(data)@ + spec_enc_8(
                pixels@,
                image_palette@,
                width_u as int,
                height_u as int,
            ),
        decreases height_u - row,
    {
        let ghost idx0 = idx as int;
        let ghost data_at_row = data@;
        proof {
            assert((row as int + 1) * (width_u as int) == row as int * (width_u as int) + (
            width_u as int)) by (nonlinear_arith);
            assert((row as int + 1) * (width_u as int) <= height_u as int * (width_u as int)) by (
            nonlinear_arith)
                requires
                    row as int + 1 <= height_u as int,
                    width_u as int >= 0,
            ;
            assert(height_u as int * (width_u as int) == width_u as int * (height_u as int)) by (
            nonlinear_arith);
        }
        let mut col: u32 = 0;
        while col < width_u
            invariant
                col <= width_u,
                idx == idx0 + col,
                0 <= idx0,
                pixels@.len() <= usize::MAX,
                idx0 + width_u as int <= pixels@.len(),
                1 <= image_palette@.len() <= 256,
                data@ + spec_enc_8_row(
                    pixels@.subrange(idx as int, idx0 + width_u as int),
                    image_palette@,
                ) == data_at_row + spec_enc_8_row(
                    pixels@.subrange(idx0, idx0 + width_u as int),
                    image_palette@,
                ),
            decreases width_u - col,
        {
            let pixel = pixels[idx];
            let ghost cur = pixels@.subrange(idx as int, idx0 + width_u as int);
            let palette_index = pixel.find_closest_by_index(image_palette) as u8;
            data.push(palette_index);
            proof {
                assert(cur[0] == pixels@[idx as int]);
                assert(cur.skip(1) =~= pixels@.subrange(idx as int + 1, idx0 + width_u as int));
                assert(spec_enc_8_row(cur, image_palette@) == seq![
                    spec_closest_index(cur[0], image_palette@) as u8,
                ] + spec_enc_8_row(cur.skip(1), image_palette@));
                assert(data@ + spec_enc_8_row(
                    pixels@.subrange(idx as int + 1, idx0 + width_u as int),
                    image_palette@,
                ) =~= data_at_row + spec_enc_8_row(
                    pixels@.subrange(idx0, idx0 + width_u as int),
                    image_palette@,
                ));
            }
            idx = idx + 1;
            col = col + 1;
        }
        proof {
            assert(data@ =~= data@ + spec_enc_8_row(
                pixels@.subrange(idx as int, idx0 + width_u as int),
                image_palette@,
            ));
        }
        push_zero_bytes(data, pad64);
        proof {
            let row_tail = pixels@.skip(idx0);
            assert(spec_enc_8(row_tail, image_palette@, width_u as int, height_u as int - row)
                == spec_enc_8_row(row_tail.take(width_u as int), image_palette@) + spec_zeros(
                spec_pad_to_align(width_u as int, 4),
            ) + spec_enc_8(
                row_tail.skip(width_u as int),
                image_palette@,
                width_u as int,
                height_u as int - row - 1,
            ));
            assert(row_tail.take(width_u as int) =~= pixels@.subrange(idx0, idx0 + width_u as int));
            assert(row_tail.skip(width_u as int) =~= pixels@.skip(idx0 + width_u as int));
            assert(data@ =~= data_at_row + spec_enc_8_row(
                pixels@.subrange(idx0, idx0 + width_u as int),
                image_palette@,
            ) + spec_zeros(spec_pad_to_align(width_u as int, 4)));
            assert(data@ + spec_enc_8(
                pixels@.skip(idx as int),
                image_palette@,
                width_u as int,
                height_u as int - row - 1,
            ) =~= old(data)@ + spec_enc_8(
                pixels@,
                image_palette@,
                width_u as int,
                height_u as int,
            ));
        }
        row = row + 1;
    }
    proof {
        assert(data@ =~= data@ + spec_enc_8(
            pixels@.skip(idx as int),
            image_palette@,
            width_u as int,
            0,
        ));
    }
}

/// The encoded bytes of one row of a 4-bit indexed image: nearest-palette
/// indices packed two per byte, high nibble first; an odd-width row leaves
/// the low nibble of its last byte zero.
pub open spec fn spec_enc_4_row(pixels: Seq<BitmapPixel>, palette: Seq<BitmapPixel>) -> Seq<u8>
    decreases pixels.len(),
{
    if pixels.len() == 0 {
        Seq::empty()
    } else if pixels.len() == 1 {
        seq![(spec_closest_index(pixels[0], palette) as u8) << 4u8]
    } else {
        seq![
            ((spec_closest_index(pixels[0], palette) as u8) << 4u8) | ((spec_closest_index(
                pixels[1],
                palette,
            ) as u8) & 0x0f),
        ] + spec_enc_4_row(pixels.skip(2), palette)
    }
}

/// The encoded bytes of a 4-bit indexed image: `height` rows of `width`
/// pixels, each row padded with zero bytes to a 4-byte boundary.
pub open spec fn spec_enc_4(pixels: Seq<BitmapPixel>, palette: Seq<BitmapPixel>, width: int, height: int) -> Seq<u8>
    decreases height,
{
    if height <= 0 {
        Seq::empty()
    } else {
        spec_enc_4_row(pixels.take(width), palette) + spec_zeros(
            spec_pad_to_align((width + 1) / 2, 4),
        ) + spec_enc_4(pixels.skip(width), palette, width, height - 1)
    }
}

/// Writes 4-bit indexed pixel data: each pixel becomes the index of its
/// nearest palette entry, packed two per byte with the high nibble first,
/// each row of `image_width` pixels padded with zero bytes to a 4-byte
/// boundary.  The palette must be non-empty and small enough for every
/// index to fit a nibble.
#[verifier::rlimit(90)]
#[verifier::spinoff_prover]
pub fn write_4_uncompressed(
    data: &mut Vec<u8>,
    pixels: &Vec<BitmapPixel>,
    image_palette: &BitmapPalette,
    image_width: i32,
    image_height: i32,
)
    requires
        0 <= image_width,
        0 <= image_height,
        pixels@.len() == image_width as int * image_height as int,
        1 <= image_palette@.len() <= 16,
    ensures
        final(data)@ == old(data)@ + spec_enc_4(
            pixels@,
            image_palette@,
            image_width as int,
            image_height as int,
        ),
{
    let width_u: u32 = image_width as u32;
    let height_u: u32 = image_height as u32;
    let used64: u64 = ((width_u as u64) + 1) / 2;
    let pad64: u64 = crate::util::pad_to_align(used64, 4);
    // bind the length so the prover knows it fits a usize
    let _n_pixels: usize = pixels.len();
    let mut idx: usize = 0;
    let mut row: u32 = 0;
    proof {
        assert(pixels@.skip(0) =~= pixels@);
    }
    while row < height_u
        invariant
            row <= height_u,
            pixels@.len() <= usize::MAX,
            pixels@.len() == width_u as int * height_u as int,
            idx == row as int * (width_u as int),
            0 <= idx <= pixels@.len(),
            1 <= image_palette@.len() <= 16,
            pad64 == spec_pad_to_align((width_u as int + 1) / 2, 4),
            data@ + spec_enc_4(
                pixels@.skip(idx as int),
                image_palette@,
                width_u as int,
                height_u as int - row,
            ) == old(data)@ + spec_enc_4(
                pixels@,
                image_palette@,
                width_u as int,
                height_u as int,
            ),
        decreases height_u - row,
    {
        let ghost idx0 = idx as int;
        let ghost data_at_row = data@;
        proof {
            assert((row as int + 1) * (width_u as int) == row as int * (width_u as int) + (
            width_u as int)) by (nonlinear_arith);
            assert((row as int + 1) * (width_u as int) <= height_u as int * (width_u as int)) by (
            nonlinear_arith)
                requires
                    row as int + 1 <= height_u as int,
                    width_u as int >= 0,
            ;
            assert(height_u as int * (width_u as int) == width_u as int * (height_u as int)) by (
            nonlinear_arith);
        }
        let mut col: u32 = 0;
        while col < width_u
            invariant
                col <= width_u,
                idx == idx0 + col,
                0 <= idx0,
                pixels@.len() <= usize::MAX,
                idx0 + width_u as int <= pixels@.len(),
                1 <= image_palette@.len() <= 16,
                data@ + spec_enc_4_row(
                    pixels@.subrange(idx as int, idx0 + width_u as int),
                    image_palette@,
                ) == data_at_row + spec_enc_4_row(
                    pixels@.subrange(idx0, idx0 + width_u as int),
                    image_palette@,
                ),
            decreases width_u - col,
        {
            let ghost cur = pixels@.subrange(idx as int, idx0 + width_u as int);
            let pixel0 = pixels[idx];
            let p0_index = pixel0.find_closest_by_index(image_palette) as u8;
            if col + 1 < width_u {
                let pixel1 = pixels[idx + 1];
                let p1_index = pixel1.find_closest_by_index(image_palette) as u8;
                let pixel_data: u8 = (p0_index << 4u8) | (p1_index & 0x0f);
                data.push(pixel_data);
                proof {
                    assert(cur[0] == pixels@[idx as int]);
                    assert(cur[1] == pixels@[idx as int + 1]);
                    assert(cur.skip(2) =~= pixels@.subrange(idx as int + 2, idx0 + width_u as int));
                    assert(spec_enc_4_row(cur, image_palette@) == seq![
                        ((spec_closest_index(cur[0], image_palette@) as u8) << 4u8) | ((
                        spec_closest_index(cur[1], image_palette@) as u8) & 0x0f),
                    ] + spec_enc_4_row(cur.skip(2), image_palette@));
                    assert(data@ + spec_enc_4_row(
                        pixels@.subrange(idx as int + 2, idx0 + width_u as int),
                        image_palette@,
                    ) =~= data_at_row + spec_enc_4_row(
                        pixels@.subrange(idx0, idx0 + width_u as int),
                        image_palette@,
                    ));
                }
                idx = idx + 2;
                col = col + 2;
            } else {
                let pixel_data: u8 = p0_index << 4u8;
                data.push(pixel_data);
                proof {
                    assert(cur.len() == 1);
                    assert(cur[0] == pixels@[idx as int]);
                    assert(spec_enc_4_row(cur, image_palette@) == seq![
                        (spec_closest_index(cur[0], image_palette@) as u8) << 4u8,
                    ]);
                    assert(pixels@.subrange(idx as int + 1, idx0 + width_u as int)
                        =~= Seq::<BitmapPixel>::empty());
                    assert(data@ + spec_enc_4_row(
                        pixels@.subrange(idx as int + 1, idx0 + width_u as int),
                        image_palette@,
                    ) =~= data_at_row + spec_enc_4_row(
                        pixels@.subrange(idx0, idx0 + width_u as int),
                        image_palette@,
                    ));
                }
                idx = idx + 1;
                col = col + 1;
            }
        }
        proof {
            assert(data@ =~= data@ + spec_enc_4_row(
                pixels@.subrange(idx as int, idx0 + width_u as int),
                image_palette@,
            ));
        }
        push_zero_bytes(data, pad64);
        proof {
            let row_tail = pixels@.skip(idx0);
            assert(spec_enc_4(row_tail, image_palette@, width_u as int, height_u as int - row)
                == spec_enc_4_row(row_tail.take(width_u as int), image_palette@) + spec_zeros(
                spec_pad_to_align((width_u as int + 1) / 2, 4),
            ) + spec_enc_4(
                row_tail.skip(width_u as int),
                image_palette@,
                width_u as int,
                height_u as int - row - 1,
            ));
            assert(row_tail.take(width_u as int) =~= pixels@.subrange(idx0, idx0 + width_u as int));
            assert(row_tail.skip(width_u as int) =~= pixels@.skip(idx0 + width_u as int));
            assert(data@ =~= data_at_row + spec_enc_4_row(
                pixels@.subrange(idx0, idx0 + width_u as int),
                image_palette@,
            ) + spec_zeros(spec_pad_to_align((width_u as int + 1) / 2, 4)));
            assert(data@ + spec_enc_4(
                pixels@.skip(idx as int),
                image_palette@,
                width_u as int,
                height_u as int - row - 1,
            ) =~= old(data)@ + spec_enc_4(
                pixels@,
                image_palette@,
                width_u as int,
                height_u as int,
            ));
        }
        row = row + 1;
    }
    proof {
        assert(data@ =~= data@ + spec_enc_4(
            pixels@.skip(idx as int),
            image_palette@,
            width_u as int,
            0,
        ));
    }
}

proof fn lemma_u8_or_assoc(a: u8, b: u8, c: u8)
    by (bit_vector)
    ensures
        (a | b) | c == a | (b | c),
{
}

proof fn lemma_u8_or_zero(a: u8)
    by (bit_vector)
    ensures
        a | 0 == a,
        0u8 | a == a,
{
}

/// The bits the pixels at positions `k` and beyond contribute to a packed
/// 1-bit byte: bit `7 - i` is set when the nearest palette entry of pixel
/// `i` is not entry zero.
pub open spec fn spec_byte_bits(palette: Seq<BitmapPixel>, pixels: Seq<BitmapPixel>, k: int) -> u8
    decreases 8 - k,
{
    if k < 0 || k >= 8 || k >= pixels.len() {
        0
    } else {
        (if spec_closest_index(pixels[k], palette) != 0 {
            (0x80u8 >> (k as u8))
        } else {
            0u8
        }) | spec_byte_bits(palette, pixels, k + 1)
    }
}

/// The byte a block of up to eight pixels packs into, most significant bit
/// first: a bit is set when the pixel's nearest palette entry is not entry
/// zero.
pub open spec fn spec_byte_from_pixels(palette: Seq<BitmapPixel>, pixels: Seq<BitmapPixel>) -> u8 {
    spec_byte_bits(palette, pixels, 0)
}

/// Packs a block of up to eight pixels into one byte, most significant bit
/// first: a bit is set when the pixel's nearest palette entry is not entry
/// zero.
pub fn byte_from_pixels(palette: &BitmapPalette, pixels: &[BitmapPixel]) -> (r: u8)
    requires
        1 <= palette@.len(),
        pixels@.len() <= 8,
    ensures
        r == spec_byte_from_pixels(palette@, pixels@),
{
    let mut mask: u8 = 0x80;
    let mut result: u8 = 0;
    let mut k: usize = 0;
    proof {
        assert(0x80u8 >> 0u8 == 0x80u8) by (bit_vector);
        lemma_u8_or_zero(spec_byte_bits(palette@, pixels@, 0));
    }
    while k < pixels.len()
        invariant
            k <= pixels@.len() <= 8,
            1 <= palette@.len(),
            k < 8 ==> mask == (0x80u8 >> (k as u8)),
            result | spec_byte_bits(palette@, pixels@, k as int) == spec_byte_bits(
                palette@,
                pixels@,
                0,
            ),
        decreases pixels@.len() - k,
    {
        let pixel = pixels[k];
        let p_index = pixel.find_closest_by_index(palette);
        let ghost result0 = result;
        let ghost bit_k: u8 = if spec_closest_index(pixels@[k as int], palette@) != 0 {
            (0x80u8 >> (k as u8))
        } else {
            0u8
        };
        if p_index != 0 {
            result = result | mask;
        }
        proof {
            assert(spec_byte_bits(palette@, pixels@, k as int) == bit_k | spec_byte_bits(
                palette@,
                pixels@,
                k as int + 1,
            ));
            if p_index != 0 {
                lemma_u8_or_assoc(result0, bit_k, spec_byte_bits(palette@, pixels@, k as int + 1));
            } else {
                lemma_u8_or_zero(spec_byte_bits(palette@, pixels@, k as int + 1));
            }
            if k + 1 < 8 {
                assert((0x80u8 >> (k as u8)) >> 1u8 == 0x80u8 >> ((k + 1) as u8)) by (bit_vector)
                    requires
                        k < 7,
                ;
            }
        }
        mask = mask >> 1;
        k = k + 1;
    }
    proof {
        assert(spec_byte_bits(palette@, pixels@, k as int) == 0);
        lemma_u8_or_zero(result);
    }
    result
}

/// The encoded bytes of one row of a 1-bit indexed image: eight pixels per
/// byte, most significant bit first; the unused low bits of a short final
/// block stay zero.
pub open spec fn spec_enc_1_row(pixels: Seq<BitmapPixel>, palette: Seq<BitmapPixel>) -> Seq<u8>
    decreases pixels.len(),
{
    if pixels.len() == 0 {
        Seq::empty()
    } else if pixels.len() >= 8 {
        seq![spec_byte_from_pixels(palette, pixels.take(8))] + spec_enc_1_row(
            pixels.skip(8),
            palette,
        )
    } else {
        seq![spec_byte_from_pixels(palette, pixels)]
    }
}

/// The encoded bytes of a 1-bit indexed image: `height` rows of `width`
/// pixels, each row padded with zero bytes to a 4-byte boundary.
pub open spec fn spec_enc_1(pixels: Seq<BitmapPixel>, palette: Seq<BitmapPixel>, width: int, height: int) -> Seq<u8>
    decreases height,
{
    if height <= 0 {
        Seq::empty()
    } else {
        spec_enc_1_row(pixels.take(width), palette) + spec_zeros(
            spec_pad_to_align((width + 7) / 8, 4),
        ) + spec_enc_1(pixels.skip(width), palette, width, height - 1)
    }
}

/// Writes 1-bit indexed pixel data: eight pixels per byte, most
/// significant bit first, a bit set when the pixel's nearest palette entry
/// is not entry zero, each row of `image_width` pixels padded with zero
/// bytes to a 4-byte boundary.
#[verifier::rlimit(100)]
#[verifier::spinoff_prover]
pub fn write_1_uncompressed(
    data: &mut Vec<u8>,
    pixels: &Vec<BitmapPixel>,
    image_palette: &BitmapPalette,
    image_width: i32,
    image_height: i32,
)
    requires
        0 <= image_width,
        0 <= image_height,
        pixels@.len() == image_width as int * image_height as int,
        1 <= image_palette@.len(),
    ensures
        final(data)@ == old(data)@ + spec_enc_1(
            pixels@,
            image_palette@,
            image_width as int,
            image_height as int,
        ),
{
    let width_u: u32 = image_width as u32;
    let height_u: u32 = image_height as u32;
    let used64: u64 = ((width_u as u64) + 7) / 8;
    let pad64: u64 = crate::util::pad_to_align(used64, 4);
    let full_bytes: u32 = width_u / 8;
    let remaining_pixels: u32 = width_u % 8;
    proof {
        vstd::arithmetic::div_mod::lemma_fundamental_div_mod(width_u as int, 8);
        vstd::arithmetic::div_mod::lemma_mod_bound(width_u as int, 8);
    }
    // bind the length so the prover knows it fits a usize
    let _n_pixels: usize = pixels.len();
    let mut idx: usize = 0;
    let mut row: u32 = 0;
    proof {
        assert(pixels@.skip(0) =~= pixels@);
    }
    while row < height_u
        invariant
            row <= height_u,
            pixels@.len() <= usize::MAX,
            pixels@.len() == width_u as int * height_u as int,
            idx == row as int * (width_u as int),
            0 <= idx <= pixels@.len(),
            1 <= image_palette@.len(),
            full_bytes == width_u as int / 8,
            remaining_pixels == width_u as int % 8,
            width_u as int == 8 * (full_bytes as int) + remaining_pixels,
            pad64 == spec_pad_to_align((width_u as int + 7) / 8, 4),
            data@ + spec_enc_1(
                pixels@.skip(idx as int),
                image_palette@,
                width_u as int,
                height_u as int - row,
            ) == old(data)@ + spec_enc_1(
                pixels@,
                image_palette@,
                width_u as int,
                height_u as int,
            ),
        decreases height_u - row,
    {
        let ghost idx0 = idx as int;
        let ghost data_at_row = data@;
        proof {
            assert((row as int + 1) * (width_u as int) == row as int * (width_u as int) + (
            width_u as int)) by (nonlinear_arith);
            assert((row as int + 1) * (width_u as int) <= height_u as int * (width_u as int)) by (
            nonlinear_arith)
                requires
                    row as int + 1 <= height_u as int,
                    width_u as int >= 0,
            ;
            assert(height_u as int * (width_u as int) == width_u as int * (height_u as int)) by (
            nonlinear_arith);
        }
        let mut k: u32 = 0;
        while k < full_bytes
            invariant
                k <= full_bytes,
                idx == idx0 + 8 * (k as int),
                0 <= idx0,
                pixels@.len() <= usize::MAX,
                idx0 + width_u as int <= pixels@.len(),
                1 <= image_palette@.len(),
                full_bytes == width_u as int / 8,
                width_u as int >= 8 * (full_bytes as int),
                data@ + spec_enc_1_row(
                    pixels@.subrange(idx as int, idx0 + width_u as int),
                    image_palette@,
                ) == data_at_row + spec_enc_1_row(
                    pixels@.subrange(idx0, idx0 + width_u as int),
                    image_palette@,
                ),
            decreases full_bytes - k,
        {
            proof {
                assert(8 * (k as int + 1) <= 8 * (full_bytes as int)) by (nonlinear_arith)
                    requires
                        k as int + 1 <= full_bytes as int,
                ;
            }
            let ghost cur = pixels@.subrange(idx as int, idx0 + width_u as int);
            let block = vstd::slice::slice_subrange(pixels.as_slice(), idx, idx + 8);
            let byte_data = byte_from_pixels(image_palette, block);
            data.push(byte_data);
            proof {
                assert(cur.take(8) =~= pixels@.subrange(idx as int, idx as int + 8));
                assert(block@ == pixels@.subrange(idx as int, idx as int + 8));
                assert(cur.skip(8) =~= pixels@.subrange(idx as int + 8, idx0 + width_u as int));
                assert(spec_enc_1_row(cur, image_palette@) == seq![
                    spec_byte_from_pixels(image_palette@, cur.take(8)),
                ] + spec_enc_1_row(cur.skip(8), image_palette@));
                assert(data@ + spec_enc_1_row(
                    pixels@.subrange(idx as int + 8, idx0 + width_u as int),
                    image_palette@,
                ) =~= data_at_row + spec_enc_1_row(
                    pixels@.subrange(idx0, idx0 + width_u as int),
                    image_palette@,
                ));
            }
            idx = idx + 8;
            k = k + 1;
        }
        if remaining_pixels > 0 {
            let ghost cur = pixels@.subrange(idx as int, idx0 + width_u as int);
            let block = vstd::slice::slice_subrange(
                pixels.as_slice(),
                idx,
                idx + remaining_pixels as usize,
            );
            let byte_data = byte_from_pixels(image_palette, block);
            data.push(byte_data);
            proof {
                assert(cur.len() == remaining_pixels);
                assert(block@ =~= cur);
                assert(spec_enc_1_row(cur, image_palette@) == seq![
                    spec_byte_from_pixels(image_palette@, cur),
                ]);
                assert(pixels@.subrange(
                    idx as int + remaining_pixels,
                    idx0 + width_u as int,
                ) =~= Seq::<BitmapPixel>::empty());
                assert(data@ + spec_enc_1_row(
                    pixels@.subrange(idx as int + remaining_pixels, idx0 + width_u as int),
                    image_palette@,
                ) =~= data_at_row + spec_enc_1_row(
                    pixels@.subrange(idx0, idx0 + width_u as int),
                    image_palette@,
                ));
            }
            idx = idx + remaining_pixels as usize;
        }
        proof {
            assert(idx == idx0 + width_u as int);
            assert(data@ =~= data@ + spec_enc_1_row(
                pixels@.subrange(idx as int, idx0 + width_u as int),
                image_palette@,
            ));
        }
        push_zero_bytes(data, pad64);
        proof {
            let row_tail = pixels@.skip(idx0);
            assert(spec_enc_1(row_tail, image_palette@, width_u as int, height_u as int - row)
                == spec_enc_1_row(row_tail.take(width_u as int), image_palette@) + spec_zeros(
                spec_pad_to_align((width_u as int + 7) / 8, 4),
            ) + spec_enc_1(
                row_tail.skip(width_u as int),
                image_palette@,
                width_u as int,
                height_u as int - row - 1,
            ));
            assert(row_tail.take(width_u as int) =~= pixels@.subrange(idx0, idx0 + width_u as int));
            assert(row_tail.skip(width_u as int) =~= pixels@.skip(idx0 + width_u as int));
            assert(data@ =~= data_at_row + spec_enc_1_row(
                pixels@.subrange(idx0, idx0 + width_u as int),
                image_palette@,
            ) + spec_zeros(spec_pad_to_align((width_u as int + 7) / 8, 4)));
            assert(data@ + spec_enc_1(
                pixels@.skip(idx as int),
                image_palette@,
                width_u as int,
                height_u as int - row - 1,
            ) =~= old(data)@ + spec_enc_1(
                pixels@,
                image_palette@,
                width_u as int,
                height_u as int,
            ));
        }
        row = row + 1;
    }
    proof {
        assert(data@ =~= data@ + spec_enc_1(
            pixels@.skip(idx as int),
            image_palette@,
            width_u as int,
            0,
        ));
    }
}

/// Appends the four little-endian bytes of `value`.
pub fn push_u32(v: &mut Vec<u8>, value: u32)
    ensures
        final(v)@ == old(v)@ + spec_u32_to_le_bytes(value),
{
    let mut bytes = vstd::bytes::u32_to_le_bytes(value);
    v.append(&mut bytes);
}

/// Appends the four little-endian bytes of `value`'s two's-complement bit
/// pattern.
pub fn push_i32(v: &mut Vec<u8>, value: i32)
    ensures
        final(v)@ == old(v)@ + spec_i32_to_le_bytes(value),
{
    push_u32(v, #[verifier::truncate] (value as u32));
}

/// Appends the two little-endian bytes of `value`.
pub fn push_u16(v: &mut Vec<u8>, value: u16)
    ensures
        final(v)@ == old(v)@ + spec_u16_to_le_bytes(value),
{
    let mut bytes = vstd::bytes::u16_to_le_bytes(value);
    v.append(&mut bytes);
}

} // verus!
