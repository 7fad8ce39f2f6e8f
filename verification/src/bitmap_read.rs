//! The pixel decode engine: one routine per supported (bits-per-pixel,
//! compression) combination.  Each routine consumes the byte cursor and
//! appends decoded pixels; its contract states the produced pixels exactly,
//! as a function of the bytes the cursor still held.

use crate::header::BitmapError;
use crate::pixel::BitmapPalette;
use crate::pixel::BitmapPixel;
use crate::util::spec_mask_offset;
use crate::walker::BytesWalker;
use vstd::bytes::spec_u32_from_le_bytes;
use vstd::prelude::*;

verus! {

/// The pixel a 32-bit bitfields word decodes to: each channel byte is taken
/// at its mask's offset; a zero alpha mask forces full opacity.
pub open spec fn spec_dec_32bf_pixel(word: u32, red_mask: u32, green_mask: u32, blue_mask: u32, alpha_mask: u32) -> BitmapPixel {
    BitmapPixel {
        blue: ((word >> (spec_mask_offset(blue_mask) as u32)) & 0xff) as u8,
        green: ((word >> (spec_mask_offset(green_mask) as u32)) & 0xff) as u8,
        red: ((word >> (spec_mask_offset(red_mask) as u32)) & 0xff) as u8,
        alpha: if alpha_mask == 0 {
            0xff
        } else {
            ((word >> (spec_mask_offset(alpha_mask) as u32)) & 0xff) as u8
        },
    }
}

/// The pixels a 32-bit bitfields stream decodes to: one per 4-byte
/// little-endian word, until the bytes run out.
pub open spec fn spec_dec_32bf(bytes: Seq<u8>, red_mask: u32, green_mask: u32, blue_mask: u32, alpha_mask: u32) -> Seq<BitmapPixel>
    decreases bytes.len(),
{
    if bytes.len() < 4 {
        Seq::empty()
    } else {
        seq![
            spec_dec_32bf_pixel(
                spec_u32_from_le_bytes(bytes.subrange(0, 4)),
                red_mask,
                green_mask,
                blue_mask,
                alpha_mask,
            ),
        ] + spec_dec_32bf(bytes.skip(4), red_mask, green_mask, blue_mask, alpha_mask)
    }
}

/// The pixel 4 bytes of a 32-bit uncompressed stream decode to: blue,
/// green, red, one padding byte; alpha is always full.
pub open spec fn spec_dec_32u_pixel(bytes: Seq<u8>) -> BitmapPixel {
    BitmapPixel { blue: bytes[0], green: bytes[1], red: bytes[2], alpha: 0xff }
}

/// The pixels a 32-bit uncompressed stream decodes to: one per 4 bytes,
/// until the bytes run out.
pub open spec fn spec_dec_32u(bytes: Seq<u8>) -> Seq<BitmapPixel>
    decreases bytes.len(),
{
    if bytes.len() < 4 {
        Seq::empty()
    } else {
        seq![spec_dec_32u_pixel(bytes)] + spec_dec_32u(bytes.skip(4))
    }
}

/// Reads 32-bit bitfields pixel data: a 4-byte word per pixel, channels
/// extracted at their mask offsets, no row padding.  Consumes the whole
/// rest of the buffer; fails if and only if that rest is not a whole number
/// of words, and then changes nothing.
pub fn read_32_bitfield(
    data_walker: &mut BytesWalker,
    result: &mut Vec<BitmapPixel>,
    red_mask: u32,
    green_mask: u32,
    blue_mask: u32,
    alpha_mask: u32,
) -> (r: Result<(), BitmapError>)
    requires
        old(data_walker).wf(),
    ensures
        final(data_walker).wf(),
        final(data_walker).bytes() == old(data_walker).bytes(),
        r == if old(data_walker).remaining() % 4 == 0 {
            Ok::<(), BitmapError>(())
        } else {
            Err::<(), BitmapError>(BitmapError::TruncatedData)
        },
        r is Ok ==> final(result)@ == old(result)@ + spec_dec_32bf(
            old(data_walker).remaining_bytes(),
            red_mask,
            green_mask,
            blue_mask,
            alpha_mask,
        ) && final(data_walker).remaining() == 0,
        r is Err ==> final(result)@ == old(result)@ && final(data_walker).index() == old(
            data_walker,
        ).index(),
{
    if data_walker.remaining_count() % 4 != 0 {
        return Err(BitmapError::TruncatedData);
    }
    let (red_offset, _) = crate::util::mask_offset_and_shifted(red_mask);
    let (green_offset, _) = crate::util::mask_offset_and_shifted(green_mask);
    let (blue_offset, _) = crate::util::mask_offset_and_shifted(blue_mask);
    let (alpha_offset, _) = crate::util::mask_offset_and_shifted(alpha_mask);
    while data_walker.has_data()
        invariant
            data_walker.wf(),
            data_walker.bytes() == old(data_walker).bytes(),
            data_walker.remaining() % 4 == 0,
            red_offset == spec_mask_offset(red_mask),
            green_offset == spec_mask_offset(green_mask),
            blue_offset == spec_mask_offset(blue_mask),
            alpha_offset == spec_mask_offset(alpha_mask),
            red_offset <= 31 && green_offset <= 31 && blue_offset <= 31 && alpha_offset <= 31,
            result@ + spec_dec_32bf(
                data_walker.remaining_bytes(),
                red_mask,
                green_mask,
                blue_mask,
                alpha_mask,
            ) == old(result)@ + spec_dec_32bf(
                old(data_walker).remaining_bytes(),
                red_mask,
                green_mask,
                blue_mask,
                alpha_mask,
            ),
        decreases data_walker.remaining(),
    {
        let ghost rem_before = data_walker.remaining_bytes();
        let pixel_value = data_walker.next_u32();
        let mut pixel = BitmapPixel {
            blue: ((pixel_value >> blue_offset as u32) & 0xff) as u8,
            green: ((pixel_value >> green_offset as u32) & 0xff) as u8,
            red: ((pixel_value >> red_offset as u32) & 0xff) as u8,
            alpha: ((pixel_value >> alpha_offset as u32) & 0xff) as u8,
        };
        if alpha_mask == 0x00 {
            pixel.alpha = 0xff;
        }
        proof {
            assert(rem_before.subrange(0, 4) =~= old(data_walker).bytes().subrange(
                data_walker.index() - 4,
                data_walker.index(),
            ));
            assert(data_walker.remaining_bytes() =~= rem_before.skip(4));
            assert(pixel == spec_dec_32bf_pixel(
                pixel_value,
                red_mask,
                green_mask,
                blue_mask,
                alpha_mask,
            ));
            assert(spec_dec_32bf(rem_before, red_mask, green_mask, blue_mask, alpha_mask)
                == seq![
                spec_dec_32bf_pixel(pixel_value, red_mask, green_mask, blue_mask, alpha_mask),
            ] + spec_dec_32bf(rem_before.skip(4), red_mask, green_mask, blue_mask, alpha_mask));
        }
        result.push(pixel);
    }
    proof {
        assert(result@ =~= result@ + spec_dec_32bf(
            data_walker.remaining_bytes(),
            red_mask,
            green_mask,
            blue_mask,
            alpha_mask,
        ));
    }
    Ok(())
}

/// One decoded row of a 24-bit uncompressed image: blue, green and red
/// bytes per pixel, alpha always full.
pub open spec fn spec_dec_24_row(bytes: Seq<u8>, width: int) -> Seq<BitmapPixel>
    decreases width,
{
    if width <= 0 {
        Seq::empty()
    } else {
        seq![BitmapPixel { blue: bytes[0], green: bytes[1], red: bytes[2], alpha: 0xff }]
            + spec_dec_24_row(bytes.skip(3), width - 1)
    }
}

/// The decoded grid of a 24-bit uncompressed image: `height` rows of
/// `width` pixels, each stored row padded to a 4-byte boundary.
pub open spec fn spec_dec_24(bytes: Seq<u8>, width: int, height: int) -> Seq<BitmapPixel>
    decreases height,
{
    if height <= 0 {
        Seq::empty()
    } else {
        spec_dec_24_row(bytes, width) + spec_dec_24(
            bytes.skip(crate::util::spec_row_bytes(width, 24)),
            width,
            height - 1,
        )
    }
}

/// Reads 24-bit uncompressed pixel data: blue, green and red bytes per
/// pixel, each row of `image_width` pixels padded to a 4-byte boundary,
/// alpha always full.  Fails if and only if the buffer cannot hold every
/// row (the padding of the last row may be missing), and then changes
/// nothing.
#[verifier::rlimit(90)]
#[verifier::spinoff_prover]
pub fn read_24_uncompressed(
    data_walker: &mut BytesWalker,
    result: &mut Vec<BitmapPixel>,
    image_width: i32,
    image_height: i32,
) -> (r: Result<(), BitmapError>)
    requires
        old(data_walker).wf(),
        old(data_walker).index() % 4 == 0,
        0 <= image_width,
        0 <= image_height,
    ensures
        final(data_walker).wf(),
        final(data_walker).bytes() == old(data_walker).bytes(),
        r == if old(data_walker).remaining() >= crate::util::spec_min_image_bytes(
            image_width as int,
            image_height as int,
            24,
        ) {
            Ok::<(), BitmapError>(())
        } else {
            Err::<(), BitmapError>(BitmapError::TruncatedData)
        },
        r is Ok ==> final(result)@ == old(result)@ + spec_dec_24(
            old(data_walker).remaining_bytes(),
            image_width as int,
            image_height as int,
        ),
        r is Err ==> final(result)@ == old(result)@ && final(data_walker).index() == old(
            data_walker,
        ).index(),
{
    let width_u: u32 = image_width as u32;
    let height_u: u32 = image_height as u32;
    let used64: u64 = 3 * (width_u as u64);
    let pad64: u64 = crate::util::pad_to_align(used64, 4);
    let stride64: u64 = used64 + pad64;
    proof {
        crate::util::lemma_row_bytes_24(width_u as int);
    }
    let ghost hi: int = height_u as int;
    let ghost si: int = stride64 as int;
    assert(hi >= 1 ==> 0 <= (hi - 1) * si <= 0x2_0000_0000_0000_0000 && (hi - 1) * si == si * (hi
        - 1)) by (nonlinear_arith)
        requires
            0 <= hi <= 0x8000_0000,
            0 <= si <= 0x4_0000_0000,
    ;
    let needed: u128 = if height_u == 0 {
        0
    } else {
        ((height_u - 1) as u128) * (stride64 as u128) + (used64 as u128)
    };
    assert(needed == crate::util::spec_min_image_bytes(
        image_width as int,
        image_height as int,
        24,
    ));
    if (data_walker.remaining_count() as u128) < needed {
        return Err(BitmapError::TruncatedData);
    }
    let ghost stride_int: int = stride64 as int;
    let mut row_index: u32 = 0;
    while row_index < height_u
        invariant
            data_walker.wf(),
            data_walker.bytes() == old(data_walker).bytes(),
            row_index <= height_u,
            used64 == 3 * (width_u as int),
            stride_int == stride64 as int,
            stride64 == crate::util::spec_row_bytes(width_u as int, 24),
            stride64 <= 0x4_0000_0000u64,
            pad64 == crate::util::spec_pad_to_align(used64 as int, 4),
            stride64 == used64 + pad64,
            result@ + spec_dec_24(
                data_walker.remaining_bytes(),
                width_u as int,
                height_u as int - row_index,
            ) == old(result)@ + spec_dec_24(
                old(data_walker).remaining_bytes(),
                width_u as int,
                height_u as int,
            ),
            row_index < height_u ==> data_walker.index() % 4 == 0 && data_walker.remaining()
                >= crate::util::spec_min_image_bytes(
                width_u as int,
                height_u as int - row_index,
                24,
            ),
        decreases height_u - row_index,
    {
        let ghost row_rem = data_walker.remaining_bytes();
        let ghost row_start = data_walker.index();
        let ghost res_at_row = result@;
        let ghost r_idx = row_index as int;
        proof {
            crate::util::lemma_row_bytes_24(width_u as int);
            assert(res_at_row + spec_dec_24(row_rem, width_u as int, height_u as int - r_idx) == old(
                result,
            )@ + spec_dec_24(
                old(data_walker).remaining_bytes(),
                width_u as int,
                height_u as int,
            ));
            assert(data_walker.remaining() >= stride_int * (height_u as int - r_idx - 1) + 3 * (
            width_u as int)) by {
                assert(crate::util::spec_min_image_bytes(
                    width_u as int,
                    height_u as int - r_idx,
                    24,
                ) == stride_int * (height_u as int - r_idx - 1) + 3 * (width_u as int));
            };
        }
        let mut col: u32 = 0;
        while col < width_u
            invariant
                data_walker.wf(),
                data_walker.bytes() == old(data_walker).bytes(),
                col <= width_u,
                0 <= row_start,
                0 <= r_idx < height_u,
                data_walker.index() == row_start + 3 * (col as int),
                row_rem == old(data_walker).bytes().skip(row_start),
                data_walker.remaining() >= stride_int * (height_u as int - r_idx - 1) + 3 * (
                width_u as int - col),
                stride_int * (height_u as int - r_idx - 1) >= 0,
                result@ + spec_dec_24_row(data_walker.remaining_bytes(), width_u as int - col)
                    == res_at_row + spec_dec_24_row(row_rem, width_u as int),
            decreases width_u - col,
        {
            let ghost rem_b = data_walker.remaining_bytes();
            let blue = data_walker.next_u8();
            let green = data_walker.next_u8();
            let red = data_walker.next_u8();
            let pixel = BitmapPixel { blue, green, red, alpha: 0xff };
            result.push(pixel);
            proof {
                assert(data_walker.remaining_bytes() =~= rem_b.skip(3));
                assert(spec_dec_24_row(rem_b, width_u as int - col) == seq![
                    BitmapPixel { blue: rem_b[0], green: rem_b[1], red: rem_b[2], alpha: 0xff },
                ] + spec_dec_24_row(rem_b.skip(3), width_u as int - col - 1));
                assert(pixel == (BitmapPixel {
                    blue: rem_b[0],
                    green: rem_b[1],
                    red: rem_b[2],
                    alpha: 0xff,
                }));
            }
            col = col + 1;
        }
        proof {
            assert(result@ =~= result@ + spec_dec_24_row(
                data_walker.remaining_bytes(),
                width_u as int - col,
            ));
            assert(result@ == res_at_row + spec_dec_24_row(row_rem, width_u as int));
            assert(data_walker.index() == row_start + used64);
            assert(row_start % 4 == 0);
            crate::util::lemma_pad_shift(row_start, used64 as int, 4);
            assert(crate::util::spec_pad_to_align(data_walker.index(), 4) == pad64 as int);
        }
        let ghost index_after_pixels = data_walker.index();
        data_walker.align_with_u32();
        proof {
            if r_idx < height_u as int - 1 {
                // every row but the last is followed by its full padding
                assert(data_walker.remaining() >= 0);
                assert(stride_int * (height_u as int - r_idx - 1) >= stride_int) by (
                nonlinear_arith)
                    requires
                        height_u as int - r_idx - 1 >= 1,
                        stride_int >= 0,
                ;
                assert(index_after_pixels + pad64 <= old(data_walker).bytes().len());
                assert(data_walker.index() == row_start + stride_int);
                assert(data_walker.remaining_bytes() =~= row_rem.skip(stride_int));
                assert(spec_dec_24(row_rem, width_u as int, height_u as int - r_idx)
                    == spec_dec_24_row(row_rem, width_u as int) + spec_dec_24(
                    row_rem.skip(stride_int),
                    width_u as int,
                    height_u as int - r_idx - 1,
                ));
                assert(stride_int * (height_u as int - r_idx - 1) - stride_int == stride_int * (
                height_u as int - r_idx - 2)) by (nonlinear_arith);
                assert(data_walker.remaining() >= crate::util::spec_min_image_bytes(
                    width_u as int,
                    height_u as int - r_idx - 1,
                    24,
                ));
                assert(data_walker.index() % 4 == 0) by {
                    vstd::arithmetic::div_mod::lemma_add_mod_noop(row_start, stride_int, 4);
                    vstd::arithmetic::div_mod::lemma_mod_twice(0, 4);
                };
            } else {
                // last row: the file may end inside the padding
                assert(height_u as int - r_idx - 1 == 0);
                assert(spec_dec_24(row_rem, width_u as int, 1) == spec_dec_24_row(
                    row_rem,
                    width_u as int,
                ) + spec_dec_24(
                    row_rem.skip(crate::util::spec_row_bytes(width_u as int, 24)),
                    width_u as int,
                    0,
                ));
                assert(spec_dec_24(row_rem, width_u as int, 1) =~= spec_dec_24_row(
                    row_rem,
                    width_u as int,
                ));
            }
            assert(result@ + spec_dec_24(
                data_walker.remaining_bytes(),
                width_u as int,
                height_u as int - r_idx - 1,
            ) == old(result)@ + spec_dec_24(
                old(data_walker).remaining_bytes(),
                width_u as int,
                height_u as int,
            ));
        }
        row_index = row_index + 1;
    }
    proof {
        assert(result@ =~= result@ + spec_dec_24(
            data_walker.remaining_bytes(),
            width_u as int,
            0,
        ));
    }
    Ok(())
}

/// The pixel a 16-bit uncompressed word decodes to: 5-5-5 packed
/// blue/green/red from the low 15 bits, each rescaled from `0..=0x1f` to
/// `0..=0xff`, alpha always full.
pub open spec fn spec_dec_16u_pixel(word: u16) -> BitmapPixel {
    BitmapPixel {
        blue: crate::util::spec_map_zero_based((word & 0x1f) as u8, 0x1f, 0xff),
        green: crate::util::spec_map_zero_based(((word >> 5) & 0x1f) as u8, 0x1f, 0xff),
        red: crate::util::spec_map_zero_based(((word >> 10) & 0x1f) as u8, 0x1f, 0xff),
        alpha: 0xff,
    }
}

/// One decoded row of a 16-bit uncompressed image.
pub open spec fn spec_dec_16u_row(bytes: Seq<u8>, width: int) -> Seq<BitmapPixel>
    decreases width,
{
    if width <= 0 {
        Seq::empty()
    } else {
        seq![spec_dec_16u_pixel(vstd::bytes::spec_u16_from_le_bytes(bytes.subrange(0, 2)))]
            + spec_dec_16u_row(bytes.skip(2), width - 1)
    }
}

/// The decoded grid of a 16-bit uncompressed image: `height` rows of
/// `width` pixels, each stored row padded to a 4-byte boundary.
pub open spec fn spec_dec_16u(bytes: Seq<u8>, width: int, height: int) -> Seq<BitmapPixel>
    decreases height,
{
    if height <= 0 {
        Seq::empty()
    } else {
        spec_dec_16u_row(bytes, width) + spec_dec_16u(
            bytes.skip(crate::util::spec_row_bytes(width, 16)),
            width,
            height - 1,
        )
    }
}

/// The pixel a 16-bit bitfields word decodes to: each channel is masked
/// out, shifted down, truncated to a byte and rescaled from the mask's
/// zero-based maximum to `0..=0xff`; a zero alpha mask forces full opacity.
pub open spec fn spec_dec_16bf_pixel(word: u16, red_mask: u32, green_mask: u32, blue_mask: u32, alpha_mask: u32) -> BitmapPixel {
    let w32 = word as u32;
    BitmapPixel {
        blue: crate::util::spec_map_zero_based(
            (((w32 & blue_mask) >> (spec_mask_offset(blue_mask) as u32)) as u8),
            crate::util::spec_mask_shifted(blue_mask),
            0xff,
        ),
        green: crate::util::spec_map_zero_based(
            (((w32 & green_mask) >> (spec_mask_offset(green_mask) as u32)) as u8),
            crate::util::spec_mask_shifted(green_mask),
            0xff,
        ),
        red: crate::util::spec_map_zero_based(
            (((w32 & red_mask) >> (spec_mask_offset(red_mask) as u32)) as u8),
            crate::util::spec_mask_shifted(red_mask),
            0xff,
        ),
        alpha: if alpha_mask == 0 {
            0xff
        } else {
            crate::util::spec_map_zero_based(
                (((w32 & alpha_mask) >> (spec_mask_offset(alpha_mask) as u32)) as u8),
                crate::util::spec_mask_shifted(alpha_mask),
                0xff,
            )
        },
    }
}

/// One decoded row of a 16-bit bitfields image.
pub open spec fn spec_dec_16bf_row(bytes: Seq<u8>, width: int, red_mask: u32, green_mask: u32, blue_mask: u32, alpha_mask: u32) -> Seq<BitmapPixel>
    decreases width,
{
    if width <= 0 {
        Seq::empty()
    } else {
        seq![
            spec_dec_16bf_pixel(
                vstd::bytes::spec_u16_from_le_bytes(bytes.subrange(0, 2)),
                red_mask,
                green_mask,
                blue_mask,
                alpha_mask,
            ),
        ] + spec_dec_16bf_row(bytes.skip(2), width - 1, red_mask, green_mask, blue_mask, alpha_mask)
    }
}

/// The decoded grid of a 16-bit bitfields image: `height` rows of `width`
/// pixels, each stored row padded to a 4-byte boundary.
pub open spec fn spec_dec_16bf(bytes: Seq<u8>, width: int, height: int, red_mask: u32, green_mask: u32, blue_mask: u32, alpha_mask: u32) -> Seq<BitmapPixel>
    decreases height,
{
    if height <= 0 {
        Seq::empty()
    } else {
        spec_dec_16bf_row(bytes, width, red_mask, green_mask, blue_mask, alpha_mask)
            + spec_dec_16bf(
            bytes.skip(crate::util::spec_row_bytes(width, 16)),
            width,
            height - 1,
            red_mask,
            green_mask,
            blue_mask,
            alpha_mask,
        )
    }
}


/// Reads one row of 16-bit uncompressed pixels, without the row padding.
#[verifier::rlimit(90)]
#[verifier::spinoff_prover]
fn read_16u_row(data_walker: &mut BytesWalker, result: &mut Vec<BitmapPixel>, image_width: u32)
    requires
        old(data_walker).wf(),
        old(data_walker).remaining() >= 2 * image_width,
    ensures
        final(data_walker).wf(),
        final(data_walker).bytes() == old(data_walker).bytes(),
        final(data_walker).index() == old(data_walker).index() + 2 * image_width,
        final(result)@ == old(result)@ + spec_dec_16u_row(
            old(data_walker).remaining_bytes(),
            image_width as int,
        ),
{
    let ghost row_rem = old(data_walker).remaining_bytes();
    let mut col: u32 = 0;
    while col < image_width
        invariant
            data_walker.wf(),
            data_walker.bytes() == old(data_walker).bytes(),
            col <= image_width,
            data_walker.index() == old(data_walker).index() + 2 * (col as int),
            old(data_walker).wf(),
            old(data_walker).remaining() >= 2 * image_width,
            row_rem == old(data_walker).remaining_bytes(),
            result@ + spec_dec_16u_row(data_walker.remaining_bytes(), image_width as int - col)
                == old(result)@ + spec_dec_16u_row(row_rem, image_width as int),
        decreases image_width - col,
    {
        let ghost rem_b = data_walker.remaining_bytes();
        let pixel_data = data_walker.next_u16();
        let mut pixel = BitmapPixel {
            blue: #[verifier::truncate] ((pixel_data & 0x1f) as u8),
            green: #[verifier::truncate] (((pixel_data >> 5) & 0x1f) as u8),
            red: #[verifier::truncate] (((pixel_data >> 10) & 0x1f) as u8),
            alpha: 0xff,
        };
        crate::util::map_zero_based(&mut pixel.red, 0x1f, 0xff);
        crate::util::map_zero_based(&mut pixel.green, 0x1f, 0xff);
        crate::util::map_zero_based(&mut pixel.blue, 0x1f, 0xff);
        result.push(pixel);
        proof {
            assert(rem_b.subrange(0, 2) =~= old(data_walker).bytes().subrange(
                data_walker.index() - 2,
                data_walker.index(),
            ));
            assert(data_walker.remaining_bytes() =~= rem_b.skip(2));
            assert(pixel == spec_dec_16u_pixel(pixel_data));
            assert(spec_dec_16u_row(rem_b, image_width as int - col) == seq![
                spec_dec_16u_pixel(pixel_data),
            ] + spec_dec_16u_row(rem_b.skip(2), image_width as int - col - 1));
        }
        col = col + 1;
    }
    proof {
        assert(result@ =~= result@ + spec_dec_16u_row(
            data_walker.remaining_bytes(),
            image_width as int - col,
        ));
    }
}

/// Reads 16-bit uncompressed pixel data: one little-endian word per pixel,
/// 5-5-5 packed blue/green/red rescaled to 8 bits, each row of
/// `image_width` pixels padded to a 4-byte boundary, alpha always full.
/// Fails if and only if the buffer cannot hold every row (the padding of
/// the last row may be missing), and then changes nothing.
#[verifier::rlimit(100)]
#[verifier::spinoff_prover]
pub fn read_16_uncompressed(
    data_walker: &mut BytesWalker,
    result: &mut Vec<BitmapPixel>,
    image_width: i32,
    image_height: i32,
) -> (r: Result<(), BitmapError>)
    requires
        old(data_walker).wf(),
        old(data_walker).index() % 4 == 0,
        0 <= image_width,
        0 <= image_height,
    ensures
        final(data_walker).wf(),
        final(data_walker).bytes() == old(data_walker).bytes(),
        r == if old(data_walker).remaining() >= crate::util::spec_min_image_bytes(
            image_width as int,
            image_height as int,
            16,
        ) {
            Ok::<(), BitmapError>(())
        } else {
            Err::<(), BitmapError>(BitmapError::TruncatedData)
        },
        r is Ok ==> final(result)@ == old(result)@ + spec_dec_16u(
            old(data_walker).remaining_bytes(),
            image_width as int,
            image_height as int,
        ),
        r is Err ==> final(result)@ == old(result)@ && final(data_walker).index() == old(
            data_walker,
        ).index(),
{
    let width_u: u32 = image_width as u32;
    let height_u: u32 = image_height as u32;
    let used64: u64 = 2 * (width_u as u64);
    let pad64: u64 = crate::util::pad_to_align(used64, 4);
    let stride64: u64 = used64 + pad64;
    proof {
        crate::util::lemma_row_bytes_16(width_u as int);
    }
    let ghost hi: int = height_u as int;
    let ghost si: int = stride64 as int;
    assert(hi >= 1 ==> 0 <= (hi - 1) * si <= 0x2_0000_0000_0000_0000 && (hi - 1) * si == si * (hi
        - 1)) by (nonlinear_arith)
        requires
            0 <= hi <= 0x8000_0000,
            0 <= si <= 0x4_0000_0000,
    ;
    let needed: u128 = if height_u == 0 {
        0
    } else {
        ((height_u - 1) as u128) * (stride64 as u128) + (used64 as u128)
    };
    assert(needed == crate::util::spec_min_image_bytes(
        image_width as int,
        image_height as int,
        16,
    ));
    if (data_walker.remaining_count() as u128) < needed {
        return Err(BitmapError::TruncatedData);
    }
    let ghost stride_int: int = stride64 as int;
    let mut row_index: u32 = 0;
    while row_index < height_u
        invariant
            data_walker.wf(),
            data_walker.bytes() == old(data_walker).bytes(),
            row_index <= height_u,
            used64 == 2 * (width_u as int),
            stride_int == stride64 as int,
            stride64 == crate::util::spec_row_bytes(width_u as int, 16),
            stride64 <= 0x4_0000_0000u64,
            pad64 == crate::util::spec_pad_to_align(used64 as int, 4),
            stride64 == used64 + pad64,
            result@ + spec_dec_16u(
                data_walker.remaining_bytes(),
                width_u as int,
                height_u as int - row_index,
            ) == old(result)@ + spec_dec_16u(
                old(data_walker).remaining_bytes(),
                width_u as int,
                height_u as int,
            ),
            row_index < height_u ==> data_walker.index() % 4 == 0 && data_walker.remaining()
                >= crate::util::spec_min_image_bytes(
                width_u as int,
                height_u as int - row_index,
                16,
            ),
        decreases height_u - row_index,
    {
        let ghost row_rem = data_walker.remaining_bytes();
        let ghost row_start = data_walker.index();
        let ghost res_at_row = result@;
        let ghost r_idx = row_index as int;
        proof {
            crate::util::lemma_row_bytes_16(width_u as int);
            assert(res_at_row + spec_dec_16u(row_rem, width_u as int, height_u as int - r_idx)
                == old(result)@ + spec_dec_16u(
                old(data_walker).remaining_bytes(),
                width_u as int,
                height_u as int,
            ));
            assert(data_walker.remaining() >= stride_int * (height_u as int - r_idx - 1) + 2 * (
            width_u as int)) by {
                assert(crate::util::spec_min_image_bytes(
                    width_u as int,
                    height_u as int - r_idx,
                    16,
                ) == stride_int * (height_u as int - r_idx - 1) + 2 * (width_u as int));
            };
        }
        proof {
            assert(stride_int * (height_u as int - r_idx - 1) >= 0) by (nonlinear_arith)
                requires
                    height_u as int - r_idx - 1 >= 0,
                    stride_int >= 0,
            ;
        }
        read_16u_row(data_walker, result, width_u);
        proof {
            assert(result@ == res_at_row + spec_dec_16u_row(row_rem, width_u as int));
            assert(data_walker.index() == row_start + used64);
            assert(row_start % 4 == 0);
            crate::util::lemma_pad_shift(row_start, used64 as int, 4);
            assert(crate::util::spec_pad_to_align(data_walker.index(), 4) == pad64 as int);
        }
        let ghost index_after_pixels = data_walker.index();
        data_walker.align_with_u32();
        proof {
            if r_idx < height_u as int - 1 {
                assert(stride_int * (height_u as int - r_idx - 1) >= stride_int) by (
                nonlinear_arith)
                    requires
                        height_u as int - r_idx - 1 >= 1,
                        stride_int >= 0,
                ;
                assert(index_after_pixels + pad64 <= old(data_walker).bytes().len());
                assert(data_walker.index() == row_start + stride_int);
                assert(data_walker.remaining_bytes() =~= row_rem.skip(stride_int));
                assert(spec_dec_16u(row_rem, width_u as int, height_u as int - r_idx)
                    == spec_dec_16u_row(row_rem, width_u as int) + spec_dec_16u(
                    row_rem.skip(stride_int),
                    width_u as int,
                    height_u as int - r_idx - 1,
                ));
                assert(stride_int * (height_u as int - r_idx - 1) - stride_int == stride_int * (
                height_u as int - r_idx - 2)) by (nonlinear_arith);
                assert(data_walker.remaining() >= crate::util::spec_min_image_bytes(
                    width_u as int,
                    height_u as int - r_idx - 1,
                    16,
                ));
                assert(data_walker.index() % 4 == 0) by {
                    vstd::arithmetic::div_mod::lemma_add_mod_noop(row_start, stride_int, 4);
                    vstd::arithmetic::div_mod::lemma_mod_twice(0, 4);
                };
            } else {
                assert(height_u as int - r_idx - 1 == 0);
                assert(spec_dec_16u(row_rem, width_u as int, 1) == spec_dec_16u_row(
                    row_rem,
                    width_u as int,
                ) + spec_dec_16u(
                    row_rem.skip(crate::util::spec_row_bytes(width_u as int, 16)),
                    width_u as int,
                    0,
                ));
                assert(spec_dec_16u(row_rem, width_u as int, 1) =~= spec_dec_16u_row(
                    row_rem,
                    width_u as int,
                ));
            }
            assert(result@ + spec_dec_16u(
                data_walker.remaining_bytes(),
                width_u as int,
                height_u as int - r_idx - 1,
            ) == old(result)@ + spec_dec_16u(
                old(data_walker).remaining_bytes(),
                width_u as int,
                height_u as int,
            ));
        }
        row_index = row_index + 1;
    }
    proof {
        assert(result@ =~= result@ + spec_dec_16u(
            data_walker.remaining_bytes(),
            width_u as int,
            0,
        ));
    }
    Ok(())
}

/// Reads 16-bit bitfields pixel data: one little-endian word per pixel,
/// channels extracted through the masks and rescaled from each mask's
/// zero-based maximum to 8 bits, each row of `image_width` pixels padded to
/// a 4-byte boundary; a zero alpha mask forces full opacity.  Fails if and
/// only if the buffer cannot hold every row (the padding of the last row
/// may be missing), and then changes nothing.
#[verifier::rlimit(90)]
#[verifier::spinoff_prover]
pub fn read_16_bitfield(
    data_walker: &mut BytesWalker,
    result: &mut Vec<BitmapPixel>,
    image_width: i32,
    image_height: i32,
    red_mask: u32,
    green_mask: u32,
    blue_mask: u32,
    alpha_mask: u32,
) -> (r: Result<(), BitmapError>)
    requires
        old(data_walker).wf(),
        old(data_walker).index() % 4 == 0,
        0 <= image_width,
        0 <= image_height,
    ensures
        final(data_walker).wf(),
        final(data_walker).bytes() == old(data_walker).bytes(),
        r == if old(data_walker).remaining() >= crate::util::spec_min_image_bytes(
            image_width as int,
            image_height as int,
            16,
        ) {
            Ok::<(), BitmapError>(())
        } else {
            Err::<(), BitmapError>(BitmapError::TruncatedData)
        },
        r is Ok ==> final(result)@ == old(result)@ + spec_dec_16bf(
            old(data_walker).remaining_bytes(),
            image_width as int,
            image_height as int,
            red_mask,
            green_mask,
            blue_mask,
            alpha_mask,
        ),
        r is Err ==> final(result)@ == old(result)@ && final(data_walker).index() == old(
            data_walker,
        ).index(),
{
    let width_u: u32 = image_width as u32;
    let height_u: u32 = image_height as u32;
    let used64: u64 = 2 * (width_u as u64);
    let pad64: u64 = crate::util::pad_to_align(used64, 4);
    let stride64: u64 = used64 + pad64;
    proof {
        crate::util::lemma_row_bytes_16(width_u as int);
    }
    let ghost hi: int = height_u as int;
    let ghost si: int = stride64 as int;
    assert(hi >= 1 ==> 0 <= (hi - 1) * si <= 0x2_0000_0000_0000_0000 && (hi - 1) * si == si * (hi
        - 1)) by (nonlinear_arith)
        requires
            0 <= hi <= 0x8000_0000,
            0 <= si <= 0x4_0000_0000,
    ;
    let needed: u128 = if height_u == 0 {
        0
    } else {
        ((height_u - 1) as u128) * (stride64 as u128) + (used64 as u128)
    };
    assert(needed == crate::util::spec_min_image_bytes(
        image_width as int,
        image_height as int,
        16,
    ));
    if (data_walker.remaining_count() as u128) < needed {
        return Err(BitmapError::TruncatedData);
    }
    let (red_offset, red_shifted) = crate::util::mask_offset_and_shifted(red_mask);
    let (green_offset, green_shifted) = crate::util::mask_offset_and_shifted(green_mask);
    let (blue_offset, blue_shifted) = crate::util::mask_offset_and_shifted(blue_mask);
    let (alpha_offset, alpha_shifted) = crate::util::mask_offset_and_shifted(alpha_mask);
    let ghost stride_int: int = stride64 as int;
    let mut row_index: u32 = 0;
    while row_index < height_u
        invariant
            data_walker.wf(),
            data_walker.bytes() == old(data_walker).bytes(),
            row_index <= height_u,
            used64 == 2 * (width_u as int),
            stride_int == stride64 as int,
            stride64 == crate::util::spec_row_bytes(width_u as int, 16),
            stride64 <= 0x4_0000_0000u64,
            pad64 == crate::util::spec_pad_to_align(used64 as int, 4),
            stride64 == used64 + pad64,
            red_offset == spec_mask_offset(red_mask) && red_shifted
                == crate::util::spec_mask_shifted(red_mask) && red_offset <= 31,
            green_offset == spec_mask_offset(green_mask) && green_shifted
                == crate::util::spec_mask_shifted(green_mask) && green_offset <= 31,
            blue_offset == spec_mask_offset(blue_mask) && blue_shifted
                == crate::util::spec_mask_shifted(blue_mask) && blue_offset <= 31,
            alpha_offset == spec_mask_offset(alpha_mask) && alpha_shifted
                == crate::util::spec_mask_shifted(alpha_mask) && alpha_offset <= 31,
            result@ + spec_dec_16bf(
                data_walker.remaining_bytes(),
                width_u as int,
                height_u as int - row_index,
                red_mask,
                green_mask,
                blue_mask,
                alpha_mask,
            ) == old(result)@ + spec_dec_16bf(
                old(data_walker).remaining_bytes(),
                width_u as int,
                height_u as int,
                red_mask,
                green_mask,
                blue_mask,
                alpha_mask,
            ),
            row_index < height_u ==> data_walker.index() % 4 == 0 && data_walker.remaining()
                >= crate::util::spec_min_image_bytes(
                width_u as int,
                height_u as int - row_index,
                16,
            ),
        decreases height_u - row_index,
    {
        let ghost row_rem = data_walker.remaining_bytes();
        let ghost row_start = data_walker.index();
        let ghost res_at_row = result@;
        let ghost r_idx = row_index as int;
        proof {
            crate::util::lemma_row_bytes_16(width_u as int);
            assert(res_at_row + spec_dec_16bf(
                row_rem,
                width_u as int,
                height_u as int - r_idx,
                red_mask,
                green_mask,
                blue_mask,
                alpha_mask,
            ) == old(result)@ + spec_dec_16bf(
                old(data_walker).remaining_bytes(),
                width_u as int,
                height_u as int,
                red_mask,
                green_mask,
                blue_mask,
                alpha_mask,
            ));
            assert(data_walker.remaining() >= stride_int * (height_u as int - r_idx - 1) + 2 * (
            width_u as int)) by {
                assert(crate::util::spec_min_image_bytes(
                    width_u as int,
                    height_u as int - r_idx,
                    16,
                ) == stride_int * (height_u as int - r_idx - 1) + 2 * (width_u as int));
            };
        }
        let mut col: u32 = 0;
        while col < width_u
            invariant
                data_walker.wf(),
                data_walker.bytes() == old(data_walker).bytes(),
                col <= width_u,
                0 <= row_start,
                0 <= r_idx < height_u,
                data_walker.index() == row_start + 2 * (col as int),
                row_rem == old(data_walker).bytes().skip(row_start),
                data_walker.remaining() >= stride_int * (height_u as int - r_idx - 1) + 2 * (
                width_u as int - col),
                stride_int * (height_u as int - r_idx - 1) >= 0,
                red_offset == spec_mask_offset(red_mask) && red_shifted
                    == crate::util::spec_mask_shifted(red_mask) && red_offset <= 31,
                green_offset == spec_mask_offset(green_mask) && green_shifted
                    == crate::util::spec_mask_shifted(green_mask) && green_offset <= 31,
                blue_offset == spec_mask_offset(blue_mask) && blue_shifted
                    == crate::util::spec_mask_shifted(blue_mask) && blue_offset <= 31,
                alpha_offset == spec_mask_offset(alpha_mask) && alpha_shifted
                    == crate::util::spec_mask_shifted(alpha_mask) && alpha_offset <= 31,
                result@ + spec_dec_16bf_row(
                    data_walker.remaining_bytes(),
                    width_u as int - col,
                    red_mask,
                    green_mask,
                    blue_mask,
                    alpha_mask,
                ) == res_at_row + spec_dec_16bf_row(
                    row_rem,
                    width_u as int,
                    red_mask,
                    green_mask,
                    blue_mask,
                    alpha_mask,
                ),
            decreases width_u - col,
        {
            let ghost rem_b = data_walker.remaining_bytes();
            let word = data_walker.next_u16();
            let pixel_value: u32 = word as u32;
            let mut pixel = BitmapPixel {
                blue: #[verifier::truncate] (((pixel_value & blue_mask) >> (blue_offset as u32)) as u8),
                green: #[verifier::truncate] (((pixel_value & green_mask) >> (green_offset as u32)) as u8),
                red: #[verifier::truncate] (((pixel_value & red_mask) >> (red_offset as u32)) as u8),
                alpha: #[verifier::truncate] (((pixel_value & alpha_mask) >> (alpha_offset as u32)) as u8),
            };
            crate::util::map_zero_based(&mut pixel.red, red_shifted, 0xff);
            crate::util::map_zero_based(&mut pixel.green, green_shifted, 0xff);
            crate::util::map_zero_based(&mut pixel.blue, blue_shifted, 0xff);
            crate::util::map_zero_based(&mut pixel.alpha, alpha_shifted, 0xff);
            if alpha_mask == 0x00 {
                pixel.alpha = 0xff;
            }
            result.push(pixel);
            proof {
                assert(rem_b.subrange(0, 2) =~= old(data_walker).bytes().subrange(
                    data_walker.index() - 2,
                    data_walker.index(),
                ));
                assert(data_walker.remaining_bytes() =~= rem_b.skip(2));
                assert(pixel == spec_dec_16bf_pixel(
                    word,
                    red_mask,
                    green_mask,
                    blue_mask,
                    alpha_mask,
                ));
                assert(spec_dec_16bf_row(
                    rem_b,
                    width_u as int - col,
                    red_mask,
                    green_mask,
                    blue_mask,
                    alpha_mask,
                ) == seq![spec_dec_16bf_pixel(word, red_mask, green_mask, blue_mask, alpha_mask)]
                    + spec_dec_16bf_row(
                    rem_b.skip(2),
                    width_u as int - col - 1,
                    red_mask,
                    green_mask,
                    blue_mask,
                    alpha_mask,
                ));
            }
            col = col + 1;
        }
        proof {
            assert(result@ =~= result@ + spec_dec_16bf_row(
                data_walker.remaining_bytes(),
                width_u as int - col,
                red_mask,
                green_mask,
                blue_mask,
                alpha_mask,
            ));
            assert(result@ == res_at_row + spec_dec_16bf_row(
                row_rem,
                width_u as int,
                red_mask,
                green_mask,
                blue_mask,
                alpha_mask,
            ));
            assert(data_walker.index() == row_start + used64);
            assert(row_start % 4 == 0);
            crate::util::lemma_pad_shift(row_start, used64 as int, 4);
            assert(crate::util::spec_pad_to_align(data_walker.index(), 4) == pad64 as int);
        }
        let ghost index_after_pixels = data_walker.index();
        data_walker.align_with_u32();
        proof {
            if r_idx < height_u as int - 1 {
                assert(stride_int * (height_u as int - r_idx - 1) >= stride_int) by (
                nonlinear_arith)
                    requires
                        height_u as int - r_idx - 1 >= 1,
                        stride_int >= 0,
                ;
                assert(index_after_pixels + pad64 <= old(data_walker).bytes().len());
                assert(data_walker.index() == row_start + stride_int);
                assert(data_walker.remaining_bytes() =~= row_rem.skip(stride_int));
                assert(spec_dec_16bf(
                    row_rem,
                    width_u as int,
                    height_u as int - r_idx,
                    red_mask,
                    green_mask,
                    blue_mask,
                    alpha_mask,
                ) == spec_dec_16bf_row(
                    row_rem,
                    width_u as int,
                    red_mask,
                    green_mask,
                    blue_mask,
                    alpha_mask,
                ) + spec_dec_16bf(
                    row_rem.skip(stride_int),
                    width_u as int,
                    height_u as int - r_idx - 1,
                    red_mask,
                    green_mask,
                    blue_mask,
                    alpha_mask,
                ));
                assert(stride_int * (height_u as int - r_idx - 1) - stride_int == stride_int * (
                height_u as int - r_idx - 2)) by (nonlinear_arith);
                assert(data_walker.remaining() >= crate::util::spec_min_image_bytes(
                    width_u as int,
                    height_u as int - r_idx - 1,
                    16,
                ));
                assert(data_walker.index() % 4 == 0) by {
                    vstd::arithmetic::div_mod::lemma_add_mod_noop(row_start, stride_int, 4);
                    vstd::arithmetic::div_mod::lemma_mod_twice(0, 4);
                };
            } else {
                assert(height_u as int - r_idx - 1 == 0);
                assert(spec_dec_16bf(
                    row_rem,
                    width_u as int,
                    1,
                    red_mask,
                    green_mask,
                    blue_mask,
                    alpha_mask,
                ) == spec_dec_16bf_row(
                    row_rem,
                    width_u as int,
                    red_mask,
                    green_mask,
                    blue_mask,
                    alpha_mask,
                ) + spec_dec_16bf(
                    row_rem.skip(crate::util::spec_row_bytes(width_u as int, 16)),
                    width_u as int,
                    0,
                    red_mask,
                    green_mask,
                    blue_mask,
                    alpha_mask,
                ));
                assert(spec_dec_16bf(
                    row_rem,
                    width_u as int,
                    1,
                    red_mask,
                    green_mask,
                    blue_mask,
                    alpha_mask,
                ) =~= spec_dec_16bf_row(
                    row_rem,
                    width_u as int,
                    red_mask,
                    green_mask,
                    blue_mask,
                    alpha_mask,
                ));
            }
            assert(result@ + spec_dec_16bf(
                data_walker.remaining_bytes(),
                width_u as int,
                height_u as int - r_idx - 1,
                red_mask,
                green_mask,
                blue_mask,
                alpha_mask,
            ) == old(result)@ + spec_dec_16bf(
                old(data_walker).remaining_bytes(),
                width_u as int,
                height_u as int,
                red_mask,
                green_mask,
                blue_mask,
                alpha_mask,
            ));
        }
        row_index = row_index + 1;
    }
    proof {
        assert(result@ =~= result@ + spec_dec_16bf(
            data_walker.remaining_bytes(),
            width_u as int,
            0,
            red_mask,
            green_mask,
            blue_mask,
            alpha_mask,
        ));
    }
    Ok(())
}

/// One decoded row of an 8-bit indexed image: each byte is an index into
/// the palette.
pub open spec fn spec_dec_8_row(bytes: Seq<u8>, palette: Seq<BitmapPixel>, width: int) -> Seq<
    BitmapPixel,
>
    decreases width,
{
    if width <= 0 {
        Seq::empty()
    } else {
        seq![palette[bytes[0] as int]] + spec_dec_8_row(bytes.skip(1), palette, width - 1)
    }
}

/// The decoded grid of an 8-bit indexed image: `height` rows of `width`
/// pixels, each stored row padded to a 4-byte boundary.
pub open spec fn spec_dec_8(bytes: Seq<u8>, palette: Seq<BitmapPixel>, width: int, height: int) -> Seq<BitmapPixel>
    decreases height,
{
    if height <= 0 {
        Seq::empty()
    } else {
        spec_dec_8_row(bytes, palette, width) + spec_dec_8(
            bytes.skip(crate::util::spec_row_bytes(width, 8)),
            palette,
            width,
            height - 1,
        )
    }
}

/// Reads 8-bit indexed pixel data: one palette index per byte, each row of
/// `image_width` pixels padded to a 4-byte boundary.  The palette must hold
/// an entry for every possible index.  Fails if and only if the buffer
/// cannot hold every row (the padding of the last row may be missing), and
/// then changes nothing.
#[verifier::rlimit(90)]
#[verifier::spinoff_prover]
pub fn read_8_uncompressed(
    data_walker: &mut BytesWalker,
    result: &mut Vec<BitmapPixel>,
    image_width: i32,
    image_height: i32,
    image_palette: &BitmapPalette,
) -> (r: Result<(), BitmapError>)
    requires
        old(data_walker).wf(),
        old(data_walker).index() % 4 == 0,
        0 <= image_width,
        0 <= image_height,
        image_palette@.len() >= 256,
    ensures
        final(data_walker).wf(),
        final(data_walker).bytes() == old(data_walker).bytes(),
        r == if old(data_walker).remaining() >= crate::util::spec_min_image_bytes(
            image_width as int,
            image_height as int,
            8,
        ) {
            Ok::<(), BitmapError>(())
        } else {
            Err::<(), BitmapError>(BitmapError::TruncatedData)
        },
        r is Ok ==> final(result)@ == old(result)@ + spec_dec_8(
            old(data_walker).remaining_bytes(),
            image_palette@,
            image_width as int,
            image_height as int,
        ),
        r is Err ==> final(result)@ == old(result)@ && final(data_walker).index() == old(
            data_walker,
        ).index(),
{
    let width_u: u32 = image_width as u32;
    let height_u: u32 = image_height as u32;
    let used64: u64 = width_u as u64;
    let pad64: u64 = crate::util::pad_to_align(used64, 4);
    let stride64: u64 = used64 + pad64;
    proof {
        crate::util::lemma_row_bytes_8(width_u as int);
    }
    let ghost hi: int = height_u as int;
    let ghost si: int = stride64 as int;
    assert(hi >= 1 ==> 0 <= (hi - 1) * si <= 0x2_0000_0000_0000_0000 && (hi - 1) * si == si * (hi
        - 1)) by (nonlinear_arith)
        requires
            0 <= hi <= 0x8000_0000,
            0 <= si <= 0x4_0000_0000,
    ;
    let needed: u128 = if height_u == 0 {
        0
    } else {
        ((height_u - 1) as u128) * (stride64 as u128) + (used64 as u128)
    };
    assert(needed == crate::util::spec_min_image_bytes(image_width as int, image_height as int, 8));
    if (data_walker.remaining_count() as u128) < needed {
        return Err(BitmapError::TruncatedData);
    }
    let ghost stride_int: int = stride64 as int;
    let mut row_index: u32 = 0;
    while row_index < height_u
        invariant
            data_walker.wf(),
            data_walker.bytes() == old(data_walker).bytes(),
            row_index <= height_u,
            image_palette@.len() >= 256,
            used64 == width_u as int,
            stride_int == stride64 as int,
            stride64 == crate::util::spec_row_bytes(width_u as int, 8),
            stride64 <= 0x4_0000_0000u64,
            pad64 == crate::util::spec_pad_to_align(used64 as int, 4),
            stride64 == used64 + pad64,
            result@ + spec_dec_8(
                data_walker.remaining_bytes(),
                image_palette@,
                width_u as int,
                height_u as int - row_index,
            ) == old(result)@ + spec_dec_8(
                old(data_walker).remaining_bytes(),
                image_palette@,
                width_u as int,
                height_u as int,
            ),
            row_index < height_u ==> data_walker.index() % 4 == 0 && data_walker.remaining()
                >= crate::util::spec_min_image_bytes(
                width_u as int,
                height_u as int - row_index,
                8,
            ),
        decreases height_u - row_index,
    {
        let ghost row_rem = data_walker.remaining_bytes();
        let ghost row_start = data_walker.index();
        let ghost res_at_row = result@;
        let ghost r_idx = row_index as int;
        proof {
            crate::util::lemma_row_bytes_8(width_u as int);
            assert(res_at_row + spec_dec_8(
                row_rem,
                image_palette@,
                width_u as int,
                height_u as int - r_idx,
            ) == old(result)@ + spec_dec_8(
                old(data_walker).remaining_bytes(),
                image_palette@,
                width_u as int,
                height_u as int,
            ));
            assert(data_walker.remaining() >= stride_int * (height_u as int - r_idx - 1) + (
            width_u as int)) by {
                assert(crate::util::spec_min_image_bytes(
                    width_u as int,
                    height_u as int - r_idx,
                    8,
                ) == stride_int * (height_u as int - r_idx - 1) + (width_u as int));
            };
        }
        let mut col: u32 = 0;
        while col < width_u
            invariant
                data_walker.wf(),
                data_walker.bytes() == old(data_walker).bytes(),
                col <= width_u,
                0 <= row_start,
                0 <= r_idx < height_u,
                image_palette@.len() >= 256,
                data_walker.index() == row_start + col as int,
                row_rem == old(data_walker).bytes().skip(row_start),
                data_walker.remaining() >= stride_int * (height_u as int - r_idx - 1) + (
                width_u as int - col),
                stride_int * (height_u as int - r_idx - 1) >= 0,
                result@ + spec_dec_8_row(
                    data_walker.remaining_bytes(),
                    image_palette@,
                    width_u as int - col,
                ) == res_at_row + spec_dec_8_row(row_rem, image_palette@, width_u as int),
            decreases width_u - col,
        {
            let ghost rem_b = data_walker.remaining_bytes();
            let pixel_index = data_walker.next_u8();
            let pixel = image_palette[pixel_index as usize];
            result.push(pixel);
            proof {
                assert(data_walker.remaining_bytes() =~= rem_b.skip(1));
                assert(pixel == image_palette@[rem_b[0] as int]);
                assert(spec_dec_8_row(rem_b, image_palette@, width_u as int - col) == seq![
                    image_palette@[rem_b[0] as int],
                ] + spec_dec_8_row(rem_b.skip(1), image_palette@, width_u as int - col - 1));
            }
            col = col + 1;
        }
        proof {
            assert(result@ =~= result@ + spec_dec_8_row(
                data_walker.remaining_bytes(),
                image_palette@,
                width_u as int - col,
            ));
            assert(result@ == res_at_row + spec_dec_8_row(row_rem, image_palette@, width_u as int));
            assert(data_walker.index() == row_start + used64);
            assert(row_start % 4 == 0);
            crate::util::lemma_pad_shift(row_start, used64 as int, 4);
            assert(crate::util::spec_pad_to_align(data_walker.index(), 4) == pad64 as int);
        }
        let ghost index_after_pixels = data_walker.index();
        data_walker.align_with_u32();
        proof {
            if r_idx < height_u as int - 1 {
                assert(stride_int * (height_u as int - r_idx - 1) >= stride_int) by (
                nonlinear_arith)
                    requires
                        height_u as int - r_idx - 1 >= 1,
                        stride_int >= 0,
                ;
                assert(index_after_pixels + pad64 <= old(data_walker).bytes().len());
                assert(data_walker.index() == row_start + stride_int);
                assert(data_walker.remaining_bytes() =~= row_rem.skip(stride_int));
                assert(spec_dec_8(row_rem, image_palette@, width_u as int, height_u as int - r_idx)
                    == spec_dec_8_row(row_rem, image_palette@, width_u as int) + spec_dec_8(
                    row_rem.skip(stride_int),
                    image_palette@,
                    width_u as int,
                    height_u as int - r_idx - 1,
                ));
                assert(stride_int * (height_u as int - r_idx - 1) - stride_int == stride_int * (
                height_u as int - r_idx - 2)) by (nonlinear_arith);
                assert(data_walker.remaining() >= crate::util::spec_min_image_bytes(
                    width_u as int,
                    height_u as int - r_idx - 1,
                    8,
                ));
                assert(data_walker.index() % 4 == 0) by {
                    vstd::arithmetic::div_mod::lemma_add_mod_noop(row_start, stride_int, 4);
                    vstd::arithmetic::div_mod::lemma_mod_twice(0, 4);
                };
            } else {
                assert(height_u as int - r_idx - 1 == 0);
                assert(spec_dec_8(row_rem, image_palette@, width_u as int, 1) == spec_dec_8_row(
                    row_rem,
                    image_palette@,
                    width_u as int,
                ) + spec_dec_8(
                    row_rem.skip(crate::util::spec_row_bytes(width_u as int, 8)),
                    image_palette@,
                    width_u as int,
                    0,
                ));
                assert(spec_dec_8(row_rem, image_palette@, width_u as int, 1) =~= spec_dec_8_row(
                    row_rem,
                    image_palette@,
                    width_u as int,
                ));
            }
            assert(result@ + spec_dec_8(
                data_walker.remaining_bytes(),
                image_palette@,
                width_u as int,
                height_u as int - r_idx - 1,
            ) == old(result)@ + spec_dec_8(
                old(data_walker).remaining_bytes(),
                image_palette@,
                width_u as int,
                height_u as int,
            ));
        }
        row_index = row_index + 1;
    }
    proof {
        assert(result@ =~= result@ + spec_dec_8(
            data_walker.remaining_bytes(),
            image_palette@,
            width_u as int,
            0,
        ));
    }
    Ok(())
}

/// Both nibbles of a byte are valid indices into a 16-entry palette.
pub proof fn lemma_nibble_bounds(b: u8)
    by (bit_vector)
    ensures
        (b >> 4u8) < 16,
        (b & 0x0f) < 16,
{
}

/// One decoded row of a 4-bit indexed image: each byte holds two palette
/// indices, high nibble first; an odd-width row uses only the high nibble
/// of its last byte.
pub open spec fn spec_dec_4_row(bytes: Seq<u8>, palette: Seq<BitmapPixel>, width: int) -> Seq<
    BitmapPixel,
>
    decreases width,
{
    if width <= 0 {
        Seq::empty()
    } else if width == 1 {
        seq![palette[(bytes[0] >> 4u8) as int]]
    } else {
        seq![palette[(bytes[0] >> 4u8) as int], palette[(bytes[0] & 0x0f) as int]]
            + spec_dec_4_row(bytes.skip(1), palette, width - 2)
    }
}

/// The decoded grid of a 4-bit indexed image: `height` rows of `width`
/// pixels, each stored row padded to a 4-byte boundary.
pub open spec fn spec_dec_4(bytes: Seq<u8>, palette: Seq<BitmapPixel>, width: int, height: int) -> Seq<BitmapPixel>
    decreases height,
{
    if height <= 0 {
        Seq::empty()
    } else {
        spec_dec_4_row(bytes, palette, width) + spec_dec_4(
            bytes.skip(crate::util::spec_row_bytes(width, 4)),
            palette,
            width,
            height - 1,
        )
    }
}

/// Reads 4-bit indexed pixel data: two palette indices per byte, high
/// nibble first, each row of `image_width` pixels padded to a 4-byte
/// boundary.  The palette must hold an entry for every possible index.
/// Fails if and only if the buffer cannot hold every row (the padding of
/// the last row may be missing), and then changes nothing.
#[verifier::rlimit(90)]
#[verifier::spinoff_prover]
pub fn read_4_uncompressed(
    data_walker: &mut BytesWalker,
    result: &mut Vec<BitmapPixel>,
    image_width: i32,
    image_height: i32,
    image_palette: &BitmapPalette,
) -> (r: Result<(), BitmapError>)
    requires
        old(data_walker).wf(),
        old(data_walker).index() % 4 == 0,
        0 <= image_width,
        0 <= image_height,
        image_palette@.len() >= 16,
    ensures
        final(data_walker).wf(),
        final(data_walker).bytes() == old(data_walker).bytes(),
        r == if old(data_walker).remaining() >= crate::util::spec_min_image_bytes(
            image_width as int,
            image_height as int,
            4,
        ) {
            Ok::<(), BitmapError>(())
        } else {
            Err::<(), BitmapError>(BitmapError::TruncatedData)
        },
        r is Ok ==> final(result)@ == old(result)@ + spec_dec_4(
            old(data_walker).remaining_bytes(),
            image_palette@,
            image_width as int,
            image_height as int,
        ),
        r is Err ==> final(result)@ == old(result)@ && final(data_walker).index() == old(
            data_walker,
        ).index(),
{
    let width_u: u32 = image_width as u32;
    let height_u: u32 = image_height as u32;
    let used64: u64 = ((width_u as u64) + 1) / 2;
    let pad64: u64 = crate::util::pad_to_align(used64, 4);
    let stride64: u64 = used64 + pad64;
    proof {
        crate::util::lemma_row_bytes_4(width_u as int);
    }
    let ghost hi: int = height_u as int;
    let ghost si: int = stride64 as int;
    assert(hi >= 1 ==> 0 <= (hi - 1) * si <= 0x2_0000_0000_0000_0000 && (hi - 1) * si == si * (hi
        - 1)) by (nonlinear_arith)
        requires
            0 <= hi <= 0x8000_0000,
            0 <= si <= 0x4_0000_0000,
    ;
    let needed: u128 = if height_u == 0 {
        0
    } else {
        ((height_u - 1) as u128) * (stride64 as u128) + (used64 as u128)
    };
    assert(needed == crate::util::spec_min_image_bytes(image_width as int, image_height as int, 4));
    if (data_walker.remaining_count() as u128) < needed {
        return Err(BitmapError::TruncatedData);
    }
    let ghost stride_int: int = stride64 as int;
    let mut row_index: u32 = 0;
    while row_index < height_u
        invariant
            data_walker.wf(),
            data_walker.bytes() == old(data_walker).bytes(),
            row_index <= height_u,
            image_palette@.len() >= 16,
            used64 == (width_u as int + 1) / 2,
            stride_int == stride64 as int,
            stride64 == crate::util::spec_row_bytes(width_u as int, 4),
            stride64 <= 0x4_0000_0000u64,
            pad64 == crate::util::spec_pad_to_align(used64 as int, 4),
            stride64 == used64 + pad64,
            result@ + spec_dec_4(
                data_walker.remaining_bytes(),
                image_palette@,
                width_u as int,
                height_u as int - row_index,
            ) == old(result)@ + spec_dec_4(
                old(data_walker).remaining_bytes(),
                image_palette@,
                width_u as int,
                height_u as int,
            ),
            row_index < height_u ==> data_walker.index() % 4 == 0 && data_walker.remaining()
                >= crate::util::spec_min_image_bytes(
                width_u as int,
                height_u as int - row_index,
                4,
            ),
        decreases height_u - row_index,
    {
        let ghost row_rem = data_walker.remaining_bytes();
        let ghost row_start = data_walker.index();
        let ghost res_at_row = result@;
        let ghost r_idx = row_index as int;
        proof {
            crate::util::lemma_row_bytes_4(width_u as int);
            assert(res_at_row + spec_dec_4(
                row_rem,
                image_palette@,
                width_u as int,
                height_u as int - r_idx,
            ) == old(result)@ + spec_dec_4(
                old(data_walker).remaining_bytes(),
                image_palette@,
                width_u as int,
                height_u as int,
            ));
            assert(data_walker.remaining() >= stride_int * (height_u as int - r_idx - 1) + (used64
                as int)) by {
                assert(crate::util::spec_min_image_bytes(
                    width_u as int,
                    height_u as int - r_idx,
                    4,
                ) == stride_int * (height_u as int - r_idx - 1) + (used64 as int));
            };
        }
        let mut col: u32 = 0;
        while col < width_u
            invariant
                data_walker.wf(),
                data_walker.bytes() == old(data_walker).bytes(),
                col <= width_u,
                col % 2 == 0 || col == width_u,
                0 <= row_start,
                0 <= r_idx < height_u,
                image_palette@.len() >= 16,
                used64 == (width_u as int + 1) / 2,
                data_walker.index() == row_start + (col as int + 1) / 2,
                row_rem == old(data_walker).bytes().skip(row_start),
                data_walker.remaining() >= stride_int * (height_u as int - r_idx - 1) + (used64
                    as int) - (col as int + 1) / 2,
                stride_int * (height_u as int - r_idx - 1) >= 0,
                result@ + spec_dec_4_row(
                    data_walker.remaining_bytes(),
                    image_palette@,
                    width_u as int - col,
                ) == res_at_row + spec_dec_4_row(row_rem, image_palette@, width_u as int),
            decreases width_u - col,
        {
            proof {
                // one more byte is available: col/2 + 1 <= (width + 1)/2
                assert(col % 2 == 0);
                vstd::arithmetic::div_mod::lemma_fundamental_div_mod_converse(
                    col as int,
                    2,
                    col as int / 2,
                    0,
                );
                vstd::arithmetic::div_mod::lemma_fundamental_div_mod_converse(
                    col as int + 1,
                    2,
                    col as int / 2,
                    1,
                );
                vstd::arithmetic::div_mod::lemma_div_is_ordered(
                    col as int + 2,
                    width_u as int + 1,
                    2,
                );
                vstd::arithmetic::div_mod::lemma_fundamental_div_mod_converse(
                    col as int + 2,
                    2,
                    col as int / 2 + 1,
                    0,
                );
            }
            let ghost rem_b = data_walker.remaining_bytes();
            let pixels_indexes = data_walker.next_u8();
            proof {
                lemma_nibble_bounds(pixels_indexes);
            }
            let p0_index = (pixels_indexes >> 4u8) as usize;
            let p1_index = (pixels_indexes & 0x0f) as usize;
            let pixel0 = image_palette[p0_index];
            let pixel1 = image_palette[p1_index];
            result.push(pixel0);
            col = col + 1;
            proof {
                assert(data_walker.remaining_bytes() =~= rem_b.skip(1));
                assert(rem_b[0] == pixels_indexes);
                vstd::arithmetic::div_mod::lemma_fundamental_div_mod_converse(
                    col as int + 1,
                    2,
                    (col as int - 1) / 2 + 1,
                    0,
                );
            }
            if col < width_u {
                result.push(pixel1);
                proof {
                    assert(width_u as int - (col - 1) >= 2);
                    assert(spec_dec_4_row(rem_b, image_palette@, width_u as int - (col - 1))
                        == seq![
                        image_palette@[(rem_b[0] >> 4u8) as int],
                        image_palette@[(rem_b[0] & 0x0f) as int],
                    ] + spec_dec_4_row(rem_b.skip(1), image_palette@, width_u as int - (col - 1)
                        - 2));
                }
                col = col + 1;
                proof {
                    vstd::arithmetic::div_mod::lemma_fundamental_div_mod_converse(
                        col as int + 1,
                        2,
                        (col as int - 2) / 2 + 1,
                        1,
                    );
                }
            } else {
                proof {
                    assert(width_u as int - (col - 1) == 1);
                    assert(spec_dec_4_row(rem_b, image_palette@, 1) == seq![
                        image_palette@[(rem_b[0] >> 4u8) as int],
                    ]);
                    assert(spec_dec_4_row(
                        data_walker.remaining_bytes(),
                        image_palette@,
                        width_u as int - col,
                    ) =~= Seq::<BitmapPixel>::empty());
                }
            }
        }
        proof {
            assert(result@ =~= result@ + spec_dec_4_row(
                data_walker.remaining_bytes(),
                image_palette@,
                width_u as int - col,
            ));
            assert(result@ == res_at_row + spec_dec_4_row(row_rem, image_palette@, width_u as int));
            assert(data_walker.index() == row_start + used64);
            assert(row_start % 4 == 0);
            crate::util::lemma_pad_shift(row_start, used64 as int, 4);
            assert(crate::util::spec_pad_to_align(data_walker.index(), 4) == pad64 as int);
        }
        let ghost index_after_pixels = data_walker.index();
        data_walker.align_with_u32();
        proof {
            if r_idx < height_u as int - 1 {
                assert(stride_int * (height_u as int - r_idx - 1) >= stride_int) by (
                nonlinear_arith)
                    requires
                        height_u as int - r_idx - 1 >= 1,
                        stride_int >= 0,
                ;
                assert(index_after_pixels + pad64 <= old(data_walker).bytes().len());
                assert(data_walker.index() == row_start + stride_int);
                assert(data_walker.remaining_bytes() =~= row_rem.skip(stride_int));
                assert(spec_dec_4(row_rem, image_palette@, width_u as int, height_u as int - r_idx)
                    == spec_dec_4_row(row_rem, image_palette@, width_u as int) + spec_dec_4(
                    row_rem.skip(stride_int),
                    image_palette@,
                    width_u as int,
                    height_u as int - r_idx - 1,
                ));
                assert(stride_int * (height_u as int - r_idx - 1) - stride_int == stride_int * (
                height_u as int - r_idx - 2)) by (nonlinear_arith);
                assert(data_walker.remaining() >= crate::util::spec_min_image_bytes(
                    width_u as int,
                    height_u as int - r_idx - 1,
                    4,
                ));
                assert(data_walker.index() % 4 == 0) by {
                    vstd::arithmetic::div_mod::lemma_add_mod_noop(row_start, stride_int, 4);
                    vstd::arithmetic::div_mod::lemma_mod_twice(0, 4);
                };
            } else {
                assert(height_u as int - r_idx - 1 == 0);
                assert(spec_dec_4(row_rem, image_palette@, width_u as int, 1) == spec_dec_4_row(
                    row_rem,
                    image_palette@,
                    width_u as int,
                ) + spec_dec_4(
                    row_rem.skip(crate::util::spec_row_bytes(width_u as int, 4)),
                    image_palette@,
                    width_u as int,
                    0,
                ));
                assert(spec_dec_4(row_rem, image_palette@, width_u as int, 1) =~= spec_dec_4_row(
                    row_rem,
                    image_palette@,
                    width_u as int,
                ));
            }
            assert(result@ + spec_dec_4(
                data_walker.remaining_bytes(),
                image_palette@,
                width_u as int,
                height_u as int - r_idx - 1,
            ) == old(result)@ + spec_dec_4(
                old(data_walker).remaining_bytes(),
                image_palette@,
                width_u as int,
                height_u as int,
            ));
        }
        row_index = row_index + 1;
    }
    proof {
        assert(result@ =~= result@ + spec_dec_4(
            data_walker.remaining_bytes(),
            image_palette@,
            width_u as int,
            0,
        ));
    }
    Ok(())
}

/// The pixels the first `n_bits` bits of a byte select from a two-color
/// palette, most significant bit first: a clear bit selects entry 0, a set
/// bit entry 1.
pub open spec fn spec_pixels_from_byte(palette: Seq<BitmapPixel>, byte: u8, n_bits: int) -> Seq<
    BitmapPixel,
> {
    Seq::new(
        n_bits as nat,
        |i: int|
            if (byte >> ((7 - i) as u8)) & 1 == 0 {
                palette[0]
            } else {
                palette[1]
            },
    )
}

/// Appends the pixels the first `n_bits` bits of `byte` select from the
/// palette, most significant bit first.
pub fn append_pixels_from_byte(
    palette: &BitmapPalette,
    vec: &mut Vec<BitmapPixel>,
    byte: u8,
    n_bits: i32,
)
    requires
        palette@.len() >= 2,
        0 <= n_bits <= 8,
    ensures
        final(vec)@ == old(vec)@ + spec_pixels_from_byte(palette@, byte, n_bits as int),
{
    let bits: u8 = n_bits as u8;
    let mut mask: u8 = 0x80;
    let mut k: u8 = 0;
    assert(0x80u8 >> 0u8 == 0x80u8) by (bit_vector);
    while k < bits
        invariant
            palette@.len() >= 2,
            0 <= k <= bits <= 8,
            k < 8 ==> mask == (0x80u8 >> k),
            vec@ == old(vec)@ + spec_pixels_from_byte(palette@, byte, k as int),
        decreases bits - k,
    {
        if byte & mask == 0 {
            vec.push(palette[0]);
        } else {
            vec.push(palette[1]);
        }
        proof {
            assert((byte & (0x80u8 >> k) == 0) == ((byte >> ((7 - k) as u8)) & 1 == 0))
                by (bit_vector)
                requires
                    k < 8,
            ;
            assert(vec@ =~= old(vec)@ + spec_pixels_from_byte(palette@, byte, k as int + 1));
            if k + 1 < 8 {
                assert((0x80u8 >> k) >> 1u8 == 0x80u8 >> (k + 1) as u8) by (bit_vector)
                    requires
                        k < 7,
                ;
            }
        }
        mask = mask >> 1;
        k = k + 1;
    }
    proof {
        assert(vec@ =~= old(vec)@ + spec_pixels_from_byte(palette@, byte, n_bits as int));
    }
}

/// One decoded row of a 1-bit indexed image: eight pixels per byte, most
/// significant bit first; the last byte of a row whose width is not a
/// multiple of eight supplies only the remaining pixels from its high bits.
pub open spec fn spec_dec_1_row(bytes: Seq<u8>, palette: Seq<BitmapPixel>, width: int) -> Seq<
    BitmapPixel,
>
    decreases width,
{
    if width <= 0 {
        Seq::empty()
    } else if width >= 8 {
        spec_pixels_from_byte(palette, bytes[0], 8) + spec_dec_1_row(
            bytes.skip(1),
            palette,
            width - 8,
        )
    } else {
        spec_pixels_from_byte(palette, bytes[0], width)
    }
}

/// The decoded grid of a 1-bit indexed image: `height` rows of `width`
/// pixels, each stored row padded to a 4-byte boundary.
pub open spec fn spec_dec_1(bytes: Seq<u8>, palette: Seq<BitmapPixel>, width: int, height: int) -> Seq<BitmapPixel>
    decreases height,
{
    if height <= 0 {
        Seq::empty()
    } else {
        spec_dec_1_row(bytes, palette, width) + spec_dec_1(
            bytes.skip(crate::util::spec_row_bytes(width, 1)),
            palette,
            width,
            height - 1,
        )
    }
}

/// Reads 1-bit indexed pixel data: eight pixels per byte, most significant
/// bit first, bit 0 selecting palette entry 0 and bit 1 entry 1, each row
/// of `image_width` pixels padded to a 4-byte boundary.  Fails if and only
/// if the buffer cannot hold every row (the padding of the last row may be
/// missing), and then changes nothing.
#[verifier::rlimit(90)]
#[verifier::spinoff_prover]
pub fn read_1_uncompressed(
    data_walker: &mut BytesWalker,
    result: &mut Vec<BitmapPixel>,
    image_width: i32,
    image_height: i32,
    image_palette: &BitmapPalette,
) -> (r: Result<(), BitmapError>)
    requires
        old(data_walker).wf(),
        old(data_walker).index() % 4 == 0,
        0 <= image_width,
        0 <= image_height,
        image_palette@.len() >= 2,
    ensures
        final(data_walker).wf(),
        final(data_walker).bytes() == old(data_walker).bytes(),
        r == if old(data_walker).remaining() >= crate::util::spec_min_image_bytes(
            image_width as int,
            image_height as int,
            1,
        ) {
            Ok::<(), BitmapError>(())
        } else {
            Err::<(), BitmapError>(BitmapError::TruncatedData)
        },
        r is Ok ==> final(result)@ == old(result)@ + spec_dec_1(
            old(data_walker).remaining_bytes(),
            image_palette@,
            image_width as int,
            image_height as int,
        ),
        r is Err ==> final(result)@ == old(result)@ && final(data_walker).index() == old(
            data_walker,
        ).index(),
{
    let width_u: u32 = image_width as u32;
    let height_u: u32 = image_height as u32;
    let used64: u64 = ((width_u as u64) + 7) / 8;
    let pad64: u64 = crate::util::pad_to_align(used64, 4);
    let stride64: u64 = used64 + pad64;
    proof {
        crate::util::lemma_row_bytes_1(width_u as int);
    }
    let ghost hi: int = height_u as int;
    let ghost si: int = stride64 as int;
    assert(hi >= 1 ==> 0 <= (hi - 1) * si <= 0x2_0000_0000_0000_0000 && (hi - 1) * si == si * (hi
        - 1)) by (nonlinear_arith)
        requires
            0 <= hi <= 0x8000_0000,
            0 <= si <= 0x4_0000_0000,
    ;
    let needed: u128 = if height_u == 0 {
        0
    } else {
        ((height_u - 1) as u128) * (stride64 as u128) + (used64 as u128)
    };
    assert(needed == crate::util::spec_min_image_bytes(image_width as int, image_height as int, 1));
    if (data_walker.remaining_count() as u128) < needed {
        return Err(BitmapError::TruncatedData);
    }
    let full_bytes: u32 = width_u / 8;
    let remaining_pixels: u32 = width_u % 8;
    proof {
        vstd::arithmetic::div_mod::lemma_fundamental_div_mod(width_u as int, 8);
        vstd::arithmetic::div_mod::lemma_mod_bound(width_u as int, 8);
        if remaining_pixels == 0 {
            vstd::arithmetic::div_mod::lemma_fundamental_div_mod_converse(
                width_u as int + 7,
                8,
                full_bytes as int,
                7,
            );
        } else {
            vstd::arithmetic::div_mod::lemma_fundamental_div_mod_converse(
                width_u as int + 7,
                8,
                full_bytes as int + 1,
                remaining_pixels as int - 1,
            );
        }
    }
    let ghost stride_int: int = stride64 as int;
    let mut row_index: u32 = 0;
    while row_index < height_u
        invariant
            data_walker.wf(),
            data_walker.bytes() == old(data_walker).bytes(),
            row_index <= height_u,
            image_palette@.len() >= 2,
            full_bytes == width_u as int / 8,
            remaining_pixels == width_u as int % 8,
            used64 == (width_u as int + 7) / 8,
            used64 == full_bytes + if remaining_pixels == 0 {
                0int
            } else {
                1int
            },
            stride_int == stride64 as int,
            stride64 == crate::util::spec_row_bytes(width_u as int, 1),
            stride64 <= 0x4_0000_0000u64,
            pad64 == crate::util::spec_pad_to_align(used64 as int, 4),
            stride64 == used64 + pad64,
            result@ + spec_dec_1(
                data_walker.remaining_bytes(),
                image_palette@,
                width_u as int,
                height_u as int - row_index,
            ) == old(result)@ + spec_dec_1(
                old(data_walker).remaining_bytes(),
                image_palette@,
                width_u as int,
                height_u as int,
            ),
            row_index < height_u ==> data_walker.index() % 4 == 0 && data_walker.remaining()
                >= crate::util::spec_min_image_bytes(
                width_u as int,
                height_u as int - row_index,
                1,
            ),
        decreases height_u - row_index,
    {
        let ghost row_rem = data_walker.remaining_bytes();
        let ghost row_start = data_walker.index();
        let ghost res_at_row = result@;
        let ghost r_idx = row_index as int;
        proof {
            crate::util::lemma_row_bytes_1(width_u as int);
            assert(res_at_row + spec_dec_1(
                row_rem,
                image_palette@,
                width_u as int,
                height_u as int - r_idx,
            ) == old(result)@ + spec_dec_1(
                old(data_walker).remaining_bytes(),
                image_palette@,
                width_u as int,
                height_u as int,
            ));
            assert(data_walker.remaining() >= stride_int * (height_u as int - r_idx - 1) + (used64
                as int)) by {
                assert(crate::util::spec_min_image_bytes(
                    width_u as int,
                    height_u as int - r_idx,
                    1,
                ) == stride_int * (height_u as int - r_idx - 1) + (used64 as int));
            };
        }
        let mut k: u32 = 0;
        while k < full_bytes
            invariant
                data_walker.wf(),
                data_walker.bytes() == old(data_walker).bytes(),
                k <= full_bytes,
                0 <= row_start,
                0 <= r_idx < height_u,
                image_palette@.len() >= 2,
                full_bytes == width_u as int / 8,
                used64 >= full_bytes,
                data_walker.index() == row_start + k as int,
                row_rem == old(data_walker).bytes().skip(row_start),
                data_walker.remaining() >= stride_int * (height_u as int - r_idx - 1) + (used64
                    as int) - k,
                stride_int * (height_u as int - r_idx - 1) >= 0,
                result@ + spec_dec_1_row(
                    data_walker.remaining_bytes(),
                    image_palette@,
                    width_u as int - 8 * (k as int),
                ) == res_at_row + spec_dec_1_row(row_rem, image_palette@, width_u as int),
            decreases full_bytes - k,
        {
            proof {
                vstd::arithmetic::div_mod::lemma_fundamental_div_mod(width_u as int, 8);
                vstd::arithmetic::div_mod::lemma_mod_bound(width_u as int, 8);
                assert(8 * (k as int + 1) <= 8 * (width_u as int / 8)) by (nonlinear_arith)
                    requires
                        k as int + 1 <= width_u as int / 8,
                ;
            }
            let ghost rem_b = data_walker.remaining_bytes();
            let pixels_byte = data_walker.next_u8();
            append_pixels_from_byte(image_palette, result, pixels_byte, 8);
            proof {
                assert(data_walker.remaining_bytes() =~= rem_b.skip(1));
                assert(rem_b[0] == pixels_byte);
                assert(width_u as int - 8 * (k as int) >= 8);
                assert(spec_dec_1_row(rem_b, image_palette@, width_u as int - 8 * (k as int))
                    == spec_pixels_from_byte(image_palette@, rem_b[0], 8) + spec_dec_1_row(
                    rem_b.skip(1),
                    image_palette@,
                    width_u as int - 8 * (k as int) - 8,
                ));
                assert(width_u as int - 8 * (k as int) - 8 == width_u as int - 8 * (k as int + 1));
            }
            k = k + 1;
        }
        proof {
            assert(8 * (full_bytes as int) == width_u as int - remaining_pixels);
        }
        if remaining_pixels > 0 {
            let ghost rem_b = data_walker.remaining_bytes();
            let pixels_byte = data_walker.next_u8();
            append_pixels_from_byte(image_palette, result, pixels_byte, remaining_pixels as i32);
            proof {
                assert(rem_b[0] == pixels_byte);
                assert(spec_dec_1_row(
                    rem_b,
                    image_palette@,
                    width_u as int - 8 * (full_bytes as int),
                ) == spec_pixels_from_byte(image_palette@, rem_b[0], remaining_pixels as int));
                assert(result@ == res_at_row + spec_dec_1_row(
                    row_rem,
                    image_palette@,
                    width_u as int,
                ));
            }
        } else {
            proof {
                assert(result@ =~= result@ + spec_dec_1_row(
                    data_walker.remaining_bytes(),
                    image_palette@,
                    0,
                ));
                assert(result@ == res_at_row + spec_dec_1_row(
                    row_rem,
                    image_palette@,
                    width_u as int,
                ));
            }
        }
        proof {
            assert(data_walker.index() == row_start + used64);
            assert(row_start % 4 == 0);
            crate::util::lemma_pad_shift(row_start, used64 as int, 4);
            assert(crate::util::spec_pad_to_align(data_walker.index(), 4) == pad64 as int);
        }
        let ghost index_after_pixels = data_walker.index();
        data_walker.align_with_u32();
        proof {
            if r_idx < height_u as int - 1 {
                assert(stride_int * (height_u as int - r_idx - 1) >= stride_int) by (
                nonlinear_arith)
                    requires
                        height_u as int - r_idx - 1 >= 1,
                        stride_int >= 0,
                ;
                assert(index_after_pixels + pad64 <= old(data_walker).bytes().len());
                assert(data_walker.index() == row_start + stride_int);
                assert(data_walker.remaining_bytes() =~= row_rem.skip(stride_int));
                assert(spec_dec_1(row_rem, image_palette@, width_u as int, height_u as int - r_idx)
                    == spec_dec_1_row(row_rem, image_palette@, width_u as int) + spec_dec_1(
                    row_rem.skip(stride_int),
                    image_palette@,
                    width_u as int,
                    height_u as int - r_idx - 1,
                ));
                assert(stride_int * (height_u as int - r_idx - 1) - stride_int == stride_int * (
                height_u as int - r_idx - 2)) by (nonlinear_arith);
                assert(data_walker.remaining() >= crate::util::spec_min_image_bytes(
                    width_u as int,
                    height_u as int - r_idx - 1,
                    1,
                ));
                assert(data_walker.index() % 4 == 0) by {
                    vstd::arithmetic::div_mod::lemma_add_mod_noop(row_start, stride_int, 4);
                    vstd::arithmetic::div_mod::lemma_mod_twice(0, 4);
                };
            } else {
                assert(height_u as int - r_idx - 1 == 0);
                assert(spec_dec_1(row_rem, image_palette@, width_u as int, 1) == spec_dec_1_row(
                    row_rem,
                    image_palette@,
                    width_u as int,
                ) + spec_dec_1(
                    row_rem.skip(crate::util::spec_row_bytes(width_u as int, 1)),
                    image_palette@,
                    width_u as int,
                    0,
                ));
                assert(spec_dec_1(row_rem, image_palette@, width_u as int, 1) =~= spec_dec_1_row(
                    row_rem,
                    image_palette@,
                    width_u as int,
                ));
            }
            assert(result@ + spec_dec_1(
                data_walker.remaining_bytes(),
                image_palette@,
                width_u as int,
                height_u as int - r_idx - 1,
            ) == old(result)@ + spec_dec_1(
                old(data_walker).remaining_bytes(),
                image_palette@,
                width_u as int,
                height_u as int,
            ));
        }
        row_index = row_index + 1;
    }
    proof {
        assert(result@ =~= result@ + spec_dec_1(
            data_walker.remaining_bytes(),
            image_palette@,
            width_u as int,
            0,
        ));
    }
    Ok(())
}

/// Reads 32-bit uncompressed pixel data: blue, green, red and a padding
/// byte per pixel, alpha always full.  Consumes the whole rest of the
/// buffer; fails if and only if that rest is not a whole number of 4-byte
/// groups, and then changes nothing.
pub fn read_32_uncompressed(data_walker: &mut BytesWalker, result: &mut Vec<BitmapPixel>) -> (r:
    Result<(), BitmapError>)
    requires
        old(data_walker).wf(),
    ensures
        final(data_walker).wf(),
        final(data_walker).bytes() == old(data_walker).bytes(),
        r == if old(data_walker).remaining() % 4 == 0 {
            Ok::<(), BitmapError>(())
        } else {
            Err::<(), BitmapError>(BitmapError::TruncatedData)
        },
        r is Ok ==> final(result)@ == old(result)@ + spec_dec_32u(
            old(data_walker).remaining_bytes(),
        ) && final(data_walker).remaining() == 0,
        r is Err ==> final(result)@ == old(result)@ && final(data_walker).index() == old(
            data_walker,
        ).index(),
{
    if data_walker.remaining_count() % 4 != 0 {
        return Err(BitmapError::TruncatedData);
    }
    while data_walker.has_data()
        invariant
            data_walker.wf(),
            data_walker.bytes() == old(data_walker).bytes(),
            data_walker.remaining() % 4 == 0,
            result@ + spec_dec_32u(data_walker.remaining_bytes()) == old(result)@ + spec_dec_32u(
                old(data_walker).remaining_bytes(),
            ),
        decreases data_walker.remaining(),
    {
        let ghost rem_before = data_walker.remaining_bytes();
        let pixel = BitmapPixel {
            blue: data_walker.next_u8(),
            green: data_walker.next_u8(),
            red: data_walker.next_u8(),
            alpha: 0xff,
        };
        data_walker.next_u8();
        proof {
            assert(data_walker.remaining_bytes() =~= rem_before.skip(4));
            assert(pixel == spec_dec_32u_pixel(rem_before));
            assert(spec_dec_32u(rem_before) == seq![spec_dec_32u_pixel(rem_before)]
                + spec_dec_32u(rem_before.skip(4)));
        }
        result.push(pixel);
    }
    proof {
        assert(result@ =~= result@ + spec_dec_32u(data_walker.remaining_bytes()));
    }
    Ok(())
}

} // verus!
