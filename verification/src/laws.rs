//! Global properties of the codec and the geometric transforms, stated and
//! proved over the same spec functions the executable contracts use.

use crate::bitmap::spec_crop_rect;
use crate::bitmap::spec_vmirror;
use crate::pixel::BitmapPixel;
use vstd::prelude::*;

verus! {

/// The grid with every pixel's alpha forced to fully opaque, colors kept.
pub open spec fn spec_force_opaque(s: Seq<BitmapPixel>) -> Seq<BitmapPixel> {
    Seq::new(
        s.len(),
        |i: int| BitmapPixel { blue: s[i].blue, green: s[i].green, red: s[i].red, alpha: 0xff },
    )
}

/// The vertical mirror is its own inverse: applying it twice returns the
/// original pixel grid.
pub proof fn lemma_vmirror_involution(s: Seq<BitmapPixel>, width: int, height: int)
    requires
        width >= 0,
        height >= 0,
        s.len() == width * height,
    ensures
        spec_vmirror(spec_vmirror(s, width, height), width, height) == s,
{
    let m = spec_vmirror(s, width, height);
    let mm = spec_vmirror(m, width, height);
    if width == 0 {
        assert(width * height == 0) by (nonlinear_arith)
            requires
                width == 0,
        ;
        assert(mm =~= s);
        return ;
    }
    assert forall|i: int| 0 <= i < s.len() implies mm[i] == s[i] by {
        vstd::arithmetic::div_mod::lemma_fundamental_div_mod(i, width);
        vstd::arithmetic::div_mod::lemma_mod_bound(i, width);
        let qi = i / width;
        let ri = i % width;
        assert(0 <= qi < height) by (nonlinear_arith)
            requires
                i == width * qi + ri,
                0 <= ri < width,
                0 <= i,
                i < width * height,
                0 < width,
        ;
        let j = (height - 1 - qi) * width + ri;
        vstd::arithmetic::div_mod::lemma_fundamental_div_mod_converse(j, width, height - 1 - qi, ri);
        assert(0 <= j < s.len()) by (nonlinear_arith)
            requires
                j == (height - 1 - qi) * width + ri,
                0 <= ri < width,
                0 <= height - 1 - qi < height,
                s.len() == width * height,
        ;
        assert(mm[i] == m[j]);
        assert(m[j] == s[(height - 1 - j / width) * width + j % width]);
        assert((height - 1 - (height - 1 - qi)) * width + ri == qi * width + ri);
        assert(qi * width + ri == i) by (nonlinear_arith)
            requires
                i == width * qi + ri,
        ;
    };
    assert(mm =~= s);
}

/// Cropping a grid to its full rectangle returns the grid unchanged.
pub proof fn lemma_crop_full_identity(s: Seq<BitmapPixel>, width: int, height: int)
    requires
        width >= 0,
        height >= 0,
        s.len() == width * height,
    ensures
        spec_crop_rect(s, width, 0, 0, width, height) == s,
{
    let c = spec_crop_rect(s, width, 0, 0, width, height);
    if width == 0 {
        assert(width * height == 0) by (nonlinear_arith)
            requires
                width == 0,
        ;
        assert(c =~= s);
        return ;
    }
    assert forall|i: int| 0 <= i < s.len() implies c[i] == s[i] by {
        vstd::arithmetic::div_mod::lemma_fundamental_div_mod(i, width);
        vstd::arithmetic::div_mod::lemma_mod_bound(i, width);
        assert(c[i] == s[(i / width) * width + i % width]);
        assert((i / width) * width + i % width == i) by (nonlinear_arith)
            requires
                i == width * (i / width) + i % width,
        ;
    };
    assert(c =~= s);
}

/// Decoding an encoded 32-bit uncompressed stream reproduces every pixel's
/// red, green and blue exactly and forces alpha to fully opaque.
pub proof fn lemma_round_trip_32_uncompressed(pixels: Seq<BitmapPixel>)
    ensures
        crate::bitmap_read::spec_dec_32u(crate::bitmap_write::spec_enc_32u(pixels))
            == spec_force_opaque(pixels),
        crate::bitmap_write::spec_enc_32u(pixels).len() == 4 * pixels.len(),
    decreases pixels.len(),
{
    let enc = crate::bitmap_write::spec_enc_32u(pixels);
    if pixels.len() == 0 {
        assert(crate::bitmap_read::spec_dec_32u(enc) =~= spec_force_opaque(pixels));
    } else {
        let rest = pixels.skip(1);
        lemma_round_trip_32_uncompressed(rest);
        let head = seq![pixels[0].blue, pixels[0].green, pixels[0].red, 0u8];
        assert(enc == head + crate::bitmap_write::spec_enc_32u(rest));
        assert(enc.skip(4) =~= crate::bitmap_write::spec_enc_32u(rest));
        assert(crate::bitmap_read::spec_dec_32u(enc) == seq![
            crate::bitmap_read::spec_dec_32u_pixel(enc),
        ] + crate::bitmap_read::spec_dec_32u(enc.skip(4)));
        assert(crate::bitmap_read::spec_dec_32u_pixel(enc) == spec_force_opaque(pixels)[0]);
        assert(crate::bitmap_read::spec_dec_32u(enc) =~= spec_force_opaque(pixels));
    }
}

proof fn lemma_enc_24_row_len(row: Seq<BitmapPixel>)
    ensures
        crate::bitmap_write::spec_enc_24_row(row).len() == 3 * row.len(),
    decreases row.len(),
{
    if row.len() > 0 {
        lemma_enc_24_row_len(row.skip(1));
    }
}

proof fn lemma_round_trip_24_row(row: Seq<BitmapPixel>, rest: Seq<u8>)
    ensures
        crate::bitmap_read::spec_dec_24_row(
            crate::bitmap_write::spec_enc_24_row(row) + rest,
            row.len() as int,
        ) == spec_force_opaque(row),
    decreases row.len(),
{
    let enc = crate::bitmap_write::spec_enc_24_row(row) + rest;
    if row.len() == 0 {
        assert(crate::bitmap_read::spec_dec_24_row(enc, 0) =~= spec_force_opaque(row));
    } else {
        lemma_round_trip_24_row(row.skip(1), rest);
        assert(enc.skip(3) =~= crate::bitmap_write::spec_enc_24_row(row.skip(1)) + rest);
        assert(crate::bitmap_read::spec_dec_24_row(enc, row.len() as int) == seq![
            BitmapPixel { blue: enc[0], green: enc[1], red: enc[2], alpha: 0xff },
        ] + crate::bitmap_read::spec_dec_24_row(enc.skip(3), row.len() - 1));
        assert(enc[0] == row[0].blue && enc[1] == row[0].green && enc[2] == row[0].red);
        assert(crate::bitmap_read::spec_dec_24_row(enc, row.len() as int) =~= spec_force_opaque(
            row,
        ));
    }
}

/// Decoding an encoded 24-bit uncompressed image reproduces every pixel's
/// red, green and blue exactly and forces alpha to fully opaque; the
/// encoding occupies exactly `height` aligned rows.
pub proof fn lemma_round_trip_24_uncompressed(pixels: Seq<BitmapPixel>, width: int, height: int)
    ensures
        width >= 0 && height >= 0 && pixels.len() == width * height
            ==> crate::bitmap_read::spec_dec_24(
            crate::bitmap_write::spec_enc_24(pixels, width, height),
            width,
            height,
        ) == spec_force_opaque(pixels) && crate::bitmap_write::spec_enc_24(
            pixels,
            width,
            height,
        ).len() == crate::util::spec_row_bytes(width, 24) * height,
    decreases height,
{
    if !(width >= 0 && height >= 0 && pixels.len() == width * height) {
        return ;
    }
    crate::util::lemma_row_bytes_24(width);
    let rb = crate::util::spec_row_bytes(width, 24);
    let pad = crate::util::spec_pad_to_align(3 * width, 4);
    let enc = crate::bitmap_write::spec_enc_24(pixels, width, height);
    if height == 0 {
        assert(width * height == 0) by (nonlinear_arith)
            requires
                height == 0,
        ;
        assert(enc.len() == rb * height) by (nonlinear_arith)
            requires
                enc.len() == 0,
                height == 0,
        ;
        assert(crate::bitmap_read::spec_dec_24(enc, width, height) =~= spec_force_opaque(pixels));
    } else {
        let row = pixels.take(width);
        let tail = pixels.skip(width);
        assert(width * height - width == width * (height - 1)) by (nonlinear_arith);
        assert(width <= width * height) by (nonlinear_arith)
            requires
                width >= 0,
                height >= 1,
        ;
        lemma_round_trip_24_uncompressed(tail, width, height - 1);
        lemma_enc_24_row_len(row);
        let enc_row = crate::bitmap_write::spec_enc_24_row(row);
        let enc_tail = crate::bitmap_write::spec_enc_24(tail, width, height - 1);
        let zeros = crate::bitmap_write::spec_zeros(pad);
        assert(enc == enc_row + zeros + enc_tail);
        lemma_round_trip_24_row(row, zeros + enc_tail);
        assert(enc =~= enc_row + (zeros + enc_tail));
        assert(crate::bitmap_read::spec_dec_24(enc, width, height)
            == crate::bitmap_read::spec_dec_24_row(enc, width) + crate::bitmap_read::spec_dec_24(
            enc.skip(rb),
            width,
            height - 1,
        ));
        assert(enc.skip(rb) =~= enc_tail);
        assert(crate::bitmap_read::spec_dec_24_row(enc, width) == spec_force_opaque(row));
        assert(crate::bitmap_read::spec_dec_24(enc, width, height) =~= spec_force_opaque(pixels));
        assert(enc.len() == rb + rb * (height - 1));
        assert(rb + rb * (height - 1) == rb * height) by (nonlinear_arith);
    }
}

proof fn lemma_unpack_8888(r: u8, g: u8, b: u8, a: u8)
    by (bit_vector)
    ensures
        ((((r as u32) << 24u32) | ((g as u32) << 16u32) | ((b as u32) << 8u32) | (((a as u32)
            << 0u32) & 0xff)) >> 24u32) & 0xff == r,
        ((((r as u32) << 24u32) | ((g as u32) << 16u32) | ((b as u32) << 8u32) | (((a as u32)
            << 0u32) & 0xff)) >> 16u32) & 0xff == g,
        ((((r as u32) << 24u32) | ((g as u32) << 16u32) | ((b as u32) << 8u32) | (((a as u32)
            << 0u32) & 0xff)) >> 8u32) & 0xff == b,
        ((((r as u32) << 24u32) | ((g as u32) << 16u32) | ((b as u32) << 8u32) | (((a as u32)
            << 0u32) & 0xff)) >> 0u32) & 0xff == a,
{
}

proof fn lemma_default_mask_offsets()
    ensures
        crate::util::spec_mask_offset(0xff000000u32) == 24,
        crate::util::spec_mask_offset(0x00ff0000u32) == 16,
        crate::util::spec_mask_offset(0x0000ff00u32) == 8,
        crate::util::spec_mask_offset(0x000000ffu32) == 0,
{
    reveal_with_fuel(crate::util::spec_mask_offset, 33);
}

/// Decoding an encoded 32-bit bitfields pixel with the default RGBA masks
/// reproduces all four channels exactly.
pub proof fn lemma_round_trip_32bf_pixel(p: BitmapPixel)
    ensures
        crate::bitmap_read::spec_dec_32bf_pixel(
            crate::bitmap_write::spec_enc_32bf_word(p, 0xff000000, 0x00ff0000, 0x0000ff00, 0xff),
            0xff000000,
            0x00ff0000,
            0x0000ff00,
            0xff,
        ) == p,
{
    lemma_default_mask_offsets();
    let word = crate::bitmap_write::spec_enc_32bf_word(p, 0xff000000, 0x00ff0000, 0x0000ff00, 0xff);
    assert(word == ((p.red as u32) << 24u32) | ((p.green as u32) << 16u32) | ((p.blue as u32)
        << 8u32) | (((p.alpha as u32) << 0u32) & 0xff));
    lemma_unpack_8888(p.red, p.green, p.blue, p.alpha);
    let q = crate::bitmap_read::spec_dec_32bf_pixel(
        word,
        0xff000000,
        0x00ff0000,
        0x0000ff00,
        0xff,
    );
    assert(q.red == ((word >> 24u32) & 0xff) as u8);
    assert(q.green == ((word >> 16u32) & 0xff) as u8);
    assert(q.blue == ((word >> 8u32) & 0xff) as u8);
    assert(q.alpha == ((word >> 0u32) & 0xff) as u8);
}

/// Decoding an encoded 32-bit bitfields stream with the default RGBA masks
/// (a nonzero alpha mask) reproduces every pixel exactly, alpha included.
pub proof fn lemma_round_trip_32_bitfield(pixels: Seq<BitmapPixel>)
    ensures
        crate::bitmap_read::spec_dec_32bf(
            crate::bitmap_write::spec_enc_32bf(pixels, 0xff000000, 0x00ff0000, 0x0000ff00, 0xff),
            0xff000000,
            0x00ff0000,
            0x0000ff00,
            0xff,
        ) == pixels,
        crate::bitmap_write::spec_enc_32bf(
            pixels,
            0xff000000,
            0x00ff0000,
            0x0000ff00,
            0xff,
        ).len() == 4 * pixels.len(),
    decreases pixels.len(),
{
    let enc = crate::bitmap_write::spec_enc_32bf(pixels, 0xff000000, 0x00ff0000, 0x0000ff00, 0xff);
    vstd::bytes::lemma_auto_spec_u32_to_from_le_bytes();
    if pixels.len() == 0 {
        assert(crate::bitmap_read::spec_dec_32bf(
            enc,
            0xff000000,
            0x00ff0000,
            0x0000ff00,
            0xff,
        ) =~= pixels);
    } else {
        let rest = pixels.skip(1);
        lemma_round_trip_32_bitfield(rest);
        let word = crate::bitmap_write::spec_enc_32bf_word(
            pixels[0],
            0xff000000,
            0x00ff0000,
            0x0000ff00,
            0xff,
        );
        let head = vstd::bytes::spec_u32_to_le_bytes(word);
        assert(enc == head + crate::bitmap_write::spec_enc_32bf(
            rest,
            0xff000000,
            0x00ff0000,
            0x0000ff00,
            0xff,
        ));
        assert(enc.skip(4) =~= crate::bitmap_write::spec_enc_32bf(
            rest,
            0xff000000,
            0x00ff0000,
            0x0000ff00,
            0xff,
        ));
        assert(enc.subrange(0, 4) =~= head);
        assert(vstd::bytes::spec_u32_from_le_bytes(enc.subrange(0, 4)) == word);
        assert(crate::bitmap_read::spec_dec_32bf(enc, 0xff000000, 0x00ff0000, 0x0000ff00, 0xff)
            == seq![
            crate::bitmap_read::spec_dec_32bf_pixel(word, 0xff000000, 0x00ff0000, 0x0000ff00, 0xff),
        ] + crate::bitmap_read::spec_dec_32bf(enc.skip(4), 0xff000000, 0x00ff0000, 0x0000ff00, 0xff));
        lemma_round_trip_32bf_pixel(pixels[0]);
        assert(crate::bitmap_read::spec_dec_32bf(
            enc,
            0xff000000,
            0x00ff0000,
            0x0000ff00,
            0xff,
        ) =~= pixels);
    }
}

proof fn lemma_unpack_888x(r: u8, g: u8, b: u8, a: u8)
    by (bit_vector)
    ensures
        ((((r as u32) << 24u32) | ((g as u32) << 16u32) | ((b as u32) << 8u32) | (((a as u32)
            << 0u32) & 0)) >> 24u32) & 0xff == r,
        ((((r as u32) << 24u32) | ((g as u32) << 16u32) | ((b as u32) << 8u32) | (((a as u32)
            << 0u32) & 0)) >> 16u32) & 0xff == g,
        ((((r as u32) << 24u32) | ((g as u32) << 16u32) | ((b as u32) << 8u32) | (((a as u32)
            << 0u32) & 0)) >> 8u32) & 0xff == b,
{
}

/// Decoding an encoded 32-bit bitfields stream whose alpha mask is zero
/// (the XRGB convention) reproduces every pixel's red, green and blue
/// exactly and forces alpha to fully opaque.
pub proof fn lemma_round_trip_32_bitfield_xrgb(pixels: Seq<BitmapPixel>)
    ensures
        crate::bitmap_read::spec_dec_32bf(
            crate::bitmap_write::spec_enc_32bf(pixels, 0xff000000, 0x00ff0000, 0x0000ff00, 0),
            0xff000000,
            0x00ff0000,
            0x0000ff00,
            0,
        ) == spec_force_opaque(pixels),
    decreases pixels.len(),
{
    let enc = crate::bitmap_write::spec_enc_32bf(pixels, 0xff000000, 0x00ff0000, 0x0000ff00, 0);
    vstd::bytes::lemma_auto_spec_u32_to_from_le_bytes();
    if pixels.len() == 0 {
        assert(crate::bitmap_read::spec_dec_32bf(enc, 0xff000000, 0x00ff0000, 0x0000ff00, 0)
            =~= spec_force_opaque(pixels));
    } else {
        let rest = pixels.skip(1);
        lemma_round_trip_32_bitfield_xrgb(rest);
        let word = crate::bitmap_write::spec_enc_32bf_word(
            pixels[0],
            0xff000000,
            0x00ff0000,
            0x0000ff00,
            0,
        );
        let head = vstd::bytes::spec_u32_to_le_bytes(word);
        assert(enc == head + crate::bitmap_write::spec_enc_32bf(
            rest,
            0xff000000,
            0x00ff0000,
            0x0000ff00,
            0,
        ));
        assert(enc.skip(4) =~= crate::bitmap_write::spec_enc_32bf(
            rest,
            0xff000000,
            0x00ff0000,
            0x0000ff00,
            0,
        ));
        assert(enc.subrange(0, 4) =~= head);
        assert(vstd::bytes::spec_u32_from_le_bytes(enc.subrange(0, 4)) == word);
        assert(crate::bitmap_read::spec_dec_32bf(enc, 0xff000000, 0x00ff0000, 0x0000ff00, 0)
            == seq![
            crate::bitmap_read::spec_dec_32bf_pixel(word, 0xff000000, 0x00ff0000, 0x0000ff00, 0),
        ] + crate::bitmap_read::spec_dec_32bf(enc.skip(4), 0xff000000, 0x00ff0000, 0x0000ff00, 0));
        lemma_default_mask_offsets();
        lemma_unpack_888x(pixels[0].red, pixels[0].green, pixels[0].blue, pixels[0].alpha);
        let q = crate::bitmap_read::spec_dec_32bf_pixel(word, 0xff000000, 0x00ff0000, 0x0000ff00, 0);
        assert(q == spec_force_opaque(pixels)[0]);
        assert(crate::bitmap_read::spec_dec_32bf(enc, 0xff000000, 0x00ff0000, 0x0000ff00, 0)
            =~= spec_force_opaque(pixels));
    }
}

/// Whether an 8-bit channel value survives the round trip down to an
/// `N`-bit channel of maximum `m` and back up.
pub open spec fn spec_channel_representable(c: u8, m: u32) -> bool {
    crate::util::spec_map_zero_based(crate::util::spec_map_zero_based(c, 255, m), m, 255) == c
}

/// Every value scaled up from a 5-bit channel survives the 5-bit round
/// trip: such values are exactly the ones a 16-bit bitfields encode can
/// reproduce.
pub proof fn lemma_upscaled_channel_representable(five_bit: u8)
    requires
        five_bit <= 0x1f,
    ensures
        spec_channel_representable(
            crate::util::spec_map_zero_based(five_bit, 0x1f, 255),
            0x1f,
        ),
{
    crate::util::lemma_scale_round_trip(five_bit, 0x1f);
}

proof fn lemma_unpack_555(sr: u8, sg: u8, sb: u8)
    by (bit_vector)
    requires
        sr <= 31,
        sg <= 31,
        sb <= 31,
    ensures
        ((((((sr as u16) << 10u16) | ((sg as u16) << 5u16) | ((sb as u16) << 0u16)) as u32)
            & 0x7c00) >> 10u32) == sr,
        ((((((sr as u16) << 10u16) | ((sg as u16) << 5u16) | ((sb as u16) << 0u16)) as u32) & 0x3e0)
            >> 5u32) == sg,
        ((((((sr as u16) << 10u16) | ((sg as u16) << 5u16) | ((sb as u16) << 0u16)) as u32) & 0x1f)
            >> 0u32) == sb,
{
}

proof fn lemma_555_mask_facts()
    ensures
        crate::util::spec_mask_offset(0x7c00u32) == 10,
        crate::util::spec_mask_offset(0x3e0u32) == 5,
        crate::util::spec_mask_offset(0x1fu32) == 0,
        crate::util::spec_mask_offset(0u32) == 0,
        crate::util::spec_mask_shifted(0x7c00u32) == 0x1f,
        crate::util::spec_mask_shifted(0x3e0u32) == 0x1f,
        crate::util::spec_mask_shifted(0x1fu32) == 0x1f,
        crate::util::spec_mask_shifted(0u32) == 0,
{
    reveal_with_fuel(crate::util::spec_mask_offset, 16);
    reveal_with_fuel(crate::util::spec_mask_shifted, 16);
}

/// Decoding an encoded 16-bit bitfields pixel with the 5-5-5 masks and no
/// alpha mask reproduces red, green and blue exactly — provided each
/// channel value survives the 5-bit round trip — and forces alpha to fully
/// opaque.
pub proof fn lemma_round_trip_16bf_pixel(p: BitmapPixel)
    requires
        spec_channel_representable(p.red, 0x1f),
        spec_channel_representable(p.green, 0x1f),
        spec_channel_representable(p.blue, 0x1f),
    ensures
        crate::bitmap_read::spec_dec_16bf_pixel(
            crate::bitmap_write::spec_enc_16bf_word(p, 0x7c00, 0x3e0, 0x1f, 0),
            0x7c00,
            0x3e0,
            0x1f,
            0,
        ) == (BitmapPixel { blue: p.blue, green: p.green, red: p.red, alpha: 0xff }),
{
    lemma_555_mask_facts();
    let sr = crate::util::spec_map_zero_based(p.red, 255, 0x1f);
    let sg = crate::util::spec_map_zero_based(p.green, 255, 0x1f);
    let sb = crate::util::spec_map_zero_based(p.blue, 255, 0x1f);
    let sa = crate::util::spec_map_zero_based(p.alpha, 255, 0);
    crate::util::lemma_scale_within(p.red, 255, 0x1f);
    crate::util::lemma_scale_within(p.green, 255, 0x1f);
    crate::util::lemma_scale_within(p.blue, 255, 0x1f);
    let word = crate::bitmap_write::spec_enc_16bf_word(p, 0x7c00, 0x3e0, 0x1f, 0);
    assert(word == (((sr as u16) << 10u16) | ((sg as u16) << 5u16) | ((sb as u16) << 0u16) | (((
    sa as u16) << 0u16) & 0u16)));
    assert(((sa as u16) << 0u16) & 0u16 == 0u16) by (bit_vector);
    assert(word == ((((sr as u16) << 10u16) | ((sg as u16) << 5u16) | ((sb as u16) << 0u16)) | 0u16));
    assert(forall|x: u16| #![auto] x | 0u16 == x) by (bit_vector);
    assert(word == (((sr as u16) << 10u16) | ((sg as u16) << 5u16) | ((sb as u16) << 0u16)));
    lemma_unpack_555(sr, sg, sb);
    let w32 = word as u32;
    let q = crate::bitmap_read::spec_dec_16bf_pixel(word, 0x7c00, 0x3e0, 0x1f, 0);
    assert(((w32 & 0x7c00) >> 10u32) as u8 == sr);
    assert(((w32 & 0x3e0) >> 5u32) as u8 == sg);
    assert(((w32 & 0x1f) >> 0u32) as u8 == sb);
    assert(q.red == crate::util::spec_map_zero_based(sr, 0x1f, 255));
    assert(q.green == crate::util::spec_map_zero_based(sg, 0x1f, 255));
    assert(q.blue == crate::util::spec_map_zero_based(sb, 0x1f, 255));
    assert(q.alpha == 0xff);
}

proof fn lemma_enc_16bf_row_len(row: Seq<BitmapPixel>, red_mask: u32, green_mask: u32, blue_mask: u32, alpha_mask: u32)
    ensures
        crate::bitmap_write::spec_enc_16bf_row(
            row,
            red_mask,
            green_mask,
            blue_mask,
            alpha_mask,
        ).len() == 2 * row.len(),
    decreases row.len(),
{
    vstd::bytes::lemma_auto_spec_u16_to_from_le_bytes();
    if row.len() > 0 {
        lemma_enc_16bf_row_len(row.skip(1), red_mask, green_mask, blue_mask, alpha_mask);
    }
}

proof fn lemma_round_trip_16bf_row(row: Seq<BitmapPixel>, rest: Seq<u8>)
    requires
        forall|i: int|
            0 <= i < row.len() ==> spec_channel_representable(#[trigger] row[i].red, 0x1f)
                && spec_channel_representable(row[i].green, 0x1f) && spec_channel_representable(
                row[i].blue,
                0x1f,
            ),
    ensures
        crate::bitmap_read::spec_dec_16bf_row(
            crate::bitmap_write::spec_enc_16bf_row(row, 0x7c00, 0x3e0, 0x1f, 0) + rest,
            row.len() as int,
            0x7c00,
            0x3e0,
            0x1f,
            0,
        ) == spec_force_opaque(row),
    decreases row.len(),
{
    vstd::bytes::lemma_auto_spec_u16_to_from_le_bytes();
    let enc = crate::bitmap_write::spec_enc_16bf_row(row, 0x7c00, 0x3e0, 0x1f, 0) + rest;
    if row.len() == 0 {
        assert(crate::bitmap_read::spec_dec_16bf_row(enc, 0, 0x7c00, 0x3e0, 0x1f, 0)
            =~= spec_force_opaque(row));
    } else {
        lemma_round_trip_16bf_row(row.skip(1), rest);
        let word = crate::bitmap_write::spec_enc_16bf_word(row[0], 0x7c00, 0x3e0, 0x1f, 0);
        let head = vstd::bytes::spec_u16_to_le_bytes(word);
        assert(enc.skip(2) =~= crate::bitmap_write::spec_enc_16bf_row(
            row.skip(1),
            0x7c00,
            0x3e0,
            0x1f,
            0,
        ) + rest);
        assert(enc.subrange(0, 2) =~= head);
        assert(vstd::bytes::spec_u16_from_le_bytes(enc.subrange(0, 2)) == word);
        assert(crate::bitmap_read::spec_dec_16bf_row(
            enc,
            row.len() as int,
            0x7c00,
            0x3e0,
            0x1f,
            0,
        ) == seq![crate::bitmap_read::spec_dec_16bf_pixel(word, 0x7c00, 0x3e0, 0x1f, 0)]
            + crate::bitmap_read::spec_dec_16bf_row(
            enc.skip(2),
            row.len() - 1,
            0x7c00,
            0x3e0,
            0x1f,
            0,
        ));
        lemma_round_trip_16bf_pixel(row[0]);
        assert(crate::bitmap_read::spec_dec_16bf_row(enc, row.len() as int, 0x7c00, 0x3e0, 0x1f, 0)
            =~= spec_force_opaque(row));
    }
}

/// Decoding an encoded 16-bit bitfields image with the 5-5-5 masks and no
/// alpha mask reproduces every pixel's red, green and blue exactly —
/// provided each channel value survives the 5-bit round trip — and forces
/// alpha to fully opaque; the encoding occupies exactly `height` aligned
/// rows.
pub proof fn lemma_round_trip_16_bitfield(pixels: Seq<BitmapPixel>, width: int, height: int)
    requires
        forall|i: int|
            0 <= i < pixels.len() ==> spec_channel_representable(#[trigger] pixels[i].red, 0x1f)
                && spec_channel_representable(pixels[i].green, 0x1f)
                && spec_channel_representable(pixels[i].blue, 0x1f),
    ensures
        width >= 0 && height >= 0 && pixels.len() == width * height
            ==> crate::bitmap_read::spec_dec_16bf(
            crate::bitmap_write::spec_enc_16bf(pixels, width, height, 0x7c00, 0x3e0, 0x1f, 0),
            width,
            height,
            0x7c00,
            0x3e0,
            0x1f,
            0,
        ) == spec_force_opaque(pixels) && crate::bitmap_write::spec_enc_16bf(
            pixels,
            width,
            height,
            0x7c00,
            0x3e0,
            0x1f,
            0,
        ).len() == crate::util::spec_row_bytes(width, 16) * height,
    decreases height,
{
    if !(width >= 0 && height >= 0 && pixels.len() == width * height) {
        return ;
    }
    crate::util::lemma_row_bytes_16(width);
    let rb = crate::util::spec_row_bytes(width, 16);
    let pad = crate::util::spec_pad_to_align(2 * width, 4);
    let enc = crate::bitmap_write::spec_enc_16bf(pixels, width, height, 0x7c00, 0x3e0, 0x1f, 0);
    if height == 0 {
        assert(width * height == 0) by (nonlinear_arith)
            requires
                height == 0,
        ;
        assert(enc.len() == rb * height) by (nonlinear_arith)
            requires
                enc.len() == 0,
                height == 0,
        ;
        assert(crate::bitmap_read::spec_dec_16bf(enc, width, height, 0x7c00, 0x3e0, 0x1f, 0)
            =~= spec_force_opaque(pixels));
    } else {
        let row = pixels.take(width);
        let tail = pixels.skip(width);
        assert(width * height - width == width * (height - 1)) by (nonlinear_arith);
        assert(width <= width * height) by (nonlinear_arith)
            requires
                width >= 0,
                height >= 1,
        ;
        lemma_round_trip_16_bitfield(tail, width, height - 1);
        lemma_enc_16bf_row_len(row, 0x7c00, 0x3e0, 0x1f, 0);
        let enc_row = crate::bitmap_write::spec_enc_16bf_row(row, 0x7c00, 0x3e0, 0x1f, 0);
        let enc_tail = crate::bitmap_write::spec_enc_16bf(
            tail,
            width,
            height - 1,
            0x7c00,
            0x3e0,
            0x1f,
            0,
        );
        let zeros = crate::bitmap_write::spec_zeros(pad);
        assert(enc == enc_row + zeros + enc_tail);
        lemma_round_trip_16bf_row(row, zeros + enc_tail);
        assert(enc =~= enc_row + (zeros + enc_tail));
        assert(crate::bitmap_read::spec_dec_16bf(enc, width, height, 0x7c00, 0x3e0, 0x1f, 0)
            == crate::bitmap_read::spec_dec_16bf_row(enc, width, 0x7c00, 0x3e0, 0x1f, 0)
            + crate::bitmap_read::spec_dec_16bf(
            enc.skip(rb),
            width,
            height - 1,
            0x7c00,
            0x3e0,
            0x1f,
            0,
        ));
        assert(enc.skip(rb) =~= enc_tail);
        assert(crate::bitmap_read::spec_dec_16bf_row(enc, width, 0x7c00, 0x3e0, 0x1f, 0)
            == spec_force_opaque(row));
        assert(crate::bitmap_read::spec_dec_16bf(enc, width, height, 0x7c00, 0x3e0, 0x1f, 0)
            =~= spec_force_opaque(pixels));
        assert(enc.len() == rb + rb * (height - 1));
        assert(rb + rb * (height - 1) == rb * height) by (nonlinear_arith);
    }
}

proof fn lemma_i32_u32_round_trip(x: i32)
    by (bit_vector)
    ensures
        ((x as u32) as i32) == x,
{
}

proof fn lemma_header_bytes_lens(fh: crate::header::BitmapFileHeader, ih: crate::header::BitmapInfoHeader)
    ensures
        crate::header::spec_file_header_bytes(fh).len() == 14,
        ih.info_header_size > 40 ==> crate::header::spec_info_header_bytes(ih).len() == 56,
        ih.info_header_size <= 40 ==> crate::header::spec_info_header_bytes(ih).len() == 40,
{
    vstd::bytes::lemma_auto_spec_u16_to_from_le_bytes();
    vstd::bytes::lemma_auto_spec_u32_to_from_le_bytes();
}

/// Serializing a fresh default-format bitmap and decoding the bytes again
/// returns the very pixel grid that was serialized, headers and all: the
/// whole-file round trip behind the blank-image scenario.
#[verifier::rlimit(100)]
#[verifier::spinoff_prover]
pub proof fn lemma_default_format_file_round_trip(pixels: Seq<BitmapPixel>, width: i32, height: i32)
    requires
        0 <= width,
        0 <= height,
        pixels.len() == width * height,
        crate::util::spec_image_data_size(width as int, height as int, 32) + 70 <= u32::MAX,
    ensures
        ({
            let (fh, ih) = crate::bitmap::Bitmap::create_headers_spec(
                width,
                height,
                32,
                crate::header::CompressionType::BitFields,
            );
            let encoded = crate::bitmap::spec_bitmap_into_data(fh, ih, None, pixels);
            &&& encoded is Ok
            &&& crate::bitmap::spec_from_data_outcome(encoded.unwrap()) is Ok
            &&& crate::header::spec_parse_file_header(encoded.unwrap()) == fh
            &&& crate::header::spec_parse_info_header(encoded.unwrap().skip(14)) == ih
            &&& crate::bitmap::spec_from_data_pixels(encoded.unwrap()) == Ok::<
                Seq<BitmapPixel>,
                crate::header::BitmapError,
            >(pixels)
        }),
{
    vstd::bytes::lemma_auto_spec_u16_to_from_le_bytes();
    vstd::bytes::lemma_auto_spec_u32_to_from_le_bytes();
    crate::util::lemma_row_bytes_32(width as int);
    lemma_round_trip_32_bitfield(pixels);
    lemma_i32_u32_round_trip(width);
    lemma_i32_u32_round_trip(height);
    let (fh, ih) = crate::bitmap::Bitmap::create_headers_spec(
        width,
        height,
        32,
        crate::header::CompressionType::BitFields,
    );
    lemma_header_bytes_lens(fh, ih);
    let fh_bytes = crate::header::spec_file_header_bytes(fh);
    let ih_bytes = crate::header::spec_info_header_bytes(ih);
    let header_bytes = fh_bytes + ih_bytes;
    let enc = crate::bitmap_write::spec_enc_32bf(pixels, 0xff000000, 0x00ff0000, 0x0000ff00, 0xff);
    assert(4 * (width as int) * (height as int) == 4 * ((width as int) * (height as int))) by (
    nonlinear_arith);
    assert(ih.image_size == 4 * (width as int) * (height as int)) by {
        assert(crate::util::spec_image_data_size(width as int, height as int, 32)
            == crate::util::spec_row_bytes(width as int, 32) * (height as int));
        assert((4 * (width as int)) * (height as int) == 4 * (width as int) * (height as int)) by (
        nonlinear_arith);
        assert(0 <= (width as int) * (height as int)) by (nonlinear_arith)
            requires
                width >= 0,
                height >= 0,
        ;
    };
    // serialization succeeds: no palette is needed and the headers leave
    // exactly no gap before the pixel array
    assert(header_bytes.len() == 70);
    assert(fh.pixel_array_offset == 70);
    let outcome = crate::bitmap::spec_bitmap_into_data(fh, ih, None, pixels);
    assert(crate::bitmap::spec_pixels_into_data(pixels, ih, None) == Ok::<
        Seq<u8>,
        crate::header::BitmapError,
    >(enc));
    assert(outcome is Ok);
    let bytes = outcome.unwrap();
    assert(bytes =~= header_bytes + enc) by {
        assert(crate::bitmap_write::spec_zeros(0) =~= Seq::<u8>::empty());
    };
    // the file header parses back to itself
    assert(bytes.subrange(0, 2) =~= vstd::bytes::spec_u16_to_le_bytes(fh.magic_number));
    assert(bytes.subrange(2, 6) =~= vstd::bytes::spec_u32_to_le_bytes(fh.file_size));
    assert(bytes.subrange(6, 8) =~= vstd::bytes::spec_u16_to_le_bytes(fh.reserved1));
    assert(bytes.subrange(8, 10) =~= vstd::bytes::spec_u16_to_le_bytes(fh.reserved2));
    assert(bytes.subrange(10, 14) =~= vstd::bytes::spec_u32_to_le_bytes(fh.pixel_array_offset));
    assert(crate::header::spec_parse_file_header(bytes) == fh);
    // the info header parses back to itself
    let tail = bytes.skip(14);
    assert(tail.subrange(0, 4) =~= vstd::bytes::spec_u32_to_le_bytes(ih.info_header_size));
    assert(tail.subrange(4, 8) =~= vstd::bytes::spec_u32_to_le_bytes(ih.image_width as u32));
    assert(tail.subrange(8, 12) =~= vstd::bytes::spec_u32_to_le_bytes(ih.image_height as u32));
    assert(tail.subrange(12, 14) =~= vstd::bytes::spec_u16_to_le_bytes(ih.n_planes));
    assert(tail.subrange(14, 16) =~= vstd::bytes::spec_u16_to_le_bytes(ih.bits_per_pixel));
    assert(tail.subrange(16, 20) =~= vstd::bytes::spec_u32_to_le_bytes(ih.compression_type));
    assert(tail.subrange(20, 24) =~= vstd::bytes::spec_u32_to_le_bytes(ih.image_size));
    assert(tail.subrange(24, 28) =~= vstd::bytes::spec_u32_to_le_bytes(ih.pixels_per_meter_x as u32));
    assert(tail.subrange(28, 32) =~= vstd::bytes::spec_u32_to_le_bytes(ih.pixels_per_meter_y as u32));
    assert(tail.subrange(32, 36) =~= vstd::bytes::spec_u32_to_le_bytes(ih.colors_used));
    assert(tail.subrange(36, 40) =~= vstd::bytes::spec_u32_to_le_bytes(ih.colors_important));
    assert(tail.subrange(40, 44) =~= vstd::bytes::spec_u32_to_le_bytes(ih.red_mask));
    assert(tail.subrange(44, 48) =~= vstd::bytes::spec_u32_to_le_bytes(ih.green_mask));
    assert(tail.subrange(48, 52) =~= vstd::bytes::spec_u32_to_le_bytes(ih.blue_mask));
    assert(tail.subrange(52, 56) =~= vstd::bytes::spec_u32_to_le_bytes(ih.alpha_mask));
    let parsed = crate::header::spec_parse_info_header(tail);
    assert(vstd::bytes::spec_u32_from_le_bytes(tail.subrange(8, 12)) as i32 == ih.image_height);
    assert(parsed == ih);
    assert(crate::header::spec_info_header_parse_result(tail) == Ok::<
        crate::header::BitmapInfoHeader,
        crate::header::BitmapError,
    >(ih));
    // the container checks pass and the pixel array decodes to the grid
    assert(crate::header::spec_file_header_valid(fh));
    let region = bytes.subrange(70, 70 + crate::bitmap::spec_from_data_image_size(ih));
    assert(region =~= enc);
    assert(enc.len() % 4 == 0) by {
        assert(4 * pixels.len() % 4 == 0) by (nonlinear_arith);
    };
    assert(crate::bitmap::spec_from_data_palette(bytes) is None);
    assert(crate::bitmap::spec_from_data_pixels(bytes) == crate::bitmap::spec_interpret_image_data(
        region,
        ih,
        None,
    ));
    assert(crate::bitmap::spec_check_count(
        pixels,
        (width as int) * (height as int),
    ) == Ok::<Seq<BitmapPixel>, crate::header::BitmapError>(pixels));
    assert(crate::bitmap::spec_from_data_pixels(bytes) == Ok::<
        Seq<BitmapPixel>,
        crate::header::BitmapError,
    >(pixels));
    assert(crate::bitmap::spec_from_data_outcome(bytes) is Ok);
}

/// The grid with every pixel replaced by its nearest palette entry.
pub open spec fn spec_quantized(s: Seq<BitmapPixel>, palette: Seq<BitmapPixel>) -> Seq<
    BitmapPixel,
> {
    Seq::new(s.len(), |i: int| palette[crate::pixel::spec_closest_index(s[i], palette)])
}

/// Quantization is exact on pixels whose color occurs in the palette: the
/// chosen entry has the same red, green and blue.
pub proof fn lemma_quantized_preserves_colors(s: Seq<BitmapPixel>, palette: Seq<BitmapPixel>)
    requires
        forall|i: int|
            0 <= i < s.len() ==> exists|j: int|
                0 <= j < palette.len() && crate::pixel::spec_same_color(#[trigger] s[i], palette[j]),
    ensures
        forall|i: int|
            0 <= i < s.len() ==> crate::pixel::spec_same_color(
                #[trigger] spec_quantized(s, palette)[i],
                s[i],
            ),
{
    assert forall|i: int| 0 <= i < s.len() implies crate::pixel::spec_same_color(
        #[trigger] spec_quantized(s, palette)[i],
        s[i],
    ) by {
        let j = choose|j: int|
            0 <= j < palette.len() && crate::pixel::spec_same_color(s[i], palette[j]);
        crate::pixel::lemma_closest_index_exact_match(s[i], palette, j);
    };
}

proof fn lemma_enc_8_row_len(row: Seq<BitmapPixel>, palette: Seq<BitmapPixel>)
    ensures
        crate::bitmap_write::spec_enc_8_row(row, palette).len() == row.len(),
    decreases row.len(),
{
    if row.len() > 0 {
        lemma_enc_8_row_len(row.skip(1), palette);
    }
}

proof fn lemma_round_trip_8_row(row: Seq<BitmapPixel>, palette: Seq<BitmapPixel>, rest: Seq<u8>)
    requires
        1 <= palette.len() <= 256,
    ensures
        crate::bitmap_read::spec_dec_8_row(
            crate::bitmap_write::spec_enc_8_row(row, palette) + rest,
            palette,
            row.len() as int,
        ) == spec_quantized(row, palette),
    decreases row.len(),
{
    let enc = crate::bitmap_write::spec_enc_8_row(row, palette) + rest;
    if row.len() == 0 {
        assert(crate::bitmap_read::spec_dec_8_row(enc, palette, 0) =~= spec_quantized(
            row,
            palette,
        ));
    } else {
        lemma_round_trip_8_row(row.skip(1), palette, rest);
        crate::pixel::lemma_closest_index_minimal(row[0], palette, palette.len() as int);
        let ci = crate::pixel::spec_closest_index(row[0], palette);
        assert(enc[0] == ci as u8);
        assert(enc[0] as int == ci);
        assert(enc.skip(1) =~= crate::bitmap_write::spec_enc_8_row(row.skip(1), palette) + rest);
        assert(crate::bitmap_read::spec_dec_8_row(enc, palette, row.len() as int) == seq![
            palette[enc[0] as int],
        ] + crate::bitmap_read::spec_dec_8_row(enc.skip(1), palette, row.len() - 1));
        assert(crate::bitmap_read::spec_dec_8_row(enc, palette, row.len() as int)
            =~= spec_quantized(row, palette));
    }
}

/// Decoding an encoded 8-bit indexed image returns every pixel's nearest
/// palette entry; the encoding occupies exactly `height` aligned rows.
pub proof fn lemma_round_trip_8_uncompressed(
    pixels: Seq<BitmapPixel>,
    palette: Seq<BitmapPixel>,
    width: int,
    height: int,
)
    requires
        1 <= palette.len() <= 256,
    ensures
        width >= 0 && height >= 0 && pixels.len() == width * height
            ==> crate::bitmap_read::spec_dec_8(
            crate::bitmap_write::spec_enc_8(pixels, palette, width, height),
            palette,
            width,
            height,
        ) == spec_quantized(pixels, palette) && crate::bitmap_write::spec_enc_8(
            pixels,
            palette,
            width,
            height,
        ).len() == crate::util::spec_row_bytes(width, 8) * height,
    decreases height,
{
    if !(width >= 0 && height >= 0 && pixels.len() == width * height) {
        return ;
    }
    crate::util::lemma_row_bytes_8(width);
    let rb = crate::util::spec_row_bytes(width, 8);
    let pad = crate::util::spec_pad_to_align(width, 4);
    let enc = crate::bitmap_write::spec_enc_8(pixels, palette, width, height);
    if height == 0 {
        assert(width * height == 0) by (nonlinear_arith)
            requires
                height == 0,
        ;
        assert(enc.len() == rb * height) by (nonlinear_arith)
            requires
                enc.len() == 0,
                height == 0,
        ;
        assert(crate::bitmap_read::spec_dec_8(enc, palette, width, height) =~= spec_quantized(
            pixels,
            palette,
        ));
    } else {
        let row = pixels.take(width);
        let tail = pixels.skip(width);
        assert(width * height - width == width * (height - 1)) by (nonlinear_arith);
        assert(width <= width * height) by (nonlinear_arith)
            requires
                width >= 0,
                height >= 1,
        ;
        lemma_round_trip_8_uncompressed(tail, palette, width, height - 1);
        lemma_enc_8_row_len(row, palette);
        let enc_row = crate::bitmap_write::spec_enc_8_row(row, palette);
        let enc_tail = crate::bitmap_write::spec_enc_8(tail, palette, width, height - 1);
        let zeros = crate::bitmap_write::spec_zeros(pad);
        assert(enc == enc_row + zeros + enc_tail);
        lemma_round_trip_8_row(row, palette, zeros + enc_tail);
        assert(enc =~= enc_row + (zeros + enc_tail));
        assert(crate::bitmap_read::spec_dec_8(enc, palette, width, height)
            == crate::bitmap_read::spec_dec_8_row(enc, palette, width)
            + crate::bitmap_read::spec_dec_8(enc.skip(rb), palette, width, height - 1));
        assert(enc.skip(rb) =~= enc_tail);
        assert(crate::bitmap_read::spec_dec_8_row(enc, palette, width) == spec_quantized(
            row,
            palette,
        ));
        assert(crate::bitmap_read::spec_dec_8(enc, palette, width, height) =~= spec_quantized(
            pixels,
            palette,
        ));
        assert(enc.len() == rb + rb * (height - 1));
        assert(rb + rb * (height - 1) == rb * height) by (nonlinear_arith);
    }
}

proof fn lemma_unpack_nibbles(i0: u8, i1: u8)
    by (bit_vector)
    requires
        i0 < 16,
        i1 < 16,
    ensures
        ((i0 << 4u8) | (i1 & 0x0f)) >> 4u8 == i0,
        ((i0 << 4u8) | (i1 & 0x0f)) & 0x0f == i1,
        (i0 << 4u8) >> 4u8 == i0,
{
}

proof fn lemma_enc_4_row_len(row: Seq<BitmapPixel>, palette: Seq<BitmapPixel>)
    ensures
        crate::bitmap_write::spec_enc_4_row(row, palette).len() == (row.len() + 1) / 2,
    decreases row.len(),
{
    if row.len() >= 2 {
        lemma_enc_4_row_len(row.skip(2), palette);
        let n = row.len() as int;
        vstd::arithmetic::div_mod::lemma_fundamental_div_mod(n - 1, 2);
        vstd::arithmetic::div_mod::lemma_mod_bound(n - 1, 2);
        vstd::arithmetic::div_mod::lemma_fundamental_div_mod_converse(
            n + 1,
            2,
            (n - 1) / 2 + 1,
            (n - 1) % 2,
        );
    }
}

proof fn lemma_round_trip_4_row(row: Seq<BitmapPixel>, palette: Seq<BitmapPixel>, rest: Seq<u8>)
    requires
        1 <= palette.len() <= 16,
    ensures
        crate::bitmap_read::spec_dec_4_row(
            crate::bitmap_write::spec_enc_4_row(row, palette) + rest,
            palette,
            row.len() as int,
        ) == spec_quantized(row, palette),
    decreases row.len(),
{
    let enc = crate::bitmap_write::spec_enc_4_row(row, palette) + rest;
    if row.len() == 0 {
        assert(crate::bitmap_read::spec_dec_4_row(enc, palette, 0) =~= spec_quantized(
            row,
            palette,
        ));
    } else if row.len() == 1 {
        crate::pixel::lemma_closest_index_minimal(row[0], palette, palette.len() as int);
        let ci = crate::pixel::spec_closest_index(row[0], palette);
        assert(enc[0] == (ci as u8) << 4u8);
        lemma_unpack_nibbles(ci as u8, 0);
        assert((enc[0] >> 4u8) as int == ci);
        assert(crate::bitmap_read::spec_dec_4_row(enc, palette, 1) == seq![
            palette[(enc[0] >> 4u8) as int],
        ]);
        assert(crate::bitmap_read::spec_dec_4_row(enc, palette, 1) =~= spec_quantized(
            row,
            palette,
        ));
    } else {
        lemma_round_trip_4_row(row.skip(2), palette, rest);
        crate::pixel::lemma_closest_index_minimal(row[0], palette, palette.len() as int);
        crate::pixel::lemma_closest_index_minimal(row[1], palette, palette.len() as int);
        let ci0 = crate::pixel::spec_closest_index(row[0], palette);
        let ci1 = crate::pixel::spec_closest_index(row[1], palette);
        assert(enc[0] == ((ci0 as u8) << 4u8) | ((ci1 as u8) & 0x0f));
        lemma_unpack_nibbles(ci0 as u8, ci1 as u8);
        assert((enc[0] >> 4u8) as int == ci0);
        assert((enc[0] & 0x0f) as int == ci1);
        assert(enc.skip(1) =~= crate::bitmap_write::spec_enc_4_row(row.skip(2), palette) + rest);
        assert(crate::bitmap_read::spec_dec_4_row(enc, palette, row.len() as int) == seq![
            palette[(enc[0] >> 4u8) as int],
            palette[(enc[0] & 0x0f) as int],
        ] + crate::bitmap_read::spec_dec_4_row(enc.skip(1), palette, row.len() - 2));
        assert(crate::bitmap_read::spec_dec_4_row(enc, palette, row.len() as int)
            =~= spec_quantized(row, palette));
    }
}

/// Decoding an encoded 4-bit indexed image returns every pixel's nearest
/// palette entry; the encoding occupies exactly `height` aligned rows.
pub proof fn lemma_round_trip_4_uncompressed(
    pixels: Seq<BitmapPixel>,
    palette: Seq<BitmapPixel>,
    width: int,
    height: int,
)
    requires
        1 <= palette.len() <= 16,
    ensures
        width >= 0 && height >= 0 && pixels.len() == width * height
            ==> crate::bitmap_read::spec_dec_4(
            crate::bitmap_write::spec_enc_4(pixels, palette, width, height),
            palette,
            width,
            height,
        ) == spec_quantized(pixels, palette) && crate::bitmap_write::spec_enc_4(
            pixels,
            palette,
            width,
            height,
        ).len() == crate::util::spec_row_bytes(width, 4) * height,
    decreases height,
{
    if !(width >= 0 && height >= 0 && pixels.len() == width * height) {
        return ;
    }
    crate::util::lemma_row_bytes_4(width);
    let rb = crate::util::spec_row_bytes(width, 4);
    let pad = crate::util::spec_pad_to_align((width + 1) / 2, 4);
    let enc = crate::bitmap_write::spec_enc_4(pixels, palette, width, height);
    if height == 0 {
        assert(width * height == 0) by (nonlinear_arith)
            requires
                height == 0,
        ;
        assert(enc.len() == rb * height) by (nonlinear_arith)
            requires
                enc.len() == 0,
                height == 0,
        ;
        assert(crate::bitmap_read::spec_dec_4(enc, palette, width, height) =~= spec_quantized(
            pixels,
            palette,
        ));
    } else {
        let row = pixels.take(width);
        let tail = pixels.skip(width);
        assert(width * height - width == width * (height - 1)) by (nonlinear_arith);
        assert(width <= width * height) by (nonlinear_arith)
            requires
                width >= 0,
                height >= 1,
        ;
        lemma_round_trip_4_uncompressed(tail, palette, width, height - 1);
        lemma_enc_4_row_len(row, palette);
        let enc_row = crate::bitmap_write::spec_enc_4_row(row, palette);
        let enc_tail = crate::bitmap_write::spec_enc_4(tail, palette, width, height - 1);
        let zeros = crate::bitmap_write::spec_zeros(pad);
        assert(enc == enc_row + zeros + enc_tail);
        lemma_round_trip_4_row(row, palette, zeros + enc_tail);
        assert(enc =~= enc_row + (zeros + enc_tail));
        assert(crate::bitmap_read::spec_dec_4(enc, palette, width, height)
            == crate::bitmap_read::spec_dec_4_row(enc, palette, width)
            + crate::bitmap_read::spec_dec_4(enc.skip(rb), palette, width, height - 1));
        assert(enc.skip(rb) =~= enc_tail);
        assert(crate::bitmap_read::spec_dec_4_row(enc, palette, width) == spec_quantized(
            row,
            palette,
        ));
        assert(crate::bitmap_read::spec_dec_4(enc, palette, width, height) =~= spec_quantized(
            pixels,
            palette,
        ));
        assert(enc.len() == rb + rb * (height - 1));
        assert(rb + rb * (height - 1) == rb * height) by (nonlinear_arith);
    }
}

/// The grid with every pixel replaced by palette entry 1 when its nearest
/// palette entry is not entry 0, and by entry 0 otherwise: what a 1-bit
/// encode followed by a decode produces.
pub open spec fn spec_two_level(s: Seq<BitmapPixel>, palette: Seq<BitmapPixel>) -> Seq<
    BitmapPixel,
> {
    Seq::new(
        s.len(),
        |i: int|
            if crate::pixel::spec_closest_index(s[i], palette) != 0 {
                palette[1]
            } else {
                palette[0]
            },
    )
}

proof fn lemma_or_bit_distributes(x: u8, y: u8, s: u8)
    by (bit_vector)
    requires
        s < 8,
    ensures
        ((x | y) >> s) & 1 == ((x >> s) & 1) | ((y >> s) & 1),
        ((x >> s) & 1) | 0 == (x >> s) & 1,
        (0u8 >> s) & 1 == 0,
        0u8 | ((y >> s) & 1) == (y >> s) & 1,
        1u8 | 0u8 == 1u8,
        0u8 | 1u8 == 1u8,
        0u8 | 0u8 == 0u8,
{
}

proof fn lemma_single_bit_probe(k: u8, s: u8)
    by (bit_vector)
    requires
        k < 8,
        s < 8,
    ensures
        ((0x80u8 >> k) >> s) & 1 == if s == 7 - k {
            1u8
        } else {
            0u8
        },
{
}

proof fn lemma_byte_bits_probe(palette: Seq<BitmapPixel>, block: Seq<BitmapPixel>, k: int, j: int)
    requires
        0 <= k,
        0 <= j < 8,
        block.len() <= 8,
    ensures
        (crate::bitmap_write::spec_byte_bits(palette, block, k) >> ((7 - j) as u8)) & 1 == if k <= j
            < block.len() && crate::pixel::spec_closest_index(block[j], palette) != 0 {
            1u8
        } else {
            0u8
        },
    decreases 8 - k,
{
    let s = (7 - j) as u8;
    if k >= 8 || k >= block.len() {
        assert(crate::bitmap_write::spec_byte_bits(palette, block, k) == 0);
        lemma_or_bit_distributes(0, 0, s);
    } else {
        lemma_byte_bits_probe(palette, block, k + 1, j);
        let bit_k: u8 = if crate::pixel::spec_closest_index(block[k], palette) != 0 {
            (0x80u8 >> (k as u8))
        } else {
            0u8
        };
        let suffix = crate::bitmap_write::spec_byte_bits(palette, block, k + 1);
        assert(crate::bitmap_write::spec_byte_bits(palette, block, k) == bit_k | suffix);
        lemma_or_bit_distributes(bit_k, suffix, s);
        lemma_single_bit_probe(k as u8, s);
    }
}

proof fn lemma_pixels_from_byte_of_block(
    palette: Seq<BitmapPixel>,
    block: Seq<BitmapPixel>,
    n_bits: int,
)
    requires
        palette.len() >= 2,
        block.len() <= 8,
        0 <= n_bits <= block.len(),
    ensures
        crate::bitmap_read::spec_pixels_from_byte(
            palette,
            crate::bitmap_write::spec_byte_from_pixels(palette, block),
            n_bits,
        ) == spec_two_level(block, palette).take(n_bits),
{
    let byte = crate::bitmap_write::spec_byte_from_pixels(palette, block);
    let dec = crate::bitmap_read::spec_pixels_from_byte(palette, byte, n_bits);
    assert forall|j: int| 0 <= j < n_bits implies dec[j] == spec_two_level(block, palette).take(
        n_bits,
    )[j] by {
        lemma_byte_bits_probe(palette, block, 0, j);
    };
    assert(dec =~= spec_two_level(block, palette).take(n_bits));
}

proof fn lemma_enc_1_row_len(row: Seq<BitmapPixel>, palette: Seq<BitmapPixel>)
    ensures
        crate::bitmap_write::spec_enc_1_row(row, palette).len() == (row.len() + 7) / 8,
    decreases row.len(),
{
    let n = row.len() as int;
    if n == 0 {
    } else if n >= 8 {
        lemma_enc_1_row_len(row.skip(8), palette);
        vstd::arithmetic::div_mod::lemma_fundamental_div_mod(n - 1, 8);
        vstd::arithmetic::div_mod::lemma_mod_bound(n - 1, 8);
        vstd::arithmetic::div_mod::lemma_fundamental_div_mod_converse(
            n + 7,
            8,
            (n - 1) / 8 + 1,
            (n - 1) % 8,
        );
        vstd::arithmetic::div_mod::lemma_fundamental_div_mod_converse(
            n - 8 + 7,
            8,
            (n - 1) / 8,
            (n - 1) % 8,
        );
    } else {
        vstd::arithmetic::div_mod::lemma_fundamental_div_mod_converse(n + 7, 8, 1, n - 1);
    }
}

proof fn lemma_round_trip_1_row(row: Seq<BitmapPixel>, palette: Seq<BitmapPixel>, rest: Seq<u8>)
    requires
        palette.len() >= 2,
    ensures
        crate::bitmap_read::spec_dec_1_row(
            crate::bitmap_write::spec_enc_1_row(row, palette) + rest,
            palette,
            row.len() as int,
        ) == spec_two_level(row, palette),
    decreases row.len(),
{
    let enc = crate::bitmap_write::spec_enc_1_row(row, palette) + rest;
    if row.len() == 0 {
        assert(crate::bitmap_read::spec_dec_1_row(enc, palette, 0) =~= spec_two_level(
            row,
            palette,
        ));
    } else if row.len() >= 8 {
        lemma_round_trip_1_row(row.skip(8), palette, rest);
        let block = row.take(8);
        assert(enc[0] == crate::bitmap_write::spec_byte_from_pixels(palette, block));
        lemma_pixels_from_byte_of_block(palette, block, 8);
        assert(enc.skip(1) =~= crate::bitmap_write::spec_enc_1_row(row.skip(8), palette) + rest);
        assert(crate::bitmap_read::spec_dec_1_row(enc, palette, row.len() as int)
            == crate::bitmap_read::spec_pixels_from_byte(palette, enc[0], 8)
            + crate::bitmap_read::spec_dec_1_row(enc.skip(1), palette, row.len() - 8));
        assert(spec_two_level(block, palette).take(8) =~= spec_two_level(block, palette));
        assert(crate::bitmap_read::spec_dec_1_row(enc, palette, row.len() as int) =~= spec_two_level(
            row,
            palette,
        ));
    } else {
        assert(enc[0] == crate::bitmap_write::spec_byte_from_pixels(palette, row));
        lemma_pixels_from_byte_of_block(palette, row, row.len() as int);
        assert(crate::bitmap_read::spec_dec_1_row(enc, palette, row.len() as int)
            == crate::bitmap_read::spec_pixels_from_byte(palette, enc[0], row.len() as int));
        assert(spec_two_level(row, palette).take(row.len() as int) =~= spec_two_level(row, palette));
        assert(crate::bitmap_read::spec_dec_1_row(enc, palette, row.len() as int) =~= spec_two_level(
            row,
            palette,
        ));
    }
}

/// Decoding an encoded 1-bit indexed image returns, for every pixel,
/// palette entry 1 when the pixel's nearest entry is not entry 0 and entry
/// 0 otherwise; the encoding occupies exactly `height` aligned rows.
pub proof fn lemma_round_trip_1_uncompressed(
    pixels: Seq<BitmapPixel>,
    palette: Seq<BitmapPixel>,
    width: int,
    height: int,
)
    requires
        palette.len() >= 2,
    ensures
        width >= 0 && height >= 0 && pixels.len() == width * height
            ==> crate::bitmap_read::spec_dec_1(
            crate::bitmap_write::spec_enc_1(pixels, palette, width, height),
            palette,
            width,
            height,
        ) == spec_two_level(pixels, palette) && crate::bitmap_write::spec_enc_1(
            pixels,
            palette,
            width,
            height,
        ).len() == crate::util::spec_row_bytes(width, 1) * height,
    decreases height,
{
    if !(width >= 0 && height >= 0 && pixels.len() == width * height) {
        return ;
    }
    crate::util::lemma_row_bytes_1(width);
    let rb = crate::util::spec_row_bytes(width, 1);
    let pad = crate::util::spec_pad_to_align((width + 7) / 8, 4);
    let enc = crate::bitmap_write::spec_enc_1(pixels, palette, width, height);
    if height == 0 {
        assert(width * height == 0) by (nonlinear_arith)
            requires
                height == 0,
        ;
        assert(enc.len() == rb * height) by (nonlinear_arith)
            requires
                enc.len() == 0,
                height == 0,
        ;
        assert(crate::bitmap_read::spec_dec_1(enc, palette, width, height) =~= spec_two_level(
            pixels,
            palette,
        ));
    } else {
        let row = pixels.take(width);
        let tail = pixels.skip(width);
        assert(width * height - width == width * (height - 1)) by (nonlinear_arith);
        assert(width <= width * height) by (nonlinear_arith)
            requires
                width >= 0,
                height >= 1,
        ;
        lemma_round_trip_1_uncompressed(tail, palette, width, height - 1);
        lemma_enc_1_row_len(row, palette);
        let enc_row = crate::bitmap_write::spec_enc_1_row(row, palette);
        let enc_tail = crate::bitmap_write::spec_enc_1(tail, palette, width, height - 1);
        let zeros = crate::bitmap_write::spec_zeros(pad);
        assert(enc == enc_row + zeros + enc_tail);
        lemma_round_trip_1_row(row, palette, zeros + enc_tail);
        assert(enc =~= enc_row + (zeros + enc_tail));
        assert(crate::bitmap_read::spec_dec_1(enc, palette, width, height)
            == crate::bitmap_read::spec_dec_1_row(enc, palette, width)
            + crate::bitmap_read::spec_dec_1(enc.skip(rb), palette, width, height - 1));
        assert(enc.skip(rb) =~= enc_tail);
        assert(crate::bitmap_read::spec_dec_1_row(enc, palette, width) == spec_two_level(
            row,
            palette,
        ));
        assert(crate::bitmap_read::spec_dec_1(enc, palette, width, height) =~= spec_two_level(
            pixels,
            palette,
        ));
        assert(enc.len() == rb + rb * (height - 1));
        assert(rb + rb * (height - 1) == rb * height) by (nonlinear_arith);
    }
}

/// On pixels that each match one of the first two palette entries, the
/// 1-bit round trip preserves the color of every pixel.
pub proof fn lemma_two_level_preserves_colors(s: Seq<BitmapPixel>, palette: Seq<BitmapPixel>)
    requires
        palette.len() >= 2,
        forall|i: int|
            0 <= i < s.len() ==> crate::pixel::spec_same_color(#[trigger] s[i], palette[0])
                || crate::pixel::spec_same_color(s[i], palette[1]),
    ensures
        forall|i: int|
            0 <= i < s.len() ==> crate::pixel::spec_same_color(
                #[trigger] spec_two_level(s, palette)[i],
                s[i],
            ),
{
    assert forall|i: int| 0 <= i < s.len() implies crate::pixel::spec_same_color(
        #[trigger] spec_two_level(s, palette)[i],
        s[i],
    ) by {
        if crate::pixel::spec_same_color(s[i], palette[0]) {
            crate::pixel::lemma_closest_index_exact_match(s[i], palette, 0);
        } else {
            crate::pixel::lemma_closest_index_exact_match(s[i], palette, 1);
        }
    };
}

} // verus!
