//! Small numeric helpers shared by the decode and encode engines:
//! alignment padding, channel-mask analysis and linear channel scaling.

use vstd::prelude::*;

verus! {

/// How many units must be added to `value` to reach the next multiple of
/// `alignment` (zero when `value` is already aligned).
pub open spec fn spec_pad_to_align(value: int, alignment: int) -> int {
    (alignment - value % alignment) % alignment
}

/// Padding needed to bring `value` up to a multiple of `alignment`.
pub fn pad_to_align(value: u64, alignment: u64) -> (pad: u64)
    requires
        1 <= alignment,
    ensures
        pad == spec_pad_to_align(value as int, alignment as int),
        pad < alignment,
        (value + pad) % (alignment as int) == 0,
{
    let rest: u64 = value % alignment;
    let pad: u64 = (alignment - rest) % alignment;
    proof {
        let a = alignment as int;
        vstd::arithmetic::div_mod::lemma_mod_self_0(a);
        if rest != 0 {
            vstd::arithmetic::div_mod::lemma_small_mod((a - rest) as nat, a as nat);
        }
        vstd::arithmetic::div_mod::lemma_add_mod_noop(value as int, pad as int, a);
    }
    pad
}

/// Bits one stored image row occupies before byte packing: the row's pixel
/// bits padded up to a whole number of bytes.
pub open spec fn spec_row_bits(width: int, bits_per_pixel: int) -> int {
    width * bits_per_pixel + spec_pad_to_align(width * bits_per_pixel, 8)
}

/// Bytes one stored image row occupies: the packed pixel bytes padded up to
/// a 4-byte boundary.
pub open spec fn spec_row_bytes(width: int, bits_per_pixel: int) -> int {
    let bytes = spec_row_bits(width, bits_per_pixel) / 8;
    bytes + spec_pad_to_align(bytes, 4)
}

/// Total size in bytes of the pixel array of an uncompressed image.
pub open spec fn spec_image_data_size(width: int, height: int, bits_per_pixel: int) -> int {
    spec_row_bytes(width, bits_per_pixel) * height
}

/// The fewest bytes a stored image can occupy: every row complete, but the
/// alignment padding of the last row may be cut off by the end of the file.
pub open spec fn spec_min_image_bytes(width: int, height: int, bits_per_pixel: int) -> int {
    if height <= 0 {
        0
    } else {
        spec_row_bytes(width, bits_per_pixel) * (height - 1) + spec_row_bits(
            width,
            bits_per_pixel,
        ) / 8
    }
}

/// Shifting a position by a multiple of the alignment does not change the
/// padding it needs.
pub proof fn lemma_pad_shift(a: int, b: int, m: int)
    requires
        m >= 1,
        a >= 0,
        b >= 0,
        a % m == 0,
    ensures
        spec_pad_to_align(a + b, m) == spec_pad_to_align(b, m),
{
    vstd::arithmetic::div_mod::lemma_add_mod_noop(a, b, m);
    vstd::arithmetic::div_mod::lemma_mod_twice(b, m);
}

/// Padding a row's bits to a whole byte and dividing by eight is the
/// ceiling division of the bits by eight.
pub proof fn lemma_row_bits_to_bytes(width: int, bits_per_pixel: int)
    requires
        width >= 0,
        bits_per_pixel >= 0,
    ensures
        spec_row_bits(width, bits_per_pixel) % 8 == 0,
        spec_row_bits(width, bits_per_pixel) / 8 == (width * bits_per_pixel + 7) / 8,
        width * bits_per_pixel >= 0,
{
    assert(width * bits_per_pixel >= 0) by (nonlinear_arith)
        requires
            width >= 0,
            bits_per_pixel >= 0,
    ;
    let n = width * bits_per_pixel;
    vstd::arithmetic::div_mod::lemma_fundamental_div_mod(n, 8);
    vstd::arithmetic::div_mod::lemma_mod_bound(n, 8);
    let q = n / 8;
    let s = n % 8;
    assert(q >= 0) by (nonlinear_arith)
        requires
            n >= 0,
            n == 8 * q + s,
            0 <= s < 8,
    ;
    if s == 0 {
        assert(spec_row_bits(width, bits_per_pixel) == n);
        vstd::arithmetic::div_mod::lemma_fundamental_div_mod_converse(n, 8, q, 0);
        vstd::arithmetic::div_mod::lemma_fundamental_div_mod_converse(n + 7, 8, q, 7);
    } else {
        assert(spec_row_bits(width, bits_per_pixel) == n + 8 - s);
        assert(n + 8 - s == (q + 1) * 8) by (nonlinear_arith)
            requires
                n == 8 * q + s,
        ;
        vstd::arithmetic::div_mod::lemma_fundamental_div_mod_converse(n + 8 - s, 8, q + 1, 0);
        assert(n + 7 == (q + 1) * 8 + (s - 1)) by (nonlinear_arith)
            requires
                n == 8 * q + s,
        ;
        vstd::arithmetic::div_mod::lemma_fundamental_div_mod_converse(n + 7, 8, q + 1, s - 1);
    }
}

/// For 32 bits per pixel a row is exactly 4 bytes per pixel: it is always
/// 4-byte aligned on its own.
pub proof fn lemma_row_bytes_32(width: int)
    requires
        width >= 0,
    ensures
        spec_row_bits(width, 32) / 8 == 4 * width,
        spec_row_bytes(width, 32) == 4 * width,
{
    lemma_row_bits_to_bytes(width, 32);
    assert(width * 32 + 7 == (4 * width) * 8 + 7) by (nonlinear_arith);
    vstd::arithmetic::div_mod::lemma_fundamental_div_mod_converse(width * 32 + 7, 8, 4 * width, 7);
    assert(4 * width == 4 * width + spec_pad_to_align(4 * width, 4)) by {
        vstd::arithmetic::div_mod::lemma_mod_multiples_basic(width, 4);
        assert(4 * width == width * 4) by (nonlinear_arith);
    };
}

/// For 24 bits per pixel a row packs 3 bytes per pixel, then pads to 4.
pub proof fn lemma_row_bytes_24(width: int)
    requires
        width >= 0,
    ensures
        spec_row_bits(width, 24) / 8 == 3 * width,
        spec_row_bytes(width, 24) == 3 * width + spec_pad_to_align(3 * width, 4),
{
    lemma_row_bits_to_bytes(width, 24);
    assert(width * 24 + 7 == (3 * width) * 8 + 7) by (nonlinear_arith);
    vstd::arithmetic::div_mod::lemma_fundamental_div_mod_converse(width * 24 + 7, 8, 3 * width, 7);
}

/// For 16 bits per pixel a row packs 2 bytes per pixel, then pads to 4.
pub proof fn lemma_row_bytes_16(width: int)
    requires
        width >= 0,
    ensures
        spec_row_bits(width, 16) / 8 == 2 * width,
        spec_row_bytes(width, 16) == 2 * width + spec_pad_to_align(2 * width, 4),
{
    lemma_row_bits_to_bytes(width, 16);
    assert(width * 16 + 7 == (2 * width) * 8 + 7) by (nonlinear_arith);
    vstd::arithmetic::div_mod::lemma_fundamental_div_mod_converse(width * 16 + 7, 8, 2 * width, 7);
}

/// For 8 bits per pixel a row packs 1 byte per pixel, then pads to 4.
pub proof fn lemma_row_bytes_8(width: int)
    requires
        width >= 0,
    ensures
        spec_row_bits(width, 8) / 8 == width,
        spec_row_bytes(width, 8) == width + spec_pad_to_align(width, 4),
{
    lemma_row_bits_to_bytes(width, 8);
    assert(width * 8 + 7 == width * 8 + 7) by (nonlinear_arith);
    vstd::arithmetic::div_mod::lemma_fundamental_div_mod_converse(width * 8 + 7, 8, width, 7);
}

/// For 4 bits per pixel a row packs two pixels per byte, rounding odd
/// widths up, then pads to 4.
pub proof fn lemma_row_bytes_4(width: int)
    requires
        width >= 0,
    ensures
        spec_row_bits(width, 4) / 8 == (width + 1) / 2,
        spec_row_bytes(width, 4) == (width + 1) / 2 + spec_pad_to_align((width + 1) / 2, 4),
{
    lemma_row_bits_to_bytes(width, 4);
    vstd::arithmetic::div_mod::lemma_fundamental_div_mod(width, 2);
    vstd::arithmetic::div_mod::lemma_mod_bound(width, 2);
    let k = width / 2;
    if width % 2 == 0 {
        assert(width * 4 + 7 == k * 8 + 7) by (nonlinear_arith)
            requires
                width == 2 * k,
        ;
        vstd::arithmetic::div_mod::lemma_fundamental_div_mod_converse(width * 4 + 7, 8, k, 7);
        vstd::arithmetic::div_mod::lemma_fundamental_div_mod_converse(width + 1, 2, k, 1);
    } else {
        assert(width * 4 + 7 == (k + 1) * 8 + 3) by (nonlinear_arith)
            requires
                width == 2 * k + 1,
        ;
        vstd::arithmetic::div_mod::lemma_fundamental_div_mod_converse(width * 4 + 7, 8, k + 1, 3);
        vstd::arithmetic::div_mod::lemma_fundamental_div_mod_converse(width + 1, 2, k + 1, 0);
    }
}

/// For 1 bit per pixel a row packs eight pixels per byte, rounding up, then
/// pads to 4.
pub proof fn lemma_row_bytes_1(width: int)
    requires
        width >= 0,
    ensures
        spec_row_bits(width, 1) / 8 == (width + 7) / 8,
        spec_row_bytes(width, 1) == (width + 7) / 8 + spec_pad_to_align((width + 7) / 8, 4),
{
    lemma_row_bits_to_bytes(width, 1);
    assert(width * 1 == width) by (nonlinear_arith);
}

/// Bit offset of the lowest set bit of `mask` (zero for a zero mask).
pub open spec fn spec_mask_offset(mask: u32) -> int
    decreases mask,
{
    if mask == 0 || mask % 2 == 1 {
        0
    } else {
        1 + spec_mask_offset((mask / 2) as u32)
    }
}

/// `mask` shifted right until its lowest set bit reaches bit zero: the
/// largest channel value the mask can represent (zero for a zero mask).
pub open spec fn spec_mask_shifted(mask: u32) -> u32
    decreases mask,
{
    if mask == 0 || mask % 2 == 1 {
        mask
    } else {
        spec_mask_shifted((mask / 2) as u32)
    }
}

spec fn two_to(n: nat) -> int
    decreases n,
{
    if n == 0 {
        1
    } else {
        2 * two_to((n - 1) as nat)
    }
}

proof fn lemma_mask_offset_bound(mask: u32)
    requires
        mask >= 1,
    ensures
        0 <= spec_mask_offset(mask) <= 31,
        two_to(spec_mask_offset(mask) as nat) <= mask,
    decreases mask,
{
    if mask % 2 == 0 {
        let half = (mask / 2) as u32;
        lemma_mask_offset_bound(half);
        let o = spec_mask_offset(half);
        assert(two_to((o + 1) as nat) == 2 * two_to(o as nat));
        assert(2 * two_to(o as nat) <= 2 * half <= mask);
        if o + 1 > 31 {
            assert(o == 31);
            reveal_with_fuel(two_to, 33);
            assert(two_to(31nat) == 0x8000_0000);
            assert(false);
        }
    }
}

proof fn lemma_two_to_increases(a: nat, b: nat)
    requires
        a <= b,
    ensures
        two_to(a) <= two_to(b),
    decreases b,
{
    if a < b {
        lemma_two_to_increases(a, (b - 1) as nat);
        assert(two_to(b) == 2 * two_to((b - 1) as nat));
        assert(two_to(a) >= 1) by {
            lemma_two_to_positive(a);
        };
    }
}

proof fn lemma_two_to_positive(n: nat)
    ensures
        two_to(n) >= 1,
    decreases n,
{
    if n > 0 {
        lemma_two_to_positive((n - 1) as nat);
    }
}

/// A mask that fits the 16-bit pixel word keeps its lowest set bit within
/// those 16 bits.
pub proof fn lemma_mask_offset_within_16(mask: u32)
    requires
        mask <= 0xffff,
    ensures
        0 <= spec_mask_offset(mask) <= 15,
{
    if mask >= 1 {
        lemma_mask_offset_bound(mask);
        let o = spec_mask_offset(mask);
        if o > 15 {
            lemma_two_to_increases(16nat, o as nat);
            reveal_with_fuel(two_to, 18);
            assert(two_to(16nat) == 0x1_0000);
            assert(false);
        }
    }
}

/// Analyzes a channel mask: returns the bit offset of its lowest set bit
/// and the mask shifted down by that offset.  A zero mask yields `(0, 0)`.
pub fn mask_offset_and_shifted(mask: u32) -> (r: (u8, u32))
    ensures
        r.0 == spec_mask_offset(mask),
        r.1 == spec_mask_shifted(mask),
        r.0 <= 31,
{
    if mask == 0 {
        return (0, 0);
    }
    proof {
        lemma_mask_offset_bound(mask);
    }
    let mut m: u32 = mask;
    let mut offset: u8 = 0;
    while m & 0x01 == 0
        invariant
            1 <= m,
            offset + spec_mask_offset(m) == spec_mask_offset(mask),
            spec_mask_shifted(m) == spec_mask_shifted(mask),
            spec_mask_offset(mask) <= 31,
        decreases m,
    {
        assert((m & 0x01) == m % 2 && (m >> 1u32) == m / 2) by (bit_vector);
        proof {
            lemma_mask_offset_bound(m);
        }
        m = m >> 1;
        offset = offset + 1;
    }
    assert((m & 0x01) == m % 2) by (bit_vector);
    (offset, m)
}

/// Linear rescale of an 8-bit channel value from the range `0..=from` to the
/// range `0..=to`, rounding to nearest; the value is kept unchanged when the
/// two ranges agree or when `from` is zero (an absent channel).
pub open spec fn spec_map_zero_based(value: u8, from: u32, to: u32) -> u8 {
    if from == to || from == 0 {
        value
    } else {
        let scaled = (2 * value * to + from) / (2 * from);
        if scaled > 255 {
            255
        } else {
            scaled as u8
        }
    }
}

/// Rescales `value` from the zero-based range `0..=from` to `0..=to`.
pub fn map_zero_based(value: &mut u8, from: u32, to: u32)
    ensures
        *final(value) == spec_map_zero_based(*old(value), from, to),
{
    if from == to || from == 0 {
        return ;
    }
    let v: u64 = *value as u64;
    assert(2 * v * (to as u64) <= 2 * 255 * 0xffff_ffff) by (nonlinear_arith)
        requires
            v <= 255,
            to <= 0xffff_ffff,
    ;
    let scaled: u64 = (2 * v * (to as u64) + (from as u64)) / (2 * (from as u64));
    if scaled > 255 {
        *value = 255;
    } else {
        *value = scaled as u8;
    }
}

/// A rescaled channel value never exceeds the target maximum.
pub proof fn lemma_scale_within(value: u8, from: u32, to: u32)
    requires
        from > 0,
        value <= from,
        to <= 255,
    ensures
        spec_map_zero_based(value, from, to) <= to,
{
    if from != to {
        let u = (2 * value * to + from) / (2 * from);
        vstd::arithmetic::div_mod::lemma_fundamental_div_mod(
            2 * value * to + from,
            2 * from,
        );
        vstd::arithmetic::div_mod::lemma_mod_bound(2 * value * to + from, 2 * from);
        let rem = (2 * value * to + from) % (2 * from);
        assert(0 <= u <= to) by (nonlinear_arith)
            requires
                from > 0,
                value <= from,
                2 * value * to + from == (2 * from) * u + rem,
                0 <= rem < 2 * from,
                to >= 0,
        ;
    }
}

/// Rescaling a zero value of a non-empty channel always yields zero.
pub proof fn lemma_scale_zero_is_zero(from: u32, to: u32)
    requires
        from > 0,
    ensures
        spec_map_zero_based(0, from, to) == 0,
{
    if !(from == to) {
        assert((2 * 0 * (to as int) + from) / (2 * (from as int)) == 0) by (nonlinear_arith)
            requires
                from > 0,
        ;
        assert(spec_map_zero_based(0, from, to) == 0);
    }
}

/// Rescaling between identical ranges leaves every value unchanged.
pub proof fn lemma_scale_same_range_identity(value: u8, range: u32)
    ensures
        spec_map_zero_based(value, range, range) == value,
{
}

/// Scaling an `N`-bit channel value up to the 8-bit range and back down
/// again returns the original value, for every channel maximum up to 255.
pub proof fn lemma_scale_round_trip(v: u8, m: u32)
    requires
        1 <= m <= 255,
        v <= m,
    ensures
        spec_map_zero_based(spec_map_zero_based(v, m, 255), 255, m) == v,
{
    if m == 255 {
        return ;
    }
    let vi: int = v as int;
    let mi: int = m as int;
    let u: int = (2 * vi * 255 + mi) / (2 * mi);
    vstd::arithmetic::div_mod::lemma_fundamental_div_mod(2 * vi * 255 + mi, 2 * mi);
    let rem: int = (2 * vi * 255 + mi) % (2 * mi);
    vstd::arithmetic::div_mod::lemma_mod_bound(2 * vi * 255 + mi, 2 * mi);
    assert(2 * vi * 255 + mi == (2 * mi) * u + rem);
    assert(0 <= u <= 255) by (nonlinear_arith)
        requires
            1 <= mi < 255,
            0 <= vi <= mi,
            2 * vi * 255 + mi == (2 * mi) * u + rem,
            0 <= rem < 2 * mi,
    ;
    assert(spec_map_zero_based(v, m, 255) == u);
    let u8u = u as u8;
    assert(u8u == u);
    let down: int = (2 * u * mi + 255) / 510;
    vstd::arithmetic::div_mod::lemma_fundamental_div_mod(2 * u * mi + 255, 510);
    let rem2: int = (2 * u * mi + 255) % 510;
    vstd::arithmetic::div_mod::lemma_mod_bound(2 * u * mi + 255, 510);
    assert(down == vi) by (nonlinear_arith)
        requires
            1 <= mi < 255,
            0 <= vi <= mi,
            2 * vi * 255 + mi == (2 * mi) * u + rem,
            0 <= rem < 2 * mi,
            2 * u * mi + 255 == 510 * down + rem2,
            0 <= rem2 < 510,
    ;
    assert(spec_map_zero_based(u8u, 255, m) == v);
}

} // verus!
