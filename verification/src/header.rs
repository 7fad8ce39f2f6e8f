//! Header models of the BMP container: the 14-byte file header and the
//! 40- or 56-byte info header, the compression-type code, and the error
//! taxonomy of the codec.

use crate::bitmap_write::push_i32;
use crate::bitmap_write::push_u16;
use crate::bitmap_write::push_u32;
use crate::bitmap_write::spec_i32_to_le_bytes;
use crate::util::spec_image_data_size;
use crate::util::spec_row_bytes;
use crate::walker::BytesWalker;
use vstd::bytes::spec_u16_from_le_bytes;
use vstd::bytes::spec_u16_to_le_bytes;
use vstd::bytes::spec_u32_from_le_bytes;
use vstd::bytes::spec_u32_to_le_bytes;
use vstd::prelude::*;

verus! {

/// The 2-byte signature every BMP file starts with ("BM", little-endian).
pub const BMP_MAGIC_NUMBER: u16 = 0x4d_42;

/// Size in bytes of the file header on the wire.
pub const FILE_HEADER_SIZE: u32 = 14;

/// Everything that can go wrong while decoding or re-encoding a bitmap.
/// Every error is terminal for the operation that raised it.
#[derive(Clone, Copy, Debug, PartialEq, Eq, Structural)]
pub enum BitmapError {
    /// Bad magic number, nonzero reserved fields, or a pixel count that
    /// does not match the dimensions the header declares.
    InvalidBitmap,
    /// Info-header size other than 40 or 56 bytes.
    UnsupportedInfoHeaderSize(u32),
    /// Plane count other than 1.
    UnsupportedNumberOfPlanes(u16),
    /// Compression other than uncompressed or bitfields.
    UnsupportedCompressionType(CompressionType),
    /// A bit depth outside the decode/encode table for the given
    /// compression.
    UnsupportedPixelFormat(u16),
    /// A missing or unusable palette, a pixel grid that contradicts the
    /// header's dimensions, or geometry that leaves the source bounds.
    InvalidOperation,
    /// The byte buffer ended in the middle of a required read.
    TruncatedData,
}

/// The compression scheme a BMP header declares.
#[derive(Clone, Copy, Debug, PartialEq, Eq, Structural)]
pub enum CompressionType {
    Uncompressed,
    Rle8,
    Rle4,
    BitFields,
    Jpeg,
    Png,
    CMYK,
    CmykRle8,
    CmykRle4,
    /// A code this library does not know.
    Invalid,
}

/// The wire code of a compression type (the `Invalid` variant maps to a
/// code no real file uses).
pub open spec fn spec_compression_code(c: CompressionType) -> u32 {
    match c {
        CompressionType::Uncompressed => 0x0000,
        CompressionType::Rle8 => 0x0001,
        CompressionType::Rle4 => 0x0002,
        CompressionType::BitFields => 0x0003,
        CompressionType::Jpeg => 0x0004,
        CompressionType::Png => 0x0005,
        CompressionType::CMYK => 0x000B,
        CompressionType::CmykRle8 => 0x000C,
        CompressionType::CmykRle4 => 0x000D,
        CompressionType::Invalid => 0xffff_ffff,
    }
}

/// The compression type a wire code denotes.
pub open spec fn spec_compression_from_code(num: u32) -> CompressionType {
    if num == 0x0000 {
        CompressionType::Uncompressed
    } else if num == 0x0001 {
        CompressionType::Rle8
    } else if num == 0x0002 {
        CompressionType::Rle4
    } else if num == 0x0003 {
        CompressionType::BitFields
    } else if num == 0x0004 {
        CompressionType::Jpeg
    } else if num == 0x0005 {
        CompressionType::Png
    } else if num == 0x000B {
        CompressionType::CMYK
    } else if num == 0x000C {
        CompressionType::CmykRle8
    } else if num == 0x000D {
        CompressionType::CmykRle4
    } else {
        CompressionType::Invalid
    }
}

impl CompressionType {
    /// Maps a wire code to its compression type; unknown codes map to
    /// `Invalid`.
    pub fn from_u32(num: u32) -> (c: CompressionType)
        ensures
            c == spec_compression_from_code(num),
    {
        match num {
            0x0000 => CompressionType::Uncompressed,
            0x0001 => CompressionType::Rle8,
            0x0002 => CompressionType::Rle4,
            0x0003 => CompressionType::BitFields,
            0x0004 => CompressionType::Jpeg,
            0x0005 => CompressionType::Png,
            0x000B => CompressionType::CMYK,
            0x000C => CompressionType::CmykRle8,
            0x000D => CompressionType::CmykRle4,
            _ => CompressionType::Invalid,
        }
    }

    /// The wire code of this compression type.
    pub fn to_u32(self) -> (num: u32)
        ensures
            num == spec_compression_code(self),
    {
        match self {
            CompressionType::Uncompressed => 0x0000,
            CompressionType::Rle8 => 0x0001,
            CompressionType::Rle4 => 0x0002,
            CompressionType::BitFields => 0x0003,
            CompressionType::Jpeg => 0x0004,
            CompressionType::Png => 0x0005,
            CompressionType::CMYK => 0x000B,
            CompressionType::CmykRle8 => 0x000C,
            CompressionType::CmykRle4 => 0x000D,
            CompressionType::Invalid => 0xffff_ffff,
        }
    }
}

/// The file header: magic, total file size, two reserved fields that must
/// be zero, and the absolute offset of the pixel array.
#[derive(Clone, Copy, Debug, PartialEq, Eq, Structural)]
pub struct BitmapFileHeader {
    pub magic_number: u16,
    pub file_size: u32,
    pub reserved1: u16,
    pub reserved2: u16,
    pub pixel_array_offset: u32,
}

/// The 14-byte little-endian wire image of a file header.
pub open spec fn spec_file_header_bytes(h: BitmapFileHeader) -> Seq<u8> {
    spec_u16_to_le_bytes(h.magic_number) + spec_u32_to_le_bytes(h.file_size) + spec_u16_to_le_bytes(
        h.reserved1,
    ) + spec_u16_to_le_bytes(h.reserved2) + spec_u32_to_le_bytes(h.pixel_array_offset)
}

/// The file header encoded in the first 14 bytes of `data`.
pub open spec fn spec_parse_file_header(data: Seq<u8>) -> BitmapFileHeader
    recommends
        data.len() >= 14,
{
    BitmapFileHeader {
        magic_number: spec_u16_from_le_bytes(data.subrange(0, 2)),
        file_size: spec_u32_from_le_bytes(data.subrange(2, 6)),
        reserved1: spec_u16_from_le_bytes(data.subrange(6, 8)),
        reserved2: spec_u16_from_le_bytes(data.subrange(8, 10)),
        pixel_array_offset: spec_u32_from_le_bytes(data.subrange(10, 14)),
    }
}

/// A file header is valid when it carries the BMP magic and both reserved
/// fields are zero.
pub open spec fn spec_file_header_valid(h: BitmapFileHeader) -> bool {
    h.magic_number == BMP_MAGIC_NUMBER && h.reserved1 == 0 && h.reserved2 == 0
}

impl BitmapFileHeader {
    /// Builds the header of a fresh file of `f_size` bytes whose pixel
    /// array starts at `p_offset`.
    pub fn new(f_size: u32, p_offset: u32) -> (h: BitmapFileHeader)
        ensures
            h == (BitmapFileHeader {
                magic_number: BMP_MAGIC_NUMBER,
                file_size: f_size,
                reserved1: 0,
                reserved2: 0,
                pixel_array_offset: p_offset,
            }),
    {
        BitmapFileHeader {
            magic_number: BMP_MAGIC_NUMBER,
            file_size: f_size,
            reserved1: 0,
            reserved2: 0,
            pixel_array_offset: p_offset,
        }
    }

    /// Whether the header carries the BMP magic and zero reserved fields.
    pub fn validate(&self) -> (r: bool)
        ensures
            r == spec_file_header_valid(*self),
    {
        self.magic_number == BMP_MAGIC_NUMBER && self.reserved1 == 0 && self.reserved2 == 0
    }

    /// Parses the file header from the front of `data`; fails exactly when
    /// fewer than 14 bytes are present.
    pub fn from_data(data: &[u8]) -> (r: Result<BitmapFileHeader, BitmapError>)
        ensures
            r == if data@.len() < 14 {
                Err::<BitmapFileHeader, BitmapError>(BitmapError::TruncatedData)
            } else {
                Ok::<BitmapFileHeader, BitmapError>(spec_parse_file_header(data@))
            },
    {
        if data.len() < 14 {
            return Err(BitmapError::TruncatedData);
        }
        let mut data_walker = BytesWalker::new(data);
        Ok(
            BitmapFileHeader {
                magic_number: data_walker.next_u16(),
                file_size: data_walker.next_u32(),
                reserved1: data_walker.next_u16(),
                reserved2: data_walker.next_u16(),
                pixel_array_offset: data_walker.next_u32(),
            },
        )
    }

    /// Appends the 14-byte wire image of this header to `data`.
    pub fn into_data(&self, data: &mut Vec<u8>)
        ensures
            final(data)@ == old(data)@ + spec_file_header_bytes(*self),
    {
        push_u16(data, self.magic_number);
        push_u32(data, self.file_size);
        push_u16(data, self.reserved1);
        push_u16(data, self.reserved2);
        push_u32(data, self.pixel_array_offset);
        proof {
            assert(data@ =~= old(data)@ + spec_file_header_bytes(*self));
        }
    }
}

/// The info header: dimensions, bit depth, compression, channel masks and
/// the remaining fixed fields of the 40/56-byte layouts.  The stored height
/// is always the positive magnitude; a negative height on the wire sets
/// `is_top_down` instead.
#[derive(Clone, Copy, Debug, PartialEq, Eq, Structural)]
pub struct BitmapInfoHeader {
    pub info_header_size: u32,
    pub image_width: i32,
    pub image_height: i32,
    pub n_planes: u16,
    pub bits_per_pixel: u16,
    pub compression_type: u32,
    pub image_size: u32,
    pub pixels_per_meter_x: i32,
    pub pixels_per_meter_y: i32,
    pub colors_used: u32,
    pub colors_important: u32,
    pub red_mask: u32,
    pub green_mask: u32,
    pub blue_mask: u32,
    pub alpha_mask: u32,
    /// Not part of the wire layout: whether the stored height was negative,
    /// meaning rows are stored top-down.
    pub is_top_down: bool,
}

/// The wire image of an info header: 40 bytes, followed by the four channel
/// masks whenever the declared header size exceeds 40.
pub open spec fn spec_info_header_bytes(h: BitmapInfoHeader) -> Seq<u8> {
    spec_u32_to_le_bytes(h.info_header_size) + spec_i32_to_le_bytes(h.image_width)
        + spec_i32_to_le_bytes(h.image_height) + spec_u16_to_le_bytes(h.n_planes)
        + spec_u16_to_le_bytes(h.bits_per_pixel) + spec_u32_to_le_bytes(h.compression_type)
        + spec_u32_to_le_bytes(h.image_size) + spec_i32_to_le_bytes(h.pixels_per_meter_x)
        + spec_i32_to_le_bytes(h.pixels_per_meter_y) + spec_u32_to_le_bytes(h.colors_used)
        + spec_u32_to_le_bytes(h.colors_important) + if h.info_header_size > 40 {
        spec_u32_to_le_bytes(h.red_mask) + spec_u32_to_le_bytes(h.green_mask)
            + spec_u32_to_le_bytes(h.blue_mask) + spec_u32_to_le_bytes(h.alpha_mask)
    } else {
        Seq::<u8>::empty()
    }
}

/// The info header encoded at the front of `data`, height already
/// normalized to its magnitude plus the top-down flag, masks zero unless
/// the declared header size exceeds 40.
pub open spec fn spec_parse_info_header(data: Seq<u8>) -> BitmapInfoHeader
    recommends
        data.len() >= 40,
{
    let size = spec_u32_from_le_bytes(data.subrange(0, 4));
    let raw_height = spec_u32_from_le_bytes(data.subrange(8, 12)) as i32;
    BitmapInfoHeader {
        info_header_size: size,
        image_width: spec_u32_from_le_bytes(data.subrange(4, 8)) as i32,
        image_height: if raw_height < 0 {
            (0 - raw_height) as i32
        } else {
            raw_height
        },
        n_planes: spec_u16_from_le_bytes(data.subrange(12, 14)),
        bits_per_pixel: spec_u16_from_le_bytes(data.subrange(14, 16)),
        compression_type: spec_u32_from_le_bytes(data.subrange(16, 20)),
        image_size: spec_u32_from_le_bytes(data.subrange(20, 24)),
        pixels_per_meter_x: spec_u32_from_le_bytes(data.subrange(24, 28)) as i32,
        pixels_per_meter_y: spec_u32_from_le_bytes(data.subrange(28, 32)) as i32,
        colors_used: spec_u32_from_le_bytes(data.subrange(32, 36)),
        colors_important: spec_u32_from_le_bytes(data.subrange(36, 40)),
        red_mask: if size > 40 {
            spec_u32_from_le_bytes(data.subrange(40, 44))
        } else {
            0
        },
        green_mask: if size > 40 {
            spec_u32_from_le_bytes(data.subrange(44, 48))
        } else {
            0
        },
        blue_mask: if size > 40 {
            spec_u32_from_le_bytes(data.subrange(48, 52))
        } else {
            0
        },
        alpha_mask: if size > 40 {
            spec_u32_from_le_bytes(data.subrange(52, 56))
        } else {
            0
        },
        is_top_down: raw_height < 0,
    }
}

/// What parsing an info header from `data` returns: the parsed header, or
/// the exact error.  A stored height of the minimum signed value has no
/// positive magnitude and is rejected as malformed.
pub open spec fn spec_info_header_parse_result(data: Seq<u8>) -> Result<
    BitmapInfoHeader,
    BitmapError,
> {
    if data.len() < 40 {
        Err(BitmapError::TruncatedData)
    } else if spec_u32_from_le_bytes(data.subrange(8, 12)) as i32 == i32::MIN {
        Err(BitmapError::InvalidBitmap)
    } else if spec_u32_from_le_bytes(data.subrange(0, 4)) > 40 && data.len() < 56 {
        Err(BitmapError::TruncatedData)
    } else {
        Ok(spec_parse_info_header(data))
    }
}

impl BitmapInfoHeader {
    /// Builds the info header of a fresh image: 56-byte layout with the
    /// fixed RGBA channel masks for bitfields images, 40-byte layout
    /// otherwise, with the data size recomputed from the dimensions.
    pub fn new(i_width: i32, i_height: i32, bits_per_pixel: u16, compression: CompressionType) -> (h:
        BitmapInfoHeader)
        requires
            0 <= i_width,
            0 <= i_height,
            i_width * bits_per_pixel + 7 <= u32::MAX,
            spec_image_data_size(i_width as int, i_height as int, bits_per_pixel as int)
                <= u32::MAX,
        ensures
            h == (BitmapInfoHeader {
                info_header_size: if compression == CompressionType::BitFields {
                    56u32
                } else {
                    40u32
                },
                image_width: i_width,
                image_height: i_height,
                n_planes: 1u16,
                bits_per_pixel: bits_per_pixel,
                compression_type: spec_compression_code(compression),
                image_size: spec_image_data_size(
                    i_width as int,
                    i_height as int,
                    bits_per_pixel as int,
                ) as u32,
                pixels_per_meter_x: 0i32,
                pixels_per_meter_y: 0i32,
                colors_used: 0u32,
                colors_important: 0u32,
                red_mask: 0xff000000u32,
                green_mask: 0x00ff0000u32,
                blue_mask: 0x0000ff00u32,
                alpha_mask: 0x000000ffu32,
                is_top_down: false,
            }),
    {
        let h_size: u32 = match compression {
            CompressionType::BitFields => 56,
            _ => 40,
        };
        let mut bits_per_row: u32 = (i_width as u32) * (bits_per_pixel as u32);
        let bits_padding: u32 = crate::util::pad_to_align(bits_per_row as u64, 8) as u32;
        bits_per_row = bits_per_row + bits_padding;
        let mut bytes_per_row: u32 = bits_per_row / 8;
        let bytes_padding: u32 = crate::util::pad_to_align(bytes_per_row as u64, 4) as u32;
        bytes_per_row = bytes_per_row + bytes_padding;
        proof {
            assert(spec_row_bytes(i_width as int, bits_per_pixel as int) == bytes_per_row);
            assert(spec_row_bytes(i_width as int, bits_per_pixel as int) * (i_height as int)
                <= u32::MAX);
            assert(bytes_per_row * (i_height as int) >= 0) by (nonlinear_arith)
                requires
                    bytes_per_row >= 0,
                    i_height >= 0,
            ;
        }
        let i_size: u32 = bytes_per_row * (i_height as u32);
        BitmapInfoHeader {
            info_header_size: h_size,
            image_width: i_width,
            image_height: i_height,
            n_planes: 1,
            bits_per_pixel: bits_per_pixel,
            compression_type: compression.to_u32(),
            image_size: i_size,
            pixels_per_meter_x: 0,
            pixels_per_meter_y: 0,
            colors_used: 0,
            colors_important: 0,
            red_mask: 0xff000000,
            green_mask: 0x00ff0000,
            blue_mask: 0x0000ff00,
            alpha_mask: 0x000000ff,
            is_top_down: false,
        }
    }

    /// Parses an info header from the front of `data`, normalizing a
    /// negative height into the top-down flag; fails exactly as
    /// `spec_info_header_parse_result` says.
    pub fn from_data(data: &[u8]) -> (r: Result<BitmapInfoHeader, BitmapError>)
        ensures
            r == spec_info_header_parse_result(data@),
    {
        if data.len() < 40 {
            return Err(BitmapError::TruncatedData);
        }
        let mut data_walker = BytesWalker::new(data);
        let mut result = BitmapInfoHeader {
            info_header_size: data_walker.next_u32(),
            image_width: data_walker.next_i32(),
            image_height: data_walker.next_i32(),
            n_planes: data_walker.next_u16(),
            bits_per_pixel: data_walker.next_u16(),
            compression_type: data_walker.next_u32(),
            image_size: data_walker.next_u32(),
            pixels_per_meter_x: data_walker.next_i32(),
            pixels_per_meter_y: data_walker.next_i32(),
            colors_used: data_walker.next_u32(),
            colors_important: data_walker.next_u32(),
            red_mask: 0,
            green_mask: 0,
            blue_mask: 0,
            alpha_mask: 0,
            is_top_down: false,
        };
        if result.image_height < 0 {
            if result.image_height == i32::MIN {
                return Err(BitmapError::InvalidBitmap);
            }
            result.is_top_down = true;
            result.image_height = -result.image_height;
        }
        if result.info_header_size > 40 {
            if data.len() < 56 {
                return Err(BitmapError::TruncatedData);
            }
            result.red_mask = data_walker.next_u32();
            result.green_mask = data_walker.next_u32();
            result.blue_mask = data_walker.next_u32();
            result.alpha_mask = data_walker.next_u32();
        }
        Ok(result)
    }

    /// Appends the wire image of this header to `data`: 40 bytes, plus the
    /// four channel masks when the declared header size exceeds 40.
    pub fn into_data(&self, data: &mut Vec<u8>)
        ensures
            final(data)@ == old(data)@ + spec_info_header_bytes(*self),
    {
        push_u32(data, self.info_header_size);
        push_i32(data, self.image_width);
        push_i32(data, self.image_height);
        push_u16(data, self.n_planes);
        push_u16(data, self.bits_per_pixel);
        push_u32(data, self.compression_type);
        push_u32(data, self.image_size);
        push_i32(data, self.pixels_per_meter_x);
        push_i32(data, self.pixels_per_meter_y);
        push_u32(data, self.colors_used);
        push_u32(data, self.colors_important);
        if self.info_header_size > 40 {
            push_u32(data, self.red_mask);
            push_u32(data, self.green_mask);
            push_u32(data, self.blue_mask);
            push_u32(data, self.alpha_mask);
        }
        proof {
            assert(data@ =~= old(data)@ + spec_info_header_bytes(*self));
        }
    }
}

} // verus!
