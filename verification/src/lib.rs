//! A verified codec for the Windows Bitmap (BMP) raster image container.
//!
//! The crate parses a BMP byte stream into an in-memory pixel grid plus
//! header metadata, and serializes such a grid back into a byte-exact BMP
//! buffer.  It covers bit depths of 1, 4, 8, 16, 24 and 32 bits per pixel,
//! both the indexed-palette and the mask-based ("bitfields") addressing
//! schemes, row padding to 4-byte boundaries, and top-down row order.
//! Compressed variants (RLE, JPEG/PNG-in-BMP) are detected and rejected.

pub mod bitmap;
pub mod bitmap_read;
pub mod bitmap_write;
pub mod header;
pub mod laws;
pub mod pixel;
pub mod util;
pub mod walker;

pub use bitmap::Bitmap;
pub use bitmap::interpret_image_data;
pub use bitmap::mirror_slice;
pub use bitmap::pixels_into_data;
pub use bitmap::read_palette;
pub use bitmap::swap_slice_regions;
pub use bitmap_read::append_pixels_from_byte;
pub use bitmap_read::read_16_bitfield;
pub use bitmap_read::read_16_uncompressed;
pub use bitmap_read::read_1_uncompressed;
pub use bitmap_read::read_24_uncompressed;
pub use bitmap_read::read_32_bitfield;
pub use bitmap_read::read_32_uncompressed;
pub use bitmap_read::read_4_uncompressed;
pub use bitmap_read::read_8_uncompressed;
pub use bitmap_write::byte_from_pixels;
pub use bitmap_write::push_i32;
pub use bitmap_write::push_u16;
pub use bitmap_write::push_u32;
pub use bitmap_write::write_16_bitfield;
pub use bitmap_write::write_1_uncompressed;
pub use bitmap_write::write_24_uncompressed;
pub use bitmap_write::write_32_bitfield;
pub use bitmap_write::write_32_uncompressed;
pub use bitmap_write::write_4_uncompressed;
pub use bitmap_write::write_8_uncompressed;
pub use header::BMP_MAGIC_NUMBER;
pub use header::BitmapError;
pub use header::FILE_HEADER_SIZE;
pub use header::BitmapFileHeader;
pub use header::BitmapInfoHeader;
pub use header::CompressionType;
pub use pixel::BitmapPalette;
pub use pixel::BitmapPixel;
pub use util::map_zero_based;
pub use util::mask_offset_and_shifted;
pub use util::pad_to_align;
pub use walker::BytesWalker;
