//! Unit checks for the helper components and the geometric transforms.

use bitmap_io::Bitmap;
use bitmap_io::BitmapError;
use bitmap_io::BitmapFileHeader;
use bitmap_io::BitmapPixel;
use bitmap_io::BytesWalker;
use bitmap_io::CompressionType;
use bitmap_io::map_zero_based;
use bitmap_io::mask_offset_and_shifted;
use bitmap_io::pad_to_align;
use bitmap_io::push_i32;
use bitmap_io::push_u16;
use bitmap_io::push_u32;
use bitmap_io::read_palette;

#[test]
fn mask_analyzer_values() {
    assert_eq!(mask_offset_and_shifted(0), (0, 0));
    assert_eq!(mask_offset_and_shifted(0x0000_ff00), (8, 0xff));
    assert_eq!(mask_offset_and_shifted(0xf000_0000), (28, 0xf));
    assert_eq!(mask_offset_and_shifted(0x7c00), (10, 0x1f));
    assert_eq!(mask_offset_and_shifted(1), (0, 1));
}

#[test]
fn channel_scaling_values() {
    let mut v: u8 = 0x1f;
    map_zero_based(&mut v, 0x1f, 0xff);
    assert_eq!(v, 0xff);
    let mut zero: u8 = 0;
    map_zero_based(&mut zero, 7, 200);
    assert_eq!(zero, 0);
    let mut same: u8 = 123;
    map_zero_based(&mut same, 77, 77);
    assert_eq!(same, 123);
    let mut down: u8 = 0xff;
    map_zero_based(&mut down, 0xff, 0x1f);
    assert_eq!(down, 0x1f);
    // rounding to nearest: 16/31 of 255 is 131.6..
    let mut mid: u8 = 16;
    map_zero_based(&mut mid, 0x1f, 0xff);
    assert_eq!(mid, 132);
}

#[test]
fn row_alignment_width_five_24_bit() {
    let mut bitmap = Bitmap::new(5, 2, 24, CompressionType::Uncompressed);
    bitmap.image_data = vec![BitmapPixel::white(); 10];
    // 5 pixels take 15 bytes; one padding byte reaches the 16-byte boundary
    assert_eq!(bitmap.info_header.image_size, 32);
    let data = bitmap.into_data().unwrap();
    assert_eq!(data.len(), 54 + 32);
    // the padding byte after the first row is zero
    assert_eq!(data[54 + 15], 0);
    assert_eq!(pad_to_align(15, 4), 1);
}

#[test]
fn palette_nearest_match() {
    let palette = vec![BitmapPixel::black(), BitmapPixel::white()];
    assert_eq!(BitmapPixel::rgb(10, 10, 10).find_closest_by_index(&palette), 0);
    assert_eq!(BitmapPixel::rgb(200, 200, 200).find_closest_by_index(&palette), 1);
    // ties resolve to the lower index
    let twice = vec![BitmapPixel::red(), BitmapPixel::red()];
    assert_eq!(BitmapPixel::red().find_closest_by_index(&twice), 0);
    let mirror_tie = vec![BitmapPixel::rgb(0, 0, 100), BitmapPixel::rgb(0, 0, 200)];
    assert_eq!(BitmapPixel::rgb(0, 0, 150).find_closest_by_index(&mirror_tie), 0);
}

#[test]
fn distance_squared_values() {
    let a = BitmapPixel::rgb(1, 2, 3);
    let b = BitmapPixel::rgb(4, 6, 3);
    assert_eq!(a.distance_squared(&b), 9 + 16);
    assert_eq!(a.distance_squared(&a), 0);
    // alpha plays no part
    let c = BitmapPixel::rgba(1, 2, 3, 200);
    assert_eq!(a.distance_squared(&c), 0);
}

fn numbered_grid(width: usize, height: usize) -> Vec<BitmapPixel> {
    (0..width * height).map(|i| BitmapPixel::rgb(i as u8, (2 * i) as u8, (3 * i) as u8)).collect()
}

#[test]
fn vertical_mirror_is_involution() {
    let mut bitmap = Bitmap::new_default(4, 3);
    bitmap.image_data = numbered_grid(4, 3);
    let original = bitmap.image_data.clone();
    bitmap.mirror_vertically();
    assert_eq!(bitmap.image_data[0], original[8]);
    bitmap.mirror_vertically();
    assert_eq!(bitmap.image_data, original);
}

#[test]
fn horizontal_mirror_reverses_rows() {
    let mut bitmap = Bitmap::new_default(3, 2);
    bitmap.image_data = numbered_grid(3, 2);
    let original = bitmap.image_data.clone();
    bitmap.mirror_horizontally();
    assert_eq!(bitmap.image_data[0], original[2]);
    assert_eq!(bitmap.image_data[1], original[1]);
    assert_eq!(bitmap.image_data[5], original[3]);
    bitmap.mirror_horizontally();
    assert_eq!(bitmap.image_data, original);
}

#[test]
fn crop_full_rectangle_is_identity() {
    let mut bitmap = Bitmap::new_default(4, 3);
    bitmap.image_data = numbered_grid(4, 3);
    let cropped = bitmap.crop_to_rect(0, 0, 4, 3).unwrap();
    assert_eq!(cropped.image_data, bitmap.image_data);
    assert_eq!(cropped.info_header.image_width, 4);
    assert_eq!(cropped.info_header.image_height, 3);
}

#[test]
fn crop_inner_rectangle() {
    let mut bitmap = Bitmap::new_default(4, 3);
    bitmap.image_data = numbered_grid(4, 3);
    let cropped = bitmap.crop_to_rect(1, 1, 2, 2).unwrap();
    assert_eq!(cropped.image_data.len(), 4);
    assert_eq!(cropped.image_data[0], bitmap.image_data[5]);
    assert_eq!(cropped.image_data[1], bitmap.image_data[6]);
    assert_eq!(cropped.image_data[2], bitmap.image_data[9]);
    assert_eq!(cropped.image_data[3], bitmap.image_data[10]);
}

#[test]
fn crop_outside_bounds_is_rejected() {
    let mut bitmap = Bitmap::new_default(4, 3);
    bitmap.image_data = numbered_grid(4, 3);
    assert!(matches!(
        bitmap.crop_to_rect(4, 0, 1, 1),
        Err(BitmapError::InvalidOperation)
    ));
    assert!(matches!(
        bitmap.crop_to_rect(1, 1, 4, 2),
        Err(BitmapError::InvalidOperation)
    ));
}

#[test]
fn end_to_end_blank_image_round_trip() {
    let mut bitmap = Bitmap::new_default(4, 3);
    let color = BitmapPixel::rgba(12, 34, 56, 78);
    bitmap.image_data = vec![color; 12];
    let data = bitmap.into_data().unwrap();
    let decoded = Bitmap::from_data(data).unwrap();
    assert_eq!(decoded.info_header.image_width, 4);
    assert_eq!(decoded.info_header.image_height, 3);
    assert_eq!(decoded.image_data, vec![color; 12]);
}

#[test]
fn merge_horizontally_places_both_images() {
    let mut left = Bitmap::new_default(1, 2);
    left.image_data = vec![BitmapPixel::red(); 2];
    let mut right = Bitmap::new_default(2, 1);
    right.image_data = vec![BitmapPixel::blue(); 2];
    let merged = Bitmap::merge_horizontally(&left, &right);
    assert_eq!(merged.info_header.image_width, 3);
    assert_eq!(merged.info_header.image_height, 2);
    assert_eq!(merged.image_data[0], BitmapPixel::red());
    assert_eq!(merged.image_data[1], BitmapPixel::blue());
    assert_eq!(merged.image_data[2], BitmapPixel::blue());
    assert_eq!(merged.image_data[3], BitmapPixel::red());
    assert_eq!(merged.image_data[4], BitmapPixel::transparent());
    assert_eq!(merged.image_data[5], BitmapPixel::transparent());
}

#[test]
fn merge_vertically_places_both_images() {
    let mut top = Bitmap::new_default(2, 1);
    top.image_data = vec![BitmapPixel::green(); 2];
    let mut bottom = Bitmap::new_default(1, 1);
    bottom.image_data = vec![BitmapPixel::white(); 1];
    let merged = Bitmap::merge_vertically(&top, &bottom);
    assert_eq!(merged.info_header.image_width, 2);
    assert_eq!(merged.info_header.image_height, 2);
    assert_eq!(merged.image_data[0], BitmapPixel::green());
    assert_eq!(merged.image_data[1], BitmapPixel::green());
    assert_eq!(merged.image_data[2], BitmapPixel::white());
    assert_eq!(merged.image_data[3], BitmapPixel::transparent());
}

#[test]
fn color_to_alpha_clears_matching_pixels() {
    let mut bitmap = Bitmap::new_default(2, 1);
    bitmap.image_data = vec![BitmapPixel::rgb(9, 9, 9), BitmapPixel::rgb(1, 2, 3)];
    bitmap.color_to_alpha(BitmapPixel::rgb(9, 9, 9));
    assert_eq!(bitmap.image_data[0].alpha, 0);
    assert_eq!(bitmap.image_data[0].red, 9);
    assert_eq!(bitmap.image_data[1].alpha, 0xff);
}

#[test]
fn convert_to_rewrites_headers() {
    let mut bitmap = Bitmap::new_default(2, 2);
    bitmap.image_data = numbered_grid(2, 2);
    bitmap.convert_to(24, CompressionType::Uncompressed);
    assert_eq!(bitmap.info_header.bits_per_pixel, 24);
    assert_eq!(bitmap.info_header.compression_type, 0);
    assert_eq!(bitmap.info_header.info_header_size, 40);
    assert_eq!(bitmap.info_header.image_size, 16);
    assert_eq!(bitmap.file_header.pixel_array_offset, 54);
}

#[test]
fn walker_reads_little_endian() {
    let data: Vec<u8> = vec![0x42, 0x4d, 0x78, 0x56, 0x34, 0x12, 0xfe, 0xff, 0xff, 0xff, 7];
    let mut walker = BytesWalker::new(data.as_slice());
    assert!(walker.has_data());
    assert_eq!(walker.next_u16(), 0x4d42);
    assert_eq!(walker.next_u32(), 0x1234_5678);
    assert_eq!(walker.next_i32(), -2);
    assert_eq!(walker.next_u8(), 7);
    assert!(!walker.has_data());
}

#[test]
fn walker_aligns_to_four_bytes() {
    let data: Vec<u8> = vec![1, 2, 3, 4, 5, 6];
    let mut walker = BytesWalker::new(data.as_slice());
    assert_eq!(walker.next_u8(), 1);
    walker.align_with_u32();
    assert_eq!(walker.next_u8(), 5);
    walker.align_with_u32();
    assert!(!walker.has_data());
}

#[test]
fn push_primitives_are_little_endian() {
    let mut out: Vec<u8> = Vec::new();
    push_u16(&mut out, 0x4d42);
    push_u32(&mut out, 0x1234_5678);
    push_i32(&mut out, -2);
    assert_eq!(out, vec![0x42, 0x4d, 0x78, 0x56, 0x34, 0x12, 0xfe, 0xff, 0xff, 0xff]);
}

#[test]
fn compression_type_codes() {
    assert_eq!(CompressionType::from_u32(0), CompressionType::Uncompressed);
    assert_eq!(CompressionType::from_u32(3), CompressionType::BitFields);
    assert_eq!(CompressionType::from_u32(0x0b), CompressionType::CMYK);
    assert_eq!(CompressionType::from_u32(99), CompressionType::Invalid);
    assert_eq!(CompressionType::BitFields.to_u32(), 3);
    assert_eq!(CompressionType::CmykRle4.to_u32(), 0x0d);
}

#[test]
fn file_header_round_trip() {
    let header = BitmapFileHeader::new(1234, 54);
    assert!(header.validate());
    let mut bytes: Vec<u8> = Vec::new();
    header.into_data(&mut bytes);
    assert_eq!(bytes.len(), 14);
    let parsed = BitmapFileHeader::from_data(bytes.as_slice()).unwrap();
    assert_eq!(parsed, header);
    let mut bad = header;
    bad.magic_number = 0x1111;
    assert!(!bad.validate());
}

#[test]
fn read_palette_groups_of_four() {
    let data: Vec<u8> = vec![1, 2, 3, 0, 4, 5, 6, 0, 9, 9];
    let palette = read_palette(data.as_slice());
    assert_eq!(palette.len(), 2);
    assert_eq!(palette[0], BitmapPixel::rgba(3, 2, 1, 0xff));
    assert_eq!(palette[1], BitmapPixel::rgba(6, 5, 4, 0xff));
}

#[test]
fn byte_from_pixels_sets_high_bits_first() {
    let palette = vec![BitmapPixel::black(), BitmapPixel::white()];
    let block = vec![
        BitmapPixel::white(),
        BitmapPixel::black(),
        BitmapPixel::white(),
        BitmapPixel::white(),
    ];
    let byte = bitmap_io::byte_from_pixels(&palette, block.as_slice());
    assert_eq!(byte, 0b1011_0000);
}

#[test]
fn append_pixels_from_byte_reads_high_bits_first() {
    let palette = vec![BitmapPixel::black(), BitmapPixel::white()];
    let mut out: Vec<BitmapPixel> = Vec::new();
    bitmap_io::append_pixels_from_byte(&palette, &mut out, 0b1011_0000, 4);
    assert_eq!(
        out,
        vec![
            BitmapPixel::white(),
            BitmapPixel::black(),
            BitmapPixel::white(),
            BitmapPixel::white(),
        ]
    );
}

#[test]
fn encode_without_palette_is_rejected() {
    // an 8-bit header with no palette cannot be serialized
    let mut bitmap = Bitmap::new(2, 1, 8, CompressionType::Uncompressed);
    bitmap.image_data = vec![BitmapPixel::black(); 2];
    assert!(matches!(
        bitmap.into_data(),
        Err(BitmapError::InvalidOperation)
    ));
}

#[test]
fn encode_with_mismatched_grid_is_rejected() {
    let mut bitmap = Bitmap::new(2, 2, 24, CompressionType::Uncompressed);
    bitmap.image_data = vec![BitmapPixel::black(); 3];
    assert!(matches!(
        bitmap.into_data(),
        Err(BitmapError::InvalidOperation)
    ));
}

#[test]
fn pixel_constructors() {
    let p = BitmapPixel::rgba_u32(0x11223344);
    assert_eq!((p.red, p.green, p.blue, p.alpha), (0x11, 0x22, 0x33, 0x44));
    let q = BitmapPixel::rgb_u32(0x11223300);
    assert_eq!((q.red, q.green, q.blue, q.alpha), (0x11, 0x22, 0x33, 0xff));
    assert!(p.same_color_as(&q));
    assert!(!p.same_color_as(&BitmapPixel::black()));
    assert_eq!(BitmapPixel::transparent().alpha, 0);
}
