//! End-to-end encode/decode checks for every supported pixel format.

use bitmap_io::Bitmap;
use bitmap_io::BitmapError;
use bitmap_io::BitmapFileHeader;
use bitmap_io::BitmapInfoHeader;
use bitmap_io::BitmapPixel;
use bitmap_io::CompressionType;

fn sample_grid(width: usize, height: usize) -> Vec<BitmapPixel> {
    let mut pixels = Vec::new();
    for y in 0..height {
        for x in 0..width {
            pixels.push(BitmapPixel::rgba(
                (x * 40 + 3) as u8,
                (y * 50 + 7) as u8,
                (x * 20 + y * 10) as u8,
                (x * 60 + 11) as u8,
            ));
        }
    }
    pixels
}

fn same_colors(a: &[BitmapPixel], b: &[BitmapPixel]) -> bool {
    a.len() == b.len() && a.iter().zip(b.iter()).all(|(p, q)| p.same_color_as(q))
}

#[test]
fn round_trip_32_bitfield_default_masks() {
    let mut bitmap = Bitmap::new(4, 3, 32, CompressionType::BitFields);
    bitmap.image_data = sample_grid(4, 3);
    let data = bitmap.into_data().unwrap();
    let decoded = Bitmap::from_data(data).unwrap();
    assert_eq!(decoded.info_header.image_width, 4);
    assert_eq!(decoded.info_header.image_height, 3);
    // the default alpha mask is nonzero, so all four channels survive
    assert_eq!(decoded.image_data, bitmap.image_data);
}

#[test]
fn round_trip_32_uncompressed() {
    let mut bitmap = Bitmap::new(3, 2, 32, CompressionType::Uncompressed);
    bitmap.image_data = sample_grid(3, 2);
    let data = bitmap.into_data().unwrap();
    let decoded = Bitmap::from_data(data).unwrap();
    assert!(same_colors(&decoded.image_data, &bitmap.image_data));
    assert!(decoded.image_data.iter().all(|p| p.alpha == 0xff));
}

#[test]
fn round_trip_24_uncompressed_padded_rows() {
    // width 5 forces one padding byte per row
    let mut bitmap = Bitmap::new(5, 3, 24, CompressionType::Uncompressed);
    bitmap.image_data = sample_grid(5, 3);
    let data = bitmap.into_data().unwrap();
    let decoded = Bitmap::from_data(data).unwrap();
    assert!(same_colors(&decoded.image_data, &bitmap.image_data));
    assert!(decoded.image_data.iter().all(|p| p.alpha == 0xff));
}

#[test]
fn round_trip_16_bitfield_555_masks() {
    let mut bitmap = Bitmap::new(3, 2, 16, CompressionType::BitFields);
    bitmap.info_header.red_mask = 0x7c00;
    bitmap.info_header.green_mask = 0x03e0;
    bitmap.info_header.blue_mask = 0x001f;
    bitmap.info_header.alpha_mask = 0;
    // channel values that survive the 5-bit round trip: k scaled up from 0..=31
    let mut pixels = Vec::new();
    for i in 0..6u32 {
        let five = (i * 6) as u32; // 0, 6, 12, 18, 24, 30
        let eight = ((2 * five * 0xff + 0x1f) / (2 * 0x1f)) as u8;
        pixels.push(BitmapPixel::rgb(eight, eight, eight));
    }
    bitmap.image_data = pixels.clone();
    let data = bitmap.into_data().unwrap();
    let decoded = Bitmap::from_data(data).unwrap();
    assert!(same_colors(&decoded.image_data, &pixels));
    assert!(decoded.image_data.iter().all(|p| p.alpha == 0xff));
}

fn indexed_bitmap(
    width: i32,
    height: i32,
    bits_per_pixel: u16,
    palette: Vec<BitmapPixel>,
    pixels: Vec<BitmapPixel>,
) -> Bitmap {
    // headers whose pixel-array offset leaves room for the stored palette
    let row_bits = (width as u32) * (bits_per_pixel as u32);
    let row_bytes = {
        let bytes = (row_bits + (8 - row_bits % 8) % 8) / 8;
        bytes + (4 - bytes % 4) % 4
    };
    let image_size = row_bytes * height as u32;
    let offset = 14 + 40 + 4 * palette.len() as u32;
    let file_header = BitmapFileHeader::new(offset + image_size, offset);
    let info_header = BitmapInfoHeader {
        info_header_size: 40,
        image_width: width,
        image_height: height,
        n_planes: 1,
        bits_per_pixel,
        compression_type: 0,
        image_size,
        pixels_per_meter_x: 0,
        pixels_per_meter_y: 0,
        colors_used: 0,
        colors_important: 0,
        red_mask: 0,
        green_mask: 0,
        blue_mask: 0,
        alpha_mask: 0,
        is_top_down: false,
    };
    Bitmap { file_header, info_header, palette: Some(palette), image_data: pixels }
}

fn gray_palette(n: usize) -> Vec<BitmapPixel> {
    (0..n).map(|i| BitmapPixel::rgb(i as u8, i as u8, i as u8)).collect()
}

#[test]
fn round_trip_8_indexed() {
    let palette: Vec<BitmapPixel> = (0..256)
        .map(|i| BitmapPixel::rgb(i as u8, (255 - i) as u8, (i / 2) as u8))
        .collect();
    let pixels: Vec<BitmapPixel> = [0usize, 17, 255, 42, 1, 200]
        .iter()
        .map(|&i| {
            let p = palette[i];
            BitmapPixel::rgba(p.red, p.green, p.blue, 0x12)
        })
        .collect();
    let bitmap = indexed_bitmap(3, 2, 8, palette, pixels.clone());
    let data = bitmap.into_data().unwrap();
    let decoded = Bitmap::from_data(data).unwrap();
    assert!(same_colors(&decoded.image_data, &pixels));
}

#[test]
fn round_trip_4_indexed_odd_width() {
    let palette = gray_palette(16);
    let pixels: Vec<BitmapPixel> = [0usize, 15, 7, 3, 9, 1]
        .iter()
        .map(|&i| palette[i])
        .collect();
    let bitmap = indexed_bitmap(3, 2, 4, palette, pixels.clone());
    let data = bitmap.into_data().unwrap();
    let decoded = Bitmap::from_data(data).unwrap();
    assert!(same_colors(&decoded.image_data, &pixels));
}

#[test]
fn round_trip_1_indexed_ragged_width() {
    let palette = vec![BitmapPixel::black(), BitmapPixel::white()];
    let pixels: Vec<BitmapPixel> = [0usize, 1, 1, 0, 1, 1, 0, 0, 1, 0]
        .iter()
        .map(|&i| palette[i])
        .collect();
    // width 5 leaves three unused bits in each row's single byte
    let bitmap = indexed_bitmap(5, 2, 1, palette, pixels.clone());
    let data = bitmap.into_data().unwrap();
    let decoded = Bitmap::from_data(data).unwrap();
    assert!(same_colors(&decoded.image_data, &pixels));
}

#[test]
fn encode_16_uncompressed_is_unsupported() {
    let mut bitmap = Bitmap::new(2, 2, 16, CompressionType::Uncompressed);
    bitmap.image_data = sample_grid(2, 2);
    assert!(matches!(
        bitmap.into_data(),
        Err(BitmapError::UnsupportedPixelFormat(16))
    ));
}

#[test]
fn decode_16_uncompressed_scales_five_bit_channels() {
    // one pixel, 0b01111_00000_11111: red 15, green 0, blue 31
    let mut bitmap = Bitmap::new(1, 1, 32, CompressionType::Uncompressed);
    bitmap.image_data = vec![BitmapPixel::black()];
    let mut data = bitmap.into_data().unwrap();
    // rewrite the header for 16-bit uncompressed with a hand-packed word
    data[28] = 16; // bits per pixel
    let word: u16 = (15 << 10) | 31;
    data[54] = (word & 0xff) as u8;
    data[55] = (word >> 8) as u8;
    data[56] = 0;
    data[57] = 0;
    let decoded = Bitmap::from_data(data).unwrap();
    let p = decoded.image_data[0];
    assert_eq!(p.red as u32, (2 * 15 * 0xff + 0x1f) / (2 * 0x1f)); // 123
    assert_eq!(p.green, 0);
    assert_eq!(p.blue, 0xff);
    assert_eq!(p.alpha, 0xff);
}

#[test]
fn reject_bad_magic() {
    let bitmap = Bitmap::new_default(2, 2);
    let mut data = bitmap.into_data().unwrap();
    data[0] = 0x42;
    data[1] = 0x42;
    assert!(matches!(
        Bitmap::from_data(data),
        Err(BitmapError::InvalidBitmap)
    ));
}

#[test]
fn reject_nonzero_reserved_fields() {
    let bitmap = Bitmap::new_default(2, 2);
    let mut data = bitmap.into_data().unwrap();
    data[6] = 1;
    assert!(matches!(
        Bitmap::from_data(data),
        Err(BitmapError::InvalidBitmap)
    ));
}

#[test]
fn reject_unsupported_header_size() {
    let bitmap = Bitmap::new(2, 2, 24, CompressionType::Uncompressed);
    let mut data = bitmap.into_data().unwrap();
    data[14] = 52;
    assert!(matches!(
        Bitmap::from_data(data),
        Err(BitmapError::UnsupportedInfoHeaderSize(52))
    ));
}

#[test]
fn reject_rle_compression() {
    let bitmap = Bitmap::new(2, 2, 24, CompressionType::Uncompressed);
    let mut data = bitmap.into_data().unwrap();
    data[30] = 1; // RLE8 code
    assert!(matches!(
        Bitmap::from_data(data),
        Err(BitmapError::UnsupportedCompressionType(CompressionType::Rle8))
    ));
}

#[test]
fn reject_bad_plane_count() {
    let bitmap = Bitmap::new(2, 2, 24, CompressionType::Uncompressed);
    let mut data = bitmap.into_data().unwrap();
    data[26] = 2;
    assert!(matches!(
        Bitmap::from_data(data),
        Err(BitmapError::UnsupportedNumberOfPlanes(2))
    ));
}

#[test]
fn reject_unsupported_bit_depth() {
    let bitmap = Bitmap::new(2, 2, 24, CompressionType::Uncompressed);
    let mut data = bitmap.into_data().unwrap();
    data[28] = 2;
    assert!(matches!(
        Bitmap::from_data(data),
        Err(BitmapError::UnsupportedPixelFormat(2))
    ));
}

#[test]
fn reject_truncated_file() {
    let bitmap = Bitmap::new(2, 2, 24, CompressionType::Uncompressed);
    let mut data = bitmap.into_data().unwrap();
    data.truncate(40);
    assert!(matches!(
        Bitmap::from_data(data),
        Err(BitmapError::TruncatedData)
    ));
    assert!(matches!(
        Bitmap::from_data(vec![0x42, 0x4d, 0, 0]),
        Err(BitmapError::TruncatedData)
    ));
}

#[test]
fn reject_truncated_pixel_array() {
    let bitmap = Bitmap::new(2, 2, 24, CompressionType::Uncompressed);
    let mut data = bitmap.into_data().unwrap();
    // chop into the middle of the pixel array
    data.truncate(data.len() - 9);
    assert!(matches!(
        Bitmap::from_data(data),
        Err(BitmapError::TruncatedData)
    ));
}

#[test]
fn missing_final_row_padding_is_tolerated() {
    // a bitfields image whose declared data size stops exactly where the
    // last row's alignment padding would begin
    let mut bitmap = Bitmap::new(5, 2, 16, CompressionType::BitFields);
    bitmap.info_header.red_mask = 0x7c00;
    bitmap.info_header.green_mask = 0x03e0;
    bitmap.info_header.blue_mask = 0x001f;
    bitmap.info_header.alpha_mask = 0;
    bitmap.image_data = vec![BitmapPixel::black(); 10];
    let mut data = bitmap.into_data().unwrap();
    // rows are 10 pixel bytes + 2 padding bytes; declare 22 instead of 24
    data[34] = 22;
    data.truncate(data.len() - 2);
    let decoded = Bitmap::from_data(data).unwrap();
    assert_eq!(decoded.image_data.len(), 10);
}

#[test]
fn top_down_height_is_normalized() {
    let mut bitmap = Bitmap::new(2, 2, 24, CompressionType::Uncompressed);
    bitmap.image_data = sample_grid(2, 2);
    let mut data = bitmap.into_data().unwrap();
    // store height = -2 (little-endian two's complement)
    data[22] = 0xfe;
    data[23] = 0xff;
    data[24] = 0xff;
    data[25] = 0xff;
    let decoded = Bitmap::from_data(data).unwrap();
    assert_eq!(decoded.info_header.image_height, 2);
    assert!(decoded.info_header.is_top_down);
}
