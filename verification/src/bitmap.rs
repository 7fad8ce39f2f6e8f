//! The bitmap aggregate: both headers, the optional palette and the decoded
//! pixel grid, with construction, decode/encode orchestration and the
//! geometric transforms over the grid.

use crate::header::BitmapError;
use crate::header::BitmapFileHeader;
use crate::header::BitmapInfoHeader;
use crate::header::CompressionType;
use crate::header::FILE_HEADER_SIZE;
use crate::pixel::BitmapPalette;
use crate::pixel::BitmapPixel;
use crate::pixel::spec_same_color;
use crate::util::spec_image_data_size;
use crate::walker::BytesWalker;
use vstd::prelude::*;

verus! {

/// A decoded bitmap: file header, info header, the palette (present for
/// bit depths of at most 8) and the pixel grid in row-major order with the
/// image width as stride.
pub struct Bitmap {
    pub file_header: BitmapFileHeader,
    pub info_header: BitmapInfoHeader,
    pub palette: Option<BitmapPalette>,
    pub image_data: Vec<BitmapPixel>,
}

impl Bitmap {
    /// The dimensions are non-negative and the pixel grid holds exactly
    /// width times height pixels.
    pub open spec fn grid_wf(self) -> bool {
        &&& 0 <= self.info_header.image_width
        &&& 0 <= self.info_header.image_height
        &&& self.image_data@.len() == self.info_header.image_width as int
            * self.info_header.image_height as int
    }

    /// The palette as a sequence, when present.
    pub open spec fn palette_view(self) -> Option<Seq<BitmapPixel>> {
        match self.palette {
            Some(p) => Some(p@),
            None => None,
        }
    }

    /// Builds the pair of headers of a fresh image: the info header first
    /// (it fixes the header size and the data size), then the file header
    /// whose offsets follow from it.
    pub fn create_headers(
        width: i32,
        height: i32,
        bits_per_pixel: u16,
        compression: CompressionType,
    ) -> (r: (BitmapFileHeader, BitmapInfoHeader))
        requires
            0 <= width,
            0 <= height,
            width * bits_per_pixel + 7 <= u32::MAX,
            spec_image_data_size(width as int, height as int, bits_per_pixel as int) + 70
                <= u32::MAX,
        ensures
            r.1 == (crate::header::BitmapInfoHeader {
                info_header_size: if compression == CompressionType::BitFields {
                    56u32
                } else {
                    40u32
                },
                image_width: width,
                image_height: height,
                n_planes: 1u16,
                bits_per_pixel: bits_per_pixel,
                compression_type: crate::header::spec_compression_code(compression),
                image_size: spec_image_data_size(
                    width as int,
                    height as int,
                    bits_per_pixel as int,
                ) as u32,
                pixels_per_meter_x: 0i32,
                pixels_per_meter_y: 0i32,
                colors_used: 0u32,
                colors_important: 0u32,
                red_mask: 0xff000000u32,
                green_mask: 0x00ff0000u32,
                blue_mask: 0x0000ff00u32,
                alpha_mask: 0x000000ffu32,
                is_top_down: false,
            }),
            r.0 == (crate::header::BitmapFileHeader {
                magic_number: crate::header::BMP_MAGIC_NUMBER,
                file_size: (FILE_HEADER_SIZE + r.1.info_header_size + r.1.image_size) as u32,
                reserved1: 0u16,
                reserved2: 0u16,
                pixel_array_offset: (FILE_HEADER_SIZE + r.1.info_header_size) as u32,
            }),
    {
        let info_header = BitmapInfoHeader::new(width, height, bits_per_pixel, compression);
        let p_offset: u32 = FILE_HEADER_SIZE + info_header.info_header_size;
        let file_size: u32 = p_offset + info_header.image_size;
        let file_header = BitmapFileHeader::new(file_size, p_offset);
        (file_header, info_header)
    }

    /// Builds a bitmap with fresh headers and an empty pixel grid, to be
    /// filled by the caller.
    pub fn lazy_new(width: i32, height: i32, bits_per_pixel: u16, compression: CompressionType) -> (
        b: Bitmap)
        requires
            0 <= width,
            0 <= height,
            width * bits_per_pixel + 7 <= u32::MAX,
            spec_image_data_size(width as int, height as int, bits_per_pixel as int) + 70
                <= u32::MAX,
        ensures
            b.info_header.image_width == width,
            b.info_header.image_height == height,
            b.info_header.bits_per_pixel == bits_per_pixel,
            b.info_header.compression_type == crate::header::spec_compression_code(compression),
            b.info_header.is_top_down == false,
            b.palette is None,
            b.image_data@ == Seq::<BitmapPixel>::empty(),
            (b.file_header, b.info_header) == Bitmap::create_headers_spec(
                width,
                height,
                bits_per_pixel,
                compression,
            ),
    {
        let (file_header, info_header) = Bitmap::create_headers(
            width,
            height,
            bits_per_pixel,
            compression,
        );
        Bitmap { file_header, info_header, palette: None, image_data: Vec::new() }
    }

    /// The headers `create_headers` builds, as a single spec value.
    pub open spec fn create_headers_spec(
        width: i32,
        height: i32,
        bits_per_pixel: u16,
        compression: CompressionType,
    ) -> (BitmapFileHeader, BitmapInfoHeader) {
        let info = crate::header::BitmapInfoHeader {
            info_header_size: if compression == CompressionType::BitFields {
                56u32
            } else {
                40u32
            },
            image_width: width,
            image_height: height,
            n_planes: 1u16,
            bits_per_pixel: bits_per_pixel,
            compression_type: crate::header::spec_compression_code(compression),
            image_size: spec_image_data_size(
                width as int,
                height as int,
                bits_per_pixel as int,
            ) as u32,
            pixels_per_meter_x: 0i32,
            pixels_per_meter_y: 0i32,
            colors_used: 0u32,
            colors_important: 0u32,
            red_mask: 0xff000000u32,
            green_mask: 0x00ff0000u32,
            blue_mask: 0x0000ff00u32,
            alpha_mask: 0x000000ffu32,
            is_top_down: false,
        };
        (
            crate::header::BitmapFileHeader {
                magic_number: crate::header::BMP_MAGIC_NUMBER,
                file_size: (FILE_HEADER_SIZE + info.info_header_size + info.image_size) as u32,
                reserved1: 0u16,
                reserved2: 0u16,
                pixel_array_offset: (FILE_HEADER_SIZE + info.info_header_size) as u32,
            },
            info,
        )
    }

    /// Builds a bitmap of the given dimensions whose pixels are all the
    /// transparent fill color.
    pub fn new(width: i32, height: i32, bits_per_pixel: u16, compression: CompressionType) -> (b:
        Bitmap)
        requires
            0 <= width,
            0 <= height,
            width * height <= usize::MAX,
            width * bits_per_pixel + 7 <= u32::MAX,
            spec_image_data_size(width as int, height as int, bits_per_pixel as int) + 70
                <= u32::MAX,
        ensures
            b.grid_wf(),
            b.info_header.image_width == width,
            b.info_header.image_height == height,
            b.info_header.bits_per_pixel == bits_per_pixel,
            b.info_header.compression_type == crate::header::spec_compression_code(compression),
            b.palette is None,
            b.image_data@ == Seq::new(
                (width as int * height as int) as nat,
                |i: int| (BitmapPixel { blue: 0xff, green: 0xff, red: 0xff, alpha: 0x00 }),
            ),
            (b.file_header, b.info_header) == Bitmap::create_headers_spec(
                width,
                height,
                bits_per_pixel,
                compression,
            ),
    {
        proof {
            assert(width as int * height as int >= 0) by (nonlinear_arith)
                requires
                    width >= 0,
                    height >= 0,
            ;
        }
        let n_pixels: usize = (width as usize) * (height as usize);
        let mut result = Bitmap::lazy_new(width, height, bits_per_pixel, compression);
        let fill = BitmapPixel::transparent();
        let mut grid: Vec<BitmapPixel> = Vec::new();
        let mut i: usize = 0;
        while i < n_pixels
            invariant
                i <= n_pixels,
                fill == (BitmapPixel { blue: 0xff, green: 0xff, red: 0xff, alpha: 0x00 }),
                grid@ == Seq::new(i as nat, |j: int| fill),
            decreases n_pixels - i,
        {
            grid.push(fill);
            proof {
                assert(grid@ =~= Seq::new(i as nat + 1, |j: int| fill));
            }
            i = i + 1;
        }
        result.image_data = grid;
        proof {
            assert(result.image_data@ =~= Seq::new(
                (width as int * height as int) as nat,
                |i: int| (BitmapPixel { blue: 0xff, green: 0xff, red: 0xff, alpha: 0x00 }),
            ));
        }
        result
    }

    /// `lazy_new` with the default format: 32-bit bitfields.
    pub fn lazy_new_default(width: i32, height: i32) -> (b: Bitmap)
        requires
            0 <= width,
            0 <= height,
            width * 32 + 7 <= u32::MAX,
            spec_image_data_size(width as int, height as int, 32) + 70 <= u32::MAX,
        ensures
            b.info_header.image_width == width,
            b.info_header.image_height == height,
            b.info_header.bits_per_pixel == 32,
            b.info_header.compression_type == 3,
            b.palette is None,
            b.image_data@ == Seq::<BitmapPixel>::empty(),
            (b.file_header, b.info_header) == Bitmap::create_headers_spec(
                width,
                height,
                32,
                CompressionType::BitFields,
            ),
    {
        Bitmap::lazy_new(width, height, 32, CompressionType::BitFields)
    }

    /// `new` with the default format: 32-bit bitfields.
    pub fn new_default(width: i32, height: i32) -> (b: Bitmap)
        requires
            0 <= width,
            0 <= height,
            width * height <= usize::MAX,
            width * 32 + 7 <= u32::MAX,
            spec_image_data_size(width as int, height as int, 32) + 70 <= u32::MAX,
        ensures
            b.grid_wf(),
            b.info_header.image_width == width,
            b.info_header.image_height == height,
            b.info_header.bits_per_pixel == 32,
            b.info_header.compression_type == 3,
            b.palette is None,
            b.image_data@ == Seq::new(
                (width as int * height as int) as nat,
                |i: int| (BitmapPixel { blue: 0xff, green: 0xff, red: 0xff, alpha: 0x00 }),
            ),
            (b.file_header, b.info_header) == Bitmap::create_headers_spec(
                width,
                height,
                32,
                CompressionType::BitFields,
            ),
    {
        Bitmap::new(width, height, 32, CompressionType::BitFields)
    }

    /// Clears the alpha channel of every pixel whose red, green and blue
    /// agree with `color`.
    pub fn color_to_alpha(&mut self, color: BitmapPixel)
        ensures
            final(self).file_header == old(self).file_header,
            final(self).info_header == old(self).info_header,
            final(self).palette == old(self).palette,
            final(self).image_data@ == spec_clear_alpha(old(self).image_data@, color),
    {
        let ghost target = spec_clear_alpha(old(self).image_data@, color);
        let n: usize = self.image_data.len();
        let mut i: usize = 0;
        while i < n
            invariant
                i <= n,
                n == old(self).image_data@.len(),
                self.image_data@.len() == n,
                self.file_header == old(self).file_header,
                self.info_header == old(self).info_header,
                self.palette == old(self).palette,
                target == spec_clear_alpha(old(self).image_data@, color),
                forall|j: int| i <= j < n ==> self.image_data@[j] == old(self).image_data@[j],
                forall|j: int| 0 <= j < i ==> self.image_data@[j] == target[j],
            decreases n - i,
        {
            let pixel = self.image_data[i];
            if pixel.same_color_as(&color) {
                self.image_data[i] = BitmapPixel {
                    blue: pixel.blue,
                    green: pixel.green,
                    red: pixel.red,
                    alpha: 0x00,
                };
            }
            proof {
                assert(self.image_data@[i as int] == target[i as int]);
            }
            i = i + 1;
        }
        proof {
            assert(self.image_data@ =~= target);
        }
    }
}

/// `p` with its alpha cleared when its color agrees with `color`.
pub open spec fn spec_clear_alpha_pixel(p: BitmapPixel, color: BitmapPixel) -> BitmapPixel {
    if spec_same_color(p, color) {
        BitmapPixel { blue: p.blue, green: p.green, red: p.red, alpha: 0x00 }
    } else {
        p
    }
}

/// The grid with the alpha of every pixel matching `color` cleared.
pub open spec fn spec_clear_alpha(s: Seq<BitmapPixel>, color: BitmapPixel) -> Seq<BitmapPixel> {
    Seq::new(s.len(), |i: int| spec_clear_alpha_pixel(s[i], color))
}

/// The palette as a sequence, when present.
pub open spec fn spec_palette_view(palette: Option<BitmapPalette>) -> Option<Seq<BitmapPixel>> {
    match palette {
        Some(p) => Some(p@),
        None => None,
    }
}

/// `Ok` when the decoded pixel count matches the dimensions the header
/// declares, the malformed-container error otherwise.
pub open spec fn spec_check_count(pixels: Seq<BitmapPixel>, n: int) -> Result<
    Seq<BitmapPixel>,
    BitmapError,
> {
    if pixels.len() == n {
        Ok(pixels)
    } else {
        Err(BitmapError::InvalidBitmap)
    }
}

/// The decode table: what interpreting a pixel array returns for each
/// (compression, bit depth) pair — the decoded grid, or the exact error.
/// Indexed formats demand a palette with an entry for every possible
/// index; a grid whose pixel count contradicts the header is rejected.
pub open spec fn spec_interpret_image_data(
    bytes: Seq<u8>,
    info: BitmapInfoHeader,
    palette: Option<Seq<BitmapPixel>>,
) -> Result<Seq<BitmapPixel>, BitmapError> {
    let w = info.image_width as int;
    let h = info.image_height as int;
    let n = w * h;
    if w < 0 || h < 0 {
        Err(BitmapError::InvalidBitmap)
    } else if info.compression_type == 3 {
        if info.bits_per_pixel == 32 {
            if bytes.len() % 4 != 0 {
                Err(BitmapError::TruncatedData)
            } else {
                spec_check_count(
                    crate::bitmap_read::spec_dec_32bf(
                        bytes,
                        info.red_mask,
                        info.green_mask,
                        info.blue_mask,
                        info.alpha_mask,
                    ),
                    n,
                )
            }
        } else if info.bits_per_pixel == 16 {
            if bytes.len() < crate::util::spec_min_image_bytes(w, h, 16) {
                Err(BitmapError::TruncatedData)
            } else {
                spec_check_count(
                    crate::bitmap_read::spec_dec_16bf(
                        bytes,
                        w,
                        h,
                        info.red_mask,
                        info.green_mask,
                        info.blue_mask,
                        info.alpha_mask,
                    ),
                    n,
                )
            }
        } else {
            Err(BitmapError::UnsupportedPixelFormat(info.bits_per_pixel))
        }
    } else if info.compression_type == 0 {
        if info.bits_per_pixel == 32 {
            if bytes.len() % 4 != 0 {
                Err(BitmapError::TruncatedData)
            } else {
                spec_check_count(crate::bitmap_read::spec_dec_32u(bytes), n)
            }
        } else if info.bits_per_pixel == 24 {
            if bytes.len() < crate::util::spec_min_image_bytes(w, h, 24) {
                Err(BitmapError::TruncatedData)
            } else {
                spec_check_count(crate::bitmap_read::spec_dec_24(bytes, w, h), n)
            }
        } else if info.bits_per_pixel == 16 {
            if bytes.len() < crate::util::spec_min_image_bytes(w, h, 16) {
                Err(BitmapError::TruncatedData)
            } else {
                spec_check_count(crate::bitmap_read::spec_dec_16u(bytes, w, h), n)
            }
        } else if info.bits_per_pixel == 8 {
            match palette {
                Some(p) => if p.len() < 256 {
                    Err(BitmapError::InvalidOperation)
                } else if bytes.len() < crate::util::spec_min_image_bytes(w, h, 8) {
                    Err(BitmapError::TruncatedData)
                } else {
                    spec_check_count(crate::bitmap_read::spec_dec_8(bytes, p, w, h), n)
                },
                None => Err(BitmapError::InvalidOperation),
            }
        } else if info.bits_per_pixel == 4 {
            match palette {
                Some(p) => if p.len() < 16 {
                    Err(BitmapError::InvalidOperation)
                } else if bytes.len() < crate::util::spec_min_image_bytes(w, h, 4) {
                    Err(BitmapError::TruncatedData)
                } else {
                    spec_check_count(crate::bitmap_read::spec_dec_4(bytes, p, w, h), n)
                },
                None => Err(BitmapError::InvalidOperation),
            }
        } else if info.bits_per_pixel == 1 {
            match palette {
                Some(p) => if p.len() < 2 {
                    Err(BitmapError::InvalidOperation)
                } else if bytes.len() < crate::util::spec_min_image_bytes(w, h, 1) {
                    Err(BitmapError::TruncatedData)
                } else {
                    spec_check_count(crate::bitmap_read::spec_dec_1(bytes, p, w, h), n)
                },
                None => Err(BitmapError::InvalidOperation),
            }
        } else {
            Err(BitmapError::UnsupportedPixelFormat(info.bits_per_pixel))
        }
    } else {
        Err(
            BitmapError::UnsupportedCompressionType(
                crate::header::spec_compression_from_code(info.compression_type),
            ),
        )
    }
}

/// Decodes a pixel array into a grid, dispatching on the header's
/// compression and bit depth exactly as `spec_interpret_image_data` says.
pub fn interpret_image_data(
    data: &[u8],
    info_header: &BitmapInfoHeader,
    palette: &Option<BitmapPalette>,
) -> (r: Result<Vec<BitmapPixel>, BitmapError>)
    ensures
        match r {
            Ok(pixels) => spec_interpret_image_data(data@, *info_header, spec_palette_view(*palette))
                == Ok::<Seq<BitmapPixel>, BitmapError>(pixels@) && pixels@.len()
                == info_header.image_width as int * info_header.image_height as int,
            Err(e) => spec_interpret_image_data(data@, *info_header, spec_palette_view(*palette))
                == Err::<Seq<BitmapPixel>, BitmapError>(e),
        },
{
    let width = info_header.image_width;
    let height = info_header.image_height;
    if width < 0 || height < 0 {
        return Err(BitmapError::InvalidBitmap);
    }
    let mut data_walker = BytesWalker::new(data);
    let mut result: Vec<BitmapPixel> = Vec::new();
    proof {
        assert(data_walker.remaining_bytes() =~= data@);
    }
    let bits_per_pixel = info_header.bits_per_pixel;
    let compression_type = info_header.compression_type;
    if compression_type == 3 {
        if bits_per_pixel == 32 {
            let step = crate::bitmap_read::read_32_bitfield(
                &mut data_walker,
                &mut result,
                info_header.red_mask,
                info_header.green_mask,
                info_header.blue_mask,
                info_header.alpha_mask,
            );
            if let Err(e) = step {
                return Err(e);
            }
        } else if bits_per_pixel == 16 {
            let step = crate::bitmap_read::read_16_bitfield(
                &mut data_walker,
                &mut result,
                width,
                height,
                info_header.red_mask,
                info_header.green_mask,
                info_header.blue_mask,
                info_header.alpha_mask,
            );
            if let Err(e) = step {
                return Err(e);
            }
        } else {
            return Err(BitmapError::UnsupportedPixelFormat(bits_per_pixel));
        }
    } else if compression_type == 0 {
        if bits_per_pixel == 32 {
            let step = crate::bitmap_read::read_32_uncompressed(&mut data_walker, &mut result);
            if let Err(e) = step {
                return Err(e);
            }
        } else if bits_per_pixel == 24 {
            let step = crate::bitmap_read::read_24_uncompressed(
                &mut data_walker,
                &mut result,
                width,
                height,
            );
            if let Err(e) = step {
                return Err(e);
            }
        } else if bits_per_pixel == 16 {
            let step = crate::bitmap_read::read_16_uncompressed(
                &mut data_walker,
                &mut result,
                width,
                height,
            );
            if let Err(e) = step {
                return Err(e);
            }
        } else if bits_per_pixel == 8 {
            match palette {
                Some(p) => {
                    if p.len() < 256 {
                        return Err(BitmapError::InvalidOperation);
                    }
                    let step = crate::bitmap_read::read_8_uncompressed(
                        &mut data_walker,
                        &mut result,
                        width,
                        height,
                        p,
                    );
                    if let Err(e) = step {
                        return Err(e);
                    }
                },
                None => {
                    return Err(BitmapError::InvalidOperation);
                },
            }
        } else if bits_per_pixel == 4 {
            match palette {
                Some(p) => {
                    if p.len() < 16 {
                        return Err(BitmapError::InvalidOperation);
                    }
                    let step = crate::bitmap_read::read_4_uncompressed(
                        &mut data_walker,
                        &mut result,
                        width,
                        height,
                        p,
                    );
                    if let Err(e) = step {
                        return Err(e);
                    }
                },
                None => {
                    return Err(BitmapError::InvalidOperation);
                },
            }
        } else if bits_per_pixel == 1 {
            match palette {
                Some(p) => {
                    if p.len() < 2 {
                        return Err(BitmapError::InvalidOperation);
                    }
                    let step = crate::bitmap_read::read_1_uncompressed(
                        &mut data_walker,
                        &mut result,
                        width,
                        height,
                        p,
                    );
                    if let Err(e) = step {
                        return Err(e);
                    }
                },
                None => {
                    return Err(BitmapError::InvalidOperation);
                },
            }
        } else {
            return Err(BitmapError::UnsupportedPixelFormat(bits_per_pixel));
        }
    } else {
        return Err(
            BitmapError::UnsupportedCompressionType(
                CompressionType::from_u32(compression_type),
            ),
        );
    }
    proof {
        assert((width as int) * (height as int) <= 0x8000_0000 * 0x8000_0000) by (nonlinear_arith)
            requires
                0 <= width <= 0x8000_0000,
                0 <= height <= 0x8000_0000,
        ;
    }
    let n_pixels: u64 = (width as u64) * (height as u64);
    if result.len() as u64 != n_pixels {
        return Err(BitmapError::InvalidBitmap);
    }
    Ok(result)
}

/// The encode table: the bytes a pixel grid packs into for each
/// (compression, bit depth) pair, or the exact error.  The grid must match
/// the header's dimensions; indexed formats demand a palette whose indices
/// fit the bit depth; 16-bit bitfields masks must lie within the pixel
/// word.
pub open spec fn spec_pixels_into_data(
    pixels: Seq<BitmapPixel>,
    info: BitmapInfoHeader,
    palette: Option<Seq<BitmapPixel>>,
) -> Result<Seq<u8>, BitmapError> {
    let w = info.image_width as int;
    let h = info.image_height as int;
    let n = w * h;
    if info.compression_type == 3 {
        if info.bits_per_pixel == 32 {
            Ok(
                crate::bitmap_write::spec_enc_32bf(
                    pixels,
                    info.red_mask,
                    info.green_mask,
                    info.blue_mask,
                    info.alpha_mask,
                ),
            )
        } else if info.bits_per_pixel == 16 {
            if !(info.red_mask <= 0xffff && info.green_mask <= 0xffff && info.blue_mask <= 0xffff
                && info.alpha_mask <= 0xffff) {
                Err(BitmapError::InvalidOperation)
            } else if w < 0 || h < 0 || pixels.len() != n {
                Err(BitmapError::InvalidOperation)
            } else {
                Ok(
                    crate::bitmap_write::spec_enc_16bf(
                        pixels,
                        w,
                        h,
                        info.red_mask,
                        info.green_mask,
                        info.blue_mask,
                        info.alpha_mask,
                    ),
                )
            }
        } else {
            Err(BitmapError::UnsupportedPixelFormat(info.bits_per_pixel))
        }
    } else if info.compression_type == 0 {
        if info.bits_per_pixel == 32 {
            Ok(crate::bitmap_write::spec_enc_32u(pixels))
        } else if info.bits_per_pixel == 24 {
            if w < 0 || h < 0 || pixels.len() != n {
                Err(BitmapError::InvalidOperation)
            } else {
                Ok(crate::bitmap_write::spec_enc_24(pixels, w, h))
            }
        } else if info.bits_per_pixel == 8 {
            match palette {
                Some(p) => if !(1 <= p.len() <= 256) {
                    Err(BitmapError::InvalidOperation)
                } else if w < 0 || h < 0 || pixels.len() != n {
                    Err(BitmapError::InvalidOperation)
                } else {
                    Ok(crate::bitmap_write::spec_enc_8(pixels, p, w, h))
                },
                None => Err(BitmapError::InvalidOperation),
            }
        } else if info.bits_per_pixel == 4 {
            match palette {
                Some(p) => if !(1 <= p.len() <= 16) {
                    Err(BitmapError::InvalidOperation)
                } else if w < 0 || h < 0 || pixels.len() != n {
                    Err(BitmapError::InvalidOperation)
                } else {
                    Ok(crate::bitmap_write::spec_enc_4(pixels, p, w, h))
                },
                None => Err(BitmapError::InvalidOperation),
            }
        } else if info.bits_per_pixel == 1 {
            match palette {
                Some(p) => if p.len() < 1 {
                    Err(BitmapError::InvalidOperation)
                } else if w < 0 || h < 0 || pixels.len() != n {
                    Err(BitmapError::InvalidOperation)
                } else {
                    Ok(crate::bitmap_write::spec_enc_1(pixels, p, w, h))
                },
                None => Err(BitmapError::InvalidOperation),
            }
        } else {
            Err(BitmapError::UnsupportedPixelFormat(info.bits_per_pixel))
        }
    } else {
        Err(
            BitmapError::UnsupportedCompressionType(
                crate::header::spec_compression_from_code(info.compression_type),
            ),
        )
    }
}

/// Encodes a pixel grid into the byte layout the header's compression and
/// bit depth call for, appending to `data`, exactly as
/// `spec_pixels_into_data` says; on an error nothing is appended.
pub fn pixels_into_data(
    pixels: &Vec<BitmapPixel>,
    data: &mut Vec<u8>,
    bitmap_info: &BitmapInfoHeader,
    palette: &Option<BitmapPalette>,
) -> (r: Result<(), BitmapError>)
    ensures
        match r {
            Ok(()) => spec_pixels_into_data(pixels@, *bitmap_info, spec_palette_view(*palette))
                is Ok && final(data)@ == old(data)@ + spec_pixels_into_data(
                pixels@,
                *bitmap_info,
                spec_palette_view(*palette),
            ).unwrap(),
            Err(e) => spec_pixels_into_data(pixels@, *bitmap_info, spec_palette_view(*palette))
                == Err::<Seq<u8>, BitmapError>(e) && final(data)@ == old(data)@,
        },
{
    let width = bitmap_info.image_width;
    let height = bitmap_info.image_height;
    let bits_per_pixel = bitmap_info.bits_per_pixel;
    let compression_type = bitmap_info.compression_type;
    proof {
        assert(0 <= width && 0 <= height ==> 0 <= (width as int) * (height as int)
            <= 0x4000_0000_0000_0000) by (nonlinear_arith);
    }
    if compression_type == 3 {
        if bits_per_pixel == 32 {
            crate::bitmap_write::write_32_bitfield(
                data,
                pixels,
                bitmap_info.red_mask,
                bitmap_info.green_mask,
                bitmap_info.blue_mask,
                bitmap_info.alpha_mask,
            );
            Ok(())
        } else if bits_per_pixel == 16 {
            if !(bitmap_info.red_mask <= 0xffff && bitmap_info.green_mask <= 0xffff
                && bitmap_info.blue_mask <= 0xffff && bitmap_info.alpha_mask <= 0xffff) {
                return Err(BitmapError::InvalidOperation);
            }
            if width < 0 || height < 0 || pixels.len() as u64 != (width as u64) * (height as u64) {
                return Err(BitmapError::InvalidOperation);
            }
            crate::bitmap_write::write_16_bitfield(
                data,
                pixels,
                width,
                height,
                bitmap_info.red_mask,
                bitmap_info.green_mask,
                bitmap_info.blue_mask,
                bitmap_info.alpha_mask,
            );
            Ok(())
        } else {
            Err(BitmapError::UnsupportedPixelFormat(bits_per_pixel))
        }
    } else if compression_type == 0 {
        if bits_per_pixel == 32 {
            crate::bitmap_write::write_32_uncompressed(data, pixels);
            Ok(())
        } else if bits_per_pixel == 24 {
            if width < 0 || height < 0 || pixels.len() as u64 != (width as u64) * (height as u64) {
                return Err(BitmapError::InvalidOperation);
            }
            crate::bitmap_write::write_24_uncompressed(data, pixels, width, height);
            Ok(())
        } else if bits_per_pixel == 8 {
            match palette {
                Some(p) => {
                    if p.len() < 1 || p.len() > 256 {
                        return Err(BitmapError::InvalidOperation);
                    }
                    if width < 0 || height < 0 || pixels.len() as u64 != (width as u64) * (
                    height as u64) {
                        return Err(BitmapError::InvalidOperation);
                    }
                    crate::bitmap_write::write_8_uncompressed(data, pixels, p, width, height);
                    Ok(())
                },
                None => Err(BitmapError::InvalidOperation),
            }
        } else if bits_per_pixel == 4 {
            match palette {
                Some(p) => {
                    if p.len() < 1 || p.len() > 16 {
                        return Err(BitmapError::InvalidOperation);
                    }
                    if width < 0 || height < 0 || pixels.len() as u64 != (width as u64) * (
                    height as u64) {
                        return Err(BitmapError::InvalidOperation);
                    }
                    crate::bitmap_write::write_4_uncompressed(data, pixels, p, width, height);
                    Ok(())
                },
                None => Err(BitmapError::InvalidOperation),
            }
        } else if bits_per_pixel == 1 {
            match palette {
                Some(p) => {
                    if p.len() < 1 {
                        return Err(BitmapError::InvalidOperation);
                    }
                    if width < 0 || height < 0 || pixels.len() as u64 != (width as u64) * (
                    height as u64) {
                        return Err(BitmapError::InvalidOperation);
                    }
                    crate::bitmap_write::write_1_uncompressed(data, pixels, p, width, height);
                    Ok(())
                },
                None => Err(BitmapError::InvalidOperation),
            }
        } else {
            Err(BitmapError::UnsupportedPixelFormat(bits_per_pixel))
        }
    } else {
        Err(
            BitmapError::UnsupportedCompressionType(
                CompressionType::from_u32(compression_type),
            ),
        )
    }
}

/// The byte layout of a stored palette: blue, green, red and one zero byte
/// per entry.
pub open spec fn spec_palette_bytes(palette: Seq<BitmapPixel>) -> Seq<u8>
    decreases palette.len(),
{
    if palette.len() == 0 {
        Seq::empty()
    } else {
        seq![palette[0].blue, palette[0].green, palette[0].red, 0u8] + spec_palette_bytes(
            palette.skip(1),
        )
    }
}

/// What serializing a bitmap returns: both headers, the palette for
/// indexed bit depths, zero padding up to the declared pixel-array offset,
/// then the encoded pixel array — or the exact error.
pub open spec fn spec_bitmap_into_data(
    file_header: BitmapFileHeader,
    info_header: BitmapInfoHeader,
    palette: Option<Seq<BitmapPixel>>,
    pixels: Seq<BitmapPixel>,
) -> Result<Seq<u8>, BitmapError> {
    let header_bytes = crate::header::spec_file_header_bytes(file_header)
        + crate::header::spec_info_header_bytes(info_header);
    let indexed = info_header.bits_per_pixel == 1 || info_header.bits_per_pixel == 4
        || info_header.bits_per_pixel == 8;
    if indexed && palette is None {
        Err(BitmapError::InvalidOperation)
    } else {
        let pre = if indexed {
            header_bytes + spec_palette_bytes(palette.unwrap())
        } else {
            header_bytes
        };
        if pre.len() > file_header.pixel_array_offset {
            Err(BitmapError::InvalidOperation)
        } else {
            match spec_pixels_into_data(pixels, info_header, palette) {
                Ok(px) => Ok(
                    pre + crate::bitmap_write::spec_zeros(file_header.pixel_array_offset - pre.len())
                        + px,
                ),
                Err(e) => Err(e),
            }
        }
    }
}

impl Bitmap {
    /// Serializes the bitmap: both headers, the palette for indexed bit
    /// depths, zero padding up to the declared pixel-array offset, then the
    /// encoded pixel array, exactly as `spec_bitmap_into_data` says.
    pub fn into_data(&self) -> (r: Result<Vec<u8>, BitmapError>)
        ensures
            match r {
                Ok(bytes) => spec_bitmap_into_data(
                    self.file_header,
                    self.info_header,
                    self.palette_view(),
                    self.image_data@,
                ) == Ok::<Seq<u8>, BitmapError>(bytes@),
                Err(e) => spec_bitmap_into_data(
                    self.file_header,
                    self.info_header,
                    self.palette_view(),
                    self.image_data@,
                ) == Err::<Seq<u8>, BitmapError>(e),
            },
    {
        let mut result: Vec<u8> = Vec::new();
        self.file_header.into_data(&mut result);
        self.info_header.into_data(&mut result);
        let bits_per_pixel = self.info_header.bits_per_pixel;
        let indexed = bits_per_pixel == 1 || bits_per_pixel == 4 || bits_per_pixel == 8;
        let ghost header_bytes = crate::header::spec_file_header_bytes(self.file_header)
            + crate::header::spec_info_header_bytes(self.info_header);
        proof {
            assert(result@ =~= header_bytes);
        }
        if indexed {
            match &self.palette {
                Some(palette) => {
                    let ghost base = result@;
                    let n: usize = palette.len();
                    let mut i: usize = 0;
                    proof {
                        assert(palette@.skip(0) =~= palette@);
                    }
                    while i < n
                        invariant
                            i <= n,
                            n == palette@.len(),
                            result@ + spec_palette_bytes(palette@.skip(i as int)) == base
                                + spec_palette_bytes(palette@),
                        decreases n - i,
                    {
                        let pixel = palette[i];
                        let ghost rest = palette@.skip(i as int);
                        result.push(pixel.blue);
                        result.push(pixel.green);
                        result.push(pixel.red);
                        result.push(0x00);
                        proof {
                            assert(rest[0] == palette@[i as int]);
                            assert(rest.skip(1) =~= palette@.skip(i as int + 1));
                            assert(spec_palette_bytes(rest) == seq![
                                rest[0].blue,
                                rest[0].green,
                                rest[0].red,
                                0u8,
                            ] + spec_palette_bytes(rest.skip(1)));
                            assert(result@ + spec_palette_bytes(palette@.skip(i as int + 1)) =~= base
                                + spec_palette_bytes(palette@));
                        }
                        i = i + 1;
                    }
                    proof {
                        assert(result@ =~= result@ + spec_palette_bytes(
                            palette@.skip(palette@.len() as int),
                        ));
                        assert(result@ =~= header_bytes + spec_palette_bytes(palette@));
                    }
                },
                None => {
                    return Err(BitmapError::InvalidOperation);
                },
            }
        }
        let data_size: usize = result.len();
        if data_size > self.file_header.pixel_array_offset as usize {
            return Err(BitmapError::InvalidOperation);
        }
        let pad_len: u64 = self.file_header.pixel_array_offset as u64 - data_size as u64;
        let ghost pre = result@;
        crate::bitmap_write::push_zero_bytes(&mut result, pad_len);
        let step = pixels_into_data(&self.image_data, &mut result, &self.info_header, &self.palette);
        match step {
            Ok(()) => {
                proof {
                    assert(result@ =~= pre + crate::bitmap_write::spec_zeros(
                        self.file_header.pixel_array_offset - pre.len(),
                    ) + spec_pixels_into_data(
                        self.image_data@,
                        self.info_header,
                        self.palette_view(),
                    ).unwrap());
                }
                Ok(result)
            },
            Err(e) => Err(e),
        }
    }
}

/// The pixel-array byte count `from_data` works with: recomputed from the
/// dimensions for uncompressed images (whose stored size may legitimately
/// be zero), taken from the header for bitfields images.
pub open spec fn spec_from_data_image_size(info: BitmapInfoHeader) -> int {
    if info.compression_type == 0 {
        spec_image_data_size(
            info.image_width as int,
            info.image_height as int,
            info.bits_per_pixel as int,
        )
    } else {
        info.image_size as int
    }
}

/// Whether the bit depth uses a stored palette.
pub open spec fn spec_indexed(bits_per_pixel: u16) -> bool {
    bits_per_pixel == 1 || bits_per_pixel == 4 || bits_per_pixel == 8
}

/// The palette `from_data` reads: the entries between the info header's
/// end and the pixel array's start, for indexed bit depths only.
pub open spec fn spec_from_data_palette(data: Seq<u8>) -> Option<Seq<BitmapPixel>> {
    let fh = crate::header::spec_parse_file_header(data);
    let ih = crate::header::spec_parse_info_header(data.skip(14));
    if spec_indexed(ih.bits_per_pixel) {
        Some(
            spec_read_palette(
                data.subrange(14 + ih.info_header_size as int, fh.pixel_array_offset as int),
            ),
        )
    } else {
        None
    }
}

/// The pixel grid `from_data` decodes: the pixel-array bytes interpreted
/// through the decode table.
pub open spec fn spec_from_data_pixels(data: Seq<u8>) -> Result<Seq<BitmapPixel>, BitmapError> {
    let fh = crate::header::spec_parse_file_header(data);
    let ih = crate::header::spec_parse_info_header(data.skip(14));
    spec_interpret_image_data(
        data.subrange(
            fh.pixel_array_offset as int,
            fh.pixel_array_offset + spec_from_data_image_size(ih),
        ),
        ih,
        spec_from_data_palette(data),
    )
}

/// Whether decoding `data` succeeds, and with which error it fails: the
/// container is validated (magic, reserved fields, header size, compression,
/// plane count, non-negative width), the palette and pixel-array regions
/// must lie inside the buffer, and the pixel array must decode.
pub open spec fn spec_from_data_outcome(data: Seq<u8>) -> Result<(), BitmapError> {
    if data.len() < 14 {
        Err(BitmapError::TruncatedData)
    } else {
        let fh = crate::header::spec_parse_file_header(data);
        if !crate::header::spec_file_header_valid(fh) {
            Err(BitmapError::InvalidBitmap)
        } else {
            match crate::header::spec_info_header_parse_result(data.skip(14)) {
                Err(e) => Err(e),
                Ok(ih) => if ih.info_header_size != 40 && ih.info_header_size != 56 {
                    Err(BitmapError::UnsupportedInfoHeaderSize(ih.info_header_size))
                } else if ih.compression_type != 0 && ih.compression_type != 3 {
                    Err(
                        BitmapError::UnsupportedCompressionType(
                            crate::header::spec_compression_from_code(ih.compression_type),
                        ),
                    )
                } else if ih.n_planes != 1 {
                    Err(BitmapError::UnsupportedNumberOfPlanes(ih.n_planes))
                } else if ih.image_width < 0 {
                    Err(BitmapError::InvalidBitmap)
                } else if spec_indexed(ih.bits_per_pixel) && !(14 + ih.info_header_size as int
                    <= fh.pixel_array_offset as int && fh.pixel_array_offset as int <= data.len()) {
                    Err(BitmapError::TruncatedData)
                } else if fh.pixel_array_offset + spec_from_data_image_size(ih) > data.len() {
                    Err(BitmapError::TruncatedData)
                } else {
                    match spec_from_data_pixels(data) {
                        Ok(_) => Ok(()),
                        Err(e) => Err(e),
                    }
                },
            }
        }
    }
}

impl Bitmap {
    /// Decodes a whole BMP buffer: validates the container, reads the
    /// palette for indexed bit depths, and decodes the pixel array, exactly
    /// as `spec_from_data_outcome` says.  On success the grid holds exactly
    /// width times height pixels.
    pub fn from_data(data: Vec<u8>) -> (r: Result<Bitmap, BitmapError>)
        ensures
            match r {
                Ok(b) => spec_from_data_outcome(data@) is Ok && b.grid_wf() && b.file_header
                    == crate::header::spec_parse_file_header(data@) && b.info_header
                    == crate::header::spec_parse_info_header(data@.skip(14)) && b.palette_view()
                    == spec_from_data_palette(data@) && Ok::<Seq<BitmapPixel>, BitmapError>(
                    b.image_data@,
                ) == spec_from_data_pixels(data@),
                Err(e) => spec_from_data_outcome(data@) == Err::<(), BitmapError>(e),
            },
    {
        let data_slice = data.as_slice();
        let data_len: usize = data_slice.len();
        let f_header = match BitmapFileHeader::from_data(data_slice) {
            Ok(h) => h,
            Err(e) => {
                return Err(e);
            },
        };
        if !f_header.validate() {
            return Err(BitmapError::InvalidBitmap);
        }
        let tail = vstd::slice::slice_subrange(data_slice, 14, data_len);
        proof {
            assert(tail@ =~= data@.skip(14));
        }
        let info_header = match BitmapInfoHeader::from_data(tail) {
            Ok(h) => h,
            Err(e) => {
                return Err(e);
            },
        };
        let i_header_size = info_header.info_header_size;
        if i_header_size != 40 && i_header_size != 56 {
            return Err(BitmapError::UnsupportedInfoHeaderSize(i_header_size));
        }
        if info_header.compression_type != 0 && info_header.compression_type != 3 {
            return Err(
                BitmapError::UnsupportedCompressionType(
                    CompressionType::from_u32(info_header.compression_type),
                ),
            );
        }
        if info_header.n_planes != 1 {
            return Err(BitmapError::UnsupportedNumberOfPlanes(info_header.n_planes));
        }
        if info_header.image_width < 0 {
            return Err(BitmapError::InvalidBitmap);
        }
        proof {
            assert(info_header.image_height >= 0);
        }
        let image_size_in_bytes: u128 = if info_header.compression_type == 0 {
            proof {
                assert((info_header.image_width as int) * (info_header.bits_per_pixel as int)
                    < 0x8000_0000_0000) by (nonlinear_arith)
                    requires
                        0 <= info_header.image_width < 0x8000_0000,
                        0 <= info_header.bits_per_pixel < 0x1_0000,
                ;
            }
            let bits: u64 = (info_header.image_width as u64) * (info_header.bits_per_pixel as u64);
            let bits_pad: u64 = crate::util::pad_to_align(bits, 8);
            let bytes: u64 = (bits + bits_pad) / 8;
            let bytes_pad: u64 = crate::util::pad_to_align(bytes, 4);
            let row: u64 = bytes + bytes_pad;
            proof {
                assert(row == crate::util::spec_row_bytes(
                    info_header.image_width as int,
                    info_header.bits_per_pixel as int,
                ));
                assert((row as int) * (info_header.image_height as int) < 0x1_0000_0000_0000_0000_0000) by (nonlinear_arith)
                    requires
                        0 <= row < 0x1_0000_0000_0000,
                        0 <= info_header.image_height < 0x8000_0000,
                ;
                assert(0 <= (row as int) * (info_header.image_height as int)) by (nonlinear_arith)
                    requires
                        0 <= row,
                        0 <= info_header.image_height,
                ;
            }
            (row as u128) * (info_header.image_height as u128)
        } else {
            info_header.image_size as u128
        };
        let mut image_palette: Option<BitmapPalette> = None;
        let indexed = info_header.bits_per_pixel == 1 || info_header.bits_per_pixel == 4
            || info_header.bits_per_pixel == 8;
        if indexed {
            let palette_offset: u64 = 14 + i_header_size as u64;
            if !(palette_offset <= f_header.pixel_array_offset as u64
                && f_header.pixel_array_offset as u64 <= data_len as u64) {
                return Err(BitmapError::TruncatedData);
            }
            let palette_data = vstd::slice::slice_subrange(
                data_slice,
                palette_offset as usize,
                f_header.pixel_array_offset as usize,
            );
            image_palette = Some(read_palette(palette_data));
        }
        if (f_header.pixel_array_offset as u128) + image_size_in_bytes > data_len as u128 {
            return Err(BitmapError::TruncatedData);
        }
        let image_data_slice = vstd::slice::slice_subrange(
            data_slice,
            f_header.pixel_array_offset as usize,
            f_header.pixel_array_offset as usize + image_size_in_bytes as usize,
        );
        proof {
            assert(spec_palette_view(image_palette) == spec_from_data_palette(data@));
            assert(image_data_slice@ == data@.subrange(
                f_header.pixel_array_offset as int,
                f_header.pixel_array_offset + spec_from_data_image_size(info_header),
            ));
        }
        let image_data = match interpret_image_data(image_data_slice, &info_header, &image_palette) {
            Ok(v) => v,
            Err(e) => {
                return Err(e);
            },
        };
        Ok(
            Bitmap {
                file_header: f_header,
                info_header: info_header,
                palette: image_palette,
                image_data: image_data,
            },
        )
    }
}

/// The grid with its rows in reverse vertical order: position `i` takes
/// the pixel of the same column in the mirrored row.
pub open spec fn spec_vmirror(s: Seq<BitmapPixel>, width: int, height: int) -> Seq<BitmapPixel> {
    Seq::new(s.len(), |i: int| s[(height - 1 - i / width) * width + i % width])
}

/// The grid with every row reversed: position `i` takes the pixel of the
/// mirrored column in the same row.
pub open spec fn spec_hmirror(s: Seq<BitmapPixel>, width: int) -> Seq<BitmapPixel> {
    Seq::new(s.len(), |i: int| s[(i / width) * width + (width - 1 - i % width)])
}

impl Bitmap {
    /// Swaps row `i` with row `height - 1 - i`, turning a bottom-up grid
    /// into a top-down one and back.
    pub fn mirror_vertically(&mut self)
        requires
            old(self).grid_wf(),
        ensures
            final(self).file_header == old(self).file_header,
            final(self).info_header == old(self).info_header,
            final(self).palette == old(self).palette,
            final(self).grid_wf(),
            final(self).image_data@ == spec_vmirror(
                old(self).image_data@,
                old(self).info_header.image_width as int,
                old(self).info_header.image_height as int,
            ),
    {
        let stride: usize = self.info_header.image_width as usize;
        let height: usize = self.info_header.image_height as usize;
        let ghost w = stride as int;
        let ghost h = height as int;
        let ghost original = self.image_data@;
        let ghost target = spec_vmirror(original, w, h);
        if stride == 0 {
            proof {
                assert(self.image_data@ =~= target);
            }
            return ;
        }
        // bind the length so the prover knows it fits a usize
        let _grid_len: usize = self.image_data.len();
        proof {
            assert forall|j: int| 0 <= j < original.len() implies 0 <= #[trigger] (j / w) < h by {
                vstd::arithmetic::div_mod::lemma_fundamental_div_mod(j, w);
                vstd::arithmetic::div_mod::lemma_mod_bound(j, w);
                let qj = j / w;
                let rj = j % w;
                assert(0 <= qj < h) by (nonlinear_arith)
                    requires
                        j == w * qj + rj,
                        0 <= rj < w,
                        0 <= j,
                        j < w * h,
                        0 < w,
                ;
            };
        }
        let mut row_index: usize = 0;
        while row_index < height / 2
            invariant
                row_index <= height / 2,
                2 * (height / 2) <= height < 0x8000_0000,
                original.len() <= usize::MAX,
                forall|j: int| 0 <= j < original.len() ==> 0 <= #[trigger] (j / w) < h,
                0 < stride < 0x8000_0000,
                w == stride as int,
                h == height as int,
                self.file_header == old(self).file_header,
                self.info_header == old(self).info_header,
                self.palette == old(self).palette,
                original == old(self).image_data@,
                original.len() == w * h,
                self.image_data@.len() == original.len(),
                target == spec_vmirror(original, w, h),
                forall|j: int|
                    0 <= j < original.len() && (j / w < row_index || h - row_index <= j / w)
                        ==> self.image_data@[j] == target[j],
                forall|j: int|
                    0 <= j < original.len() && row_index <= j / w < h - row_index
                        ==> self.image_data@[j] == original[j],
            decreases height / 2 - row_index,
        {
            proof {
                vstd::arithmetic::div_mod::lemma_fundamental_div_mod(h, 2);
                vstd::arithmetic::div_mod::lemma_mod_bound(h, 2);
                assert(row_index as int + 1 <= h - 1 - row_index);
                assert((row_index as int + 1) * w <= (h - 1 - row_index) * w) by (nonlinear_arith)
                    requires
                        row_index as int + 1 <= h - 1 - row_index,
                        w >= 0,
                ;
                assert((row_index as int + 1) * w == row_index as int * w + w) by (nonlinear_arith);
                assert((h - 1 - row_index) * w + w == (h - row_index) * w) by (nonlinear_arith);
                assert((h - row_index) * w <= h * w) by (nonlinear_arith)
                    requires
                        row_index >= 0,
                        w >= 0,
                        h - row_index <= h,
                ;
                assert(h * w == w * h) by (nonlinear_arith);
                assert(0 <= row_index as int * w) by (nonlinear_arith)
                    requires
                        row_index as int >= 0,
                        w >= 0,
                ;
                assert(0 <= (h - 1 - row_index) * w) by (nonlinear_arith)
                    requires
                        h - 1 - row_index >= 0,
                        w >= 0,
                ;
            }
            let mirrored_row_index: usize = height - row_index - 1;
            let top_data_index: usize = row_index * stride;
            let bottom_data_index: usize = mirrored_row_index * stride;
            let ghost before = self.image_data@;
            swap_slice_regions(&mut self.image_data, top_data_index, bottom_data_index, stride);
            proof {
                let r = row_index as int;
                assert forall|j: int|
                    0 <= j < original.len() && (j / w < r + 1 || h - r - 1 <= j / w) implies
                    self.image_data@[j] == target[j] by {
                    vstd::arithmetic::div_mod::lemma_fundamental_div_mod(j, w);
                    vstd::arithmetic::div_mod::lemma_mod_bound(j, w);
                    let row_of_j = j / w;
                    let col_of_j = j % w;
                    assert(j == w * row_of_j + col_of_j);
                    if r * w <= j < r * w + stride {
                        // this row was just swapped with its mirror
                        vstd::arithmetic::div_mod::lemma_fundamental_div_mod_converse(
                            j,
                            w,
                            r,
                            j - r * w,
                        );
                        let j2 = (h - 1 - r) * w + (j - r * w);
                        assert(self.image_data@[j] == before[j2]);
                        vstd::arithmetic::div_mod::lemma_fundamental_div_mod_converse(
                            j2,
                            w,
                            h - 1 - r,
                            j - r * w,
                        );
                        assert(before[j2] == original[j2]);
                        assert(target[j] == original[(h - 1 - j / w) * w + j % w]);
                    } else if (h - 1 - r) * w <= j < (h - 1 - r) * w + stride {
                        vstd::arithmetic::div_mod::lemma_fundamental_div_mod_converse(
                            j,
                            w,
                            h - 1 - r,
                            j - (h - 1 - r) * w,
                        );
                        let j2 = r * w + (j - (h - 1 - r) * w);
                        assert(self.image_data@[j] == before[j2]);
                        vstd::arithmetic::div_mod::lemma_fundamental_div_mod_converse(
                            j2,
                            w,
                            r,
                            j - (h - 1 - r) * w,
                        );
                        assert(before[j2] == original[j2]);
                    } else {
                        assert(self.image_data@[j] == before[j]);
                        if row_of_j < r || h - r <= row_of_j {
                            assert(before[j] == target[j]);
                        } else {
                            // rows between the swapped pair are untouched
                            assert(r * w == w * r && (h - 1 - r) * w == w * (h - 1 - r)) by (nonlinear_arith);
                            assert(row_of_j != r && row_of_j != h - 1 - r);
                            assert(before[j] == original[j]);
                            assert(j / w < r + 1 || h - r - 1 <= j / w);
                            assert(row_of_j == h - 1 - r ==> false);
                            assert(false);
                        }
                    }
                };
                assert forall|j: int|
                    0 <= j < original.len() && r + 1 <= j / w < h - r - 1 implies
                    self.image_data@[j] == original[j] by {
                    vstd::arithmetic::div_mod::lemma_fundamental_div_mod(j, w);
                    vstd::arithmetic::div_mod::lemma_mod_bound(j, w);
                    assert(!(r * w <= j < r * w + stride)) by {
                        if r * w <= j < r * w + stride {
                            vstd::arithmetic::div_mod::lemma_fundamental_div_mod_converse(
                                j,
                                w,
                                r,
                                j - r * w,
                            );
                        }
                    };
                    assert(!((h - 1 - r) * w <= j < (h - 1 - r) * w + stride)) by {
                        if (h - 1 - r) * w <= j < (h - 1 - r) * w + stride {
                            vstd::arithmetic::div_mod::lemma_fundamental_div_mod_converse(
                                j,
                                w,
                                h - 1 - r,
                                j - (h - 1 - r) * w,
                            );
                        }
                    };
                    assert(self.image_data@[j] == before[j]);
                };
            }
            row_index = row_index + 1;
        }
        proof {
            vstd::arithmetic::div_mod::lemma_fundamental_div_mod(h, 2);
            vstd::arithmetic::div_mod::lemma_mod_bound(h, 2);
            assert forall|j: int| 0 <= j < original.len() implies self.image_data@[j] == target[j]
                by {
                vstd::arithmetic::div_mod::lemma_fundamental_div_mod(j, w);
                vstd::arithmetic::div_mod::lemma_mod_bound(j, w);
                let row_of_j = j / w;
                if height / 2 <= row_of_j < h - height / 2 {
                    // the middle row of an odd height mirrors onto itself
                    assert(j == w * row_of_j + j % w);
                    assert(row_of_j == h - 1 - row_of_j);
                    assert(target[j] == original[(h - 1 - row_of_j) * w + j % w]);
                    assert((h - 1 - row_of_j) * w == w * row_of_j) by (nonlinear_arith)
                        requires
                            h - 1 - row_of_j == row_of_j,
                    ;
                }
            };
            assert(self.image_data@ =~= target);
        }
    }

    /// Reverses every row in place.
    pub fn mirror_horizontally(&mut self)
        requires
            old(self).grid_wf(),
        ensures
            final(self).file_header == old(self).file_header,
            final(self).info_header == old(self).info_header,
            final(self).palette == old(self).palette,
            final(self).grid_wf(),
            final(self).image_data@ == spec_hmirror(
                old(self).image_data@,
                old(self).info_header.image_width as int,
            ),
    {
        let stride: usize = self.info_header.image_width as usize;
        let height: usize = self.info_header.image_height as usize;
        let ghost w = stride as int;
        let ghost h = height as int;
        let ghost original = self.image_data@;
        let ghost target = spec_hmirror(original, w);
        if stride == 0 {
            proof {
                assert(self.image_data@ =~= target);
            }
            return ;
        }
        // bind the length so the prover knows it fits a usize
        let _grid_len: usize = self.image_data.len();
        proof {
            assert forall|j: int| 0 <= j < original.len() implies 0 <= #[trigger] (j / w) < h by {
                vstd::arithmetic::div_mod::lemma_fundamental_div_mod(j, w);
                vstd::arithmetic::div_mod::lemma_mod_bound(j, w);
                let qj = j / w;
                let rj = j % w;
                assert(0 <= qj < h) by (nonlinear_arith)
                    requires
                        j == w * qj + rj,
                        0 <= rj < w,
                        0 <= j,
                        j < w * h,
                        0 < w,
                ;
            };
        }
        let mut row_index: usize = 0;
        while row_index < height
            invariant
                row_index <= height,
                original.len() <= usize::MAX,
                forall|j: int| 0 <= j < original.len() ==> 0 <= #[trigger] (j / w) < h,
                0 < stride < 0x8000_0000,
                w == stride as int,
                h == height as int,
                self.file_header == old(self).file_header,
                self.info_header == old(self).info_header,
                self.palette == old(self).palette,
                original == old(self).image_data@,
                original.len() == w * h,
                self.image_data@.len() == original.len(),
                target == spec_hmirror(original, w),
                forall|j: int|
                    0 <= j < original.len() && j / w < row_index ==> self.image_data@[j]
                        == target[j],
                forall|j: int|
                    0 <= j < original.len() && row_index <= j / w ==> self.image_data@[j]
                        == original[j],
            decreases height - row_index,
        {
            proof {
                let r = row_index as int;
                assert((r + 1) * w == r * w + w) by (nonlinear_arith);
                assert((r + 1) * w <= h * w) by (nonlinear_arith)
                    requires
                        r + 1 <= h,
                        w >= 0,
                ;
                assert(h * w == w * h) by (nonlinear_arith);
                assert(0 <= row_index as int * w) by (nonlinear_arith)
                    requires
                        row_index as int >= 0,
                        w >= 0,
                ;
            }
            let data_index: usize = row_index * stride;
            let ghost before = self.image_data@;
            mirror_slice(&mut self.image_data, data_index, stride);
            proof {
                let r = row_index as int;
                assert forall|j: int|
                    0 <= j < original.len() && j / w < r + 1 implies self.image_data@[j]
                    == target[j] by {
                    vstd::arithmetic::div_mod::lemma_fundamental_div_mod(j, w);
                    vstd::arithmetic::div_mod::lemma_mod_bound(j, w);
                    if r * w <= j < r * w + stride {
                        vstd::arithmetic::div_mod::lemma_fundamental_div_mod_converse(
                            j,
                            w,
                            r,
                            j - r * w,
                        );
                        let j2 = r * w + (w - 1 - (j - r * w));
                        assert(self.image_data@[j] == before[j2]);
                        vstd::arithmetic::div_mod::lemma_fundamental_div_mod_converse(
                            j2,
                            w,
                            r,
                            w - 1 - (j - r * w),
                        );
                        assert(before[j2] == original[j2]);
                        assert(target[j] == original[(j / w) * w + (w - 1 - j % w)]);
                    } else {
                        assert(self.image_data@[j] == before[j]);
                        assert(j / w < r) by {
                            if j / w == r {
                                assert(j == w * r + j % w);
                                assert(r * w == w * r) by (nonlinear_arith);
                            }
                        };
                    }
                };
                assert forall|j: int|
                    0 <= j < original.len() && r + 1 <= j / w implies self.image_data@[j]
                    == original[j] by {
                    vstd::arithmetic::div_mod::lemma_fundamental_div_mod(j, w);
                    vstd::arithmetic::div_mod::lemma_mod_bound(j, w);
                    assert(!(r * w <= j < r * w + stride)) by {
                        if r * w <= j < r * w + stride {
                            vstd::arithmetic::div_mod::lemma_fundamental_div_mod_converse(
                                j,
                                w,
                                r,
                                j - r * w,
                            );
                        }
                    };
                    assert(self.image_data@[j] == before[j]);
                };
            }
            row_index = row_index + 1;
        }
        proof {
            assert(self.image_data@ =~= target);
        }
    }
}

/// The sub-grid of `s` (stride `src_width`) whose top-left corner is
/// `(x0, y0)`, of `width` by `height` pixels, row-major.
pub open spec fn spec_crop_rect(
    s: Seq<BitmapPixel>,
    src_width: int,
    x0: int,
    y0: int,
    width: int,
    height: int,
) -> Seq<BitmapPixel> {
    Seq::new((width * height) as nat, |i: int| s[(y0 + i / width) * src_width + x0 + i % width])
}

/// The pixel at flat position `i` of a grid of stride `dest_width` whose
/// rectangle at `(dest_x0, dest_y0)` has been replaced by the rectangle of
/// `src` (stride `src_width`) at `(src_x0, src_y0)`.
pub open spec fn spec_replace_at(
    dest: Seq<BitmapPixel>,
    dest_width: int,
    src: Seq<BitmapPixel>,
    src_width: int,
    src_x0: int,
    src_y0: int,
    dest_x0: int,
    dest_y0: int,
    width: int,
    height: int,
    i: int,
) -> BitmapPixel {
    let col = i % dest_width;
    let row = i / dest_width;
    if dest_x0 <= col < dest_x0 + width && dest_y0 <= row < dest_y0 + height {
        src[(src_y0 + row - dest_y0) * src_width + src_x0 + (col - dest_x0)]
    } else {
        dest[i]
    }
}

/// The grid `dest` with one rectangle replaced by a rectangle of `src`.
pub open spec fn spec_replace_rect(
    dest: Seq<BitmapPixel>,
    dest_width: int,
    src: Seq<BitmapPixel>,
    src_width: int,
    src_x0: int,
    src_y0: int,
    dest_x0: int,
    dest_y0: int,
    width: int,
    height: int,
) -> Seq<BitmapPixel> {
    Seq::new(
        dest.len(),
        |i: int|
            spec_replace_at(
                dest,
                dest_width,
                src,
                src_width,
                src_x0,
                src_y0,
                dest_x0,
                dest_y0,
                width,
                height,
                i,
            ),
    )
}

impl Bitmap {
    /// Fills this bitmap's empty grid with the `width` by `height`
    /// rectangle of `other` whose top-left corner is `(x0, y0)`.
    pub fn copy_rect_from(&mut self, other: &Bitmap, x0: u32, y0: u32, width: u32, height: u32)
        requires
            old(self).image_data@.len() == 0,
            other.grid_wf(),
            x0 + width <= other.info_header.image_width,
            y0 + height <= other.info_header.image_height,
        ensures
            final(self).file_header == old(self).file_header,
            final(self).info_header == old(self).info_header,
            final(self).palette == old(self).palette,
            final(self).image_data@ == spec_crop_rect(
                other.image_data@,
                other.info_header.image_width as int,
                x0 as int,
                y0 as int,
                width as int,
                height as int,
            ),
    {
        let ghost src = other.image_data@;
        let ghost src_w = other.info_header.image_width as int;
        let ghost w = width as int;
        let ghost h = height as int;
        let ghost target = spec_crop_rect(src, src_w, x0 as int, y0 as int, w, h);
        let stride: usize = other.info_header.image_width as usize;
        // bind the lengths so the prover knows they fit a usize
        let _src_len: usize = other.image_data.len();
        proof {
            assert(src_w * (other.info_header.image_height as int) >= 0);
        }
        let mut r: u32 = 0;
        while r < height
            invariant
                r <= height,
                src == other.image_data@,
                src_w == other.info_header.image_width as int,
                stride == src_w,
                src.len() == src_w * (other.info_header.image_height as int),
                src.len() <= usize::MAX,
                x0 + width <= other.info_header.image_width,
                y0 + height <= other.info_header.image_height,
                w == width as int,
                h == height as int,
                target == spec_crop_rect(src, src_w, x0 as int, y0 as int, w, h),
                self.file_header == old(self).file_header,
                self.info_header == old(self).info_header,
                self.palette == old(self).palette,
                self.image_data@.len() == r as int * w,
                forall|idx: int| 0 <= idx < self.image_data@.len() ==> self.image_data@[idx] == target[idx],
            decreases height - r,
        {
            proof {
                assert((r as int + 1) * w == r as int * w + w) by (nonlinear_arith);
                assert((r as int + 1) * w <= h * w) by (nonlinear_arith)
                    requires
                        r as int + 1 <= h,
                        w >= 0,
                ;
                assert(h * w == w * h) by (nonlinear_arith);
                assert((y0 as int + r + 1) * src_w <= (other.info_header.image_height as int)
                    * src_w) by (nonlinear_arith)
                    requires
                        y0 as int + r + 1 <= other.info_header.image_height as int,
                        src_w >= 0,
                ;
                assert((other.info_header.image_height as int) * src_w == src_w * (
                other.info_header.image_height as int)) by (nonlinear_arith);
                assert((y0 as int + r + 1) * src_w == (y0 as int + r) * src_w + src_w) by (
                nonlinear_arith);
                assert(0 <= (y0 as int + r) * src_w) by (nonlinear_arith)
                    requires
                        y0 as int + r >= 0,
                        src_w >= 0,
                ;
            }
            let row_base: usize = ((y0 + r) as usize) * stride;
            let mut c: u32 = 0;
            while c < width
                invariant
                    c <= width,
                    r < height,
                    src == other.image_data@,
                    src_w == other.info_header.image_width as int,
                    stride == src_w,
                    src.len() == src_w * (other.info_header.image_height as int),
                    src.len() <= usize::MAX,
                    x0 + width <= other.info_header.image_width,
                    y0 + height <= other.info_header.image_height,
                    w == width as int,
                    h == height as int,
                    row_base == (y0 as int + r) * src_w,
                    row_base + src_w <= src.len(),
                    target == spec_crop_rect(src, src_w, x0 as int, y0 as int, w, h),
                    self.file_header == old(self).file_header,
                    self.info_header == old(self).info_header,
                    self.palette == old(self).palette,
                    self.image_data@.len() == r as int * w + c,
                    r as int * w + w <= w * h,
                    forall|idx: int| 0 <= idx < self.image_data@.len() ==> self.image_data@[idx] == target[idx],
                decreases width - c,
            {
                let data = other.image_data[row_base + ((x0 + c) as usize)];
                self.image_data.push(data);
                proof {
                    let idx = r as int * w + c;
                    vstd::arithmetic::div_mod::lemma_fundamental_div_mod_converse(
                        idx,
                        w,
                        r as int,
                        c as int,
                    );
                    assert(target[idx] == src[(y0 as int + idx / w) * src_w + x0 + idx % w]);
                }
                c = c + 1;
            }
            r = r + 1;
        }
        proof {
            assert(h * w == w * h) by (nonlinear_arith);
            assert(self.image_data@ =~= target);
        }
    }

    /// Copies the `width` by `height` rectangle of this bitmap whose
    /// top-left corner is `(x0, y0)` into a fresh default-format bitmap;
    /// rejects a rectangle that leaves the source bounds.
    pub fn crop_to_rect(&self, x0: u32, y0: u32, width: u32, height: u32) -> (r: Result<
        Bitmap,
        BitmapError,
    >)
        requires
            self.grid_wf(),
            width * 32 + 7 <= u32::MAX,
            spec_image_data_size(width as int, height as int, 32) + 70 <= u32::MAX,
        ensures
            r is Err <==> (x0 >= self.info_header.image_width || y0
                >= self.info_header.image_height || x0 + width > self.info_header.image_width || y0
                + height > self.info_header.image_height),
            r is Err ==> r == Err::<Bitmap, BitmapError>(BitmapError::InvalidOperation),
            r is Ok ==> {
                let b = r.unwrap();
                &&& b.grid_wf()
                &&& b.info_header.image_width == width
                &&& b.info_header.image_height == height
                &&& b.palette is None
                &&& (b.file_header, b.info_header) == Bitmap::create_headers_spec(
                    width as i32,
                    height as i32,
                    32,
                    CompressionType::BitFields,
                )
                &&& b.image_data@ == spec_crop_rect(
                    self.image_data@,
                    self.info_header.image_width as int,
                    x0 as int,
                    y0 as int,
                    width as int,
                    height as int,
                )
            },
    {
        let src_w: u32 = self.info_header.image_width as u32;
        let src_h: u32 = self.info_header.image_height as u32;
        if x0 >= src_w || y0 >= src_h {
            return Err(BitmapError::InvalidOperation);
        }
        if (x0 as u64) + (width as u64) > (src_w as u64) || (y0 as u64) + (height as u64) > (
        src_h as u64) {
            return Err(BitmapError::InvalidOperation);
        }
        let mut result = Bitmap::lazy_new_default(width as i32, height as i32);
        result.copy_rect_from(self, x0, y0, width, height);
        Ok(result)
    }

    /// Overwrites the `width` by `height` rectangle of this bitmap at
    /// `(dest_x0, dest_y0)` with the equally sized rectangle of `other` at
    /// `(src_x0, src_y0)`.
    pub fn replace_rect_with_rect_from(
        &mut self,
        other: &Bitmap,
        src_x0: u32,
        src_y0: u32,
        dest_x0: u32,
        dest_y0: u32,
        width: u32,
        height: u32,
    )
        requires
            old(self).grid_wf(),
            other.grid_wf(),
            src_x0 + width <= other.info_header.image_width,
            src_y0 + height <= other.info_header.image_height,
            dest_x0 + width <= old(self).info_header.image_width,
            dest_y0 + height <= old(self).info_header.image_height,
        ensures
            final(self).file_header == old(self).file_header,
            final(self).info_header == old(self).info_header,
            final(self).palette == old(self).palette,
            final(self).grid_wf(),
            final(self).image_data@ == spec_replace_rect(
                old(self).image_data@,
                old(self).info_header.image_width as int,
                other.image_data@,
                other.info_header.image_width as int,
                src_x0 as int,
                src_y0 as int,
                dest_x0 as int,
                dest_y0 as int,
                width as int,
                height as int,
            ),
    {
        let ghost dest0 = old(self).image_data@;
        let ghost dw = old(self).info_header.image_width as int;
        let ghost dh = old(self).info_header.image_height as int;
        let ghost src = other.image_data@;
        let ghost sw = other.info_header.image_width as int;
        let ghost target = spec_replace_rect(
            dest0,
            dw,
            src,
            sw,
            src_x0 as int,
            src_y0 as int,
            dest_x0 as int,
            dest_y0 as int,
            width as int,
            height as int,
        );
        let src_stride: usize = other.info_header.image_width as usize;
        let dest_stride: usize = self.info_header.image_width as usize;
        let _dest_len: usize = self.image_data.len();
        // bind the lengths so the prover knows they fit a usize
        let _src_len: usize = other.image_data.len();
        let mut r: u32 = 0;
        while r < height
            invariant
                r <= height,
                dest0 == old(self).image_data@,
                dw == old(self).info_header.image_width as int,
                dh == old(self).info_header.image_height as int,
                src == other.image_data@,
                sw == other.info_header.image_width as int,
                dest_stride == dw,
                src_stride == sw,
                dest0.len() == dw * dh,
                dest0.len() <= usize::MAX,
                src.len() == sw * (other.info_header.image_height as int),
                src.len() <= usize::MAX,
                src_x0 + width <= other.info_header.image_width,
                src_y0 + height <= other.info_header.image_height,
                dest_x0 + width <= old(self).info_header.image_width,
                dest_y0 + height <= old(self).info_header.image_height,
                target == spec_replace_rect(
                    dest0,
                    dw,
                    src,
                    sw,
                    src_x0 as int,
                    src_y0 as int,
                    dest_x0 as int,
                    dest_y0 as int,
                    width as int,
                    height as int,
                ),
                self.file_header == old(self).file_header,
                self.info_header == old(self).info_header,
                self.palette == old(self).palette,
                self.image_data@.len() == dest0.len(),
                forall|j: int|
                    0 <= j < dest0.len() && dest_y0 <= j / dw < dest_y0 + r && dest_x0 <= j % dw
                        < dest_x0 + width ==> self.image_data@[j] == target[j],
                forall|j: int|
                    0 <= j < dest0.len() && !(dest_y0 <= j / dw < dest_y0 + r && dest_x0 <= j % dw
                        < dest_x0 + width) ==> self.image_data@[j] == dest0[j],
            decreases height - r,
        {
            proof {
                assert((dest_y0 as int + r + 1) * dw <= dh * dw) by (nonlinear_arith)
                    requires
                        dest_y0 as int + r + 1 <= dh,
                        dw >= 0,
                ;
                assert(dh * dw == dw * dh) by (nonlinear_arith);
                assert((dest_y0 as int + r + 1) * dw == (dest_y0 as int + r) * dw + dw) by (
                nonlinear_arith);
                assert(0 <= (dest_y0 as int + r) * dw) by (nonlinear_arith)
                    requires
                        dest_y0 as int + r >= 0,
                        dw >= 0,
                ;
                assert((src_y0 as int + r + 1) * sw <= (other.info_header.image_height as int) * sw)
                    by (nonlinear_arith)
                    requires
                        src_y0 as int + r + 1 <= other.info_header.image_height as int,
                        sw >= 0,
                ;
                assert((other.info_header.image_height as int) * sw == sw * (
                other.info_header.image_height as int)) by (nonlinear_arith);
                assert((src_y0 as int + r + 1) * sw == (src_y0 as int + r) * sw + sw) by (
                nonlinear_arith);
                assert(0 <= (src_y0 as int + r) * sw) by (nonlinear_arith)
                    requires
                        src_y0 as int + r >= 0,
                        sw >= 0,
                ;
            }
            let dest_row_base: usize = ((dest_y0 + r) as usize) * dest_stride;
            let src_row_base: usize = ((src_y0 + r) as usize) * src_stride;
            let mut c: u32 = 0;
            while c < width
                invariant
                    c <= width,
                    r < height,
                    dest0.len() == dw * dh,
                    dest0.len() <= usize::MAX,
                    src.len() == sw * (other.info_header.image_height as int),
                    src.len() <= usize::MAX,
                    src == other.image_data@,
                    dw == old(self).info_header.image_width as int,
                    sw == other.info_header.image_width as int,
                    dest_stride == dw,
                    src_stride == sw,
                    src_x0 + width <= other.info_header.image_width,
                    src_y0 + height <= other.info_header.image_height,
                    dest_x0 + width <= old(self).info_header.image_width,
                    dest_y0 + height <= old(self).info_header.image_height,
                    dest_row_base == (dest_y0 as int + r) * dw,
                    dest_row_base + dw <= dest0.len(),
                    src_row_base == (src_y0 as int + r) * sw,
                    src_row_base + sw <= src.len(),
                    target == spec_replace_rect(
                        dest0,
                        dw,
                        src,
                        sw,
                        src_x0 as int,
                        src_y0 as int,
                        dest_x0 as int,
                        dest_y0 as int,
                        width as int,
                        height as int,
                    ),
                    dest0 == old(self).image_data@,
                    self.file_header == old(self).file_header,
                    self.info_header == old(self).info_header,
                    self.palette == old(self).palette,
                    self.image_data@.len() == dest0.len(),
                    forall|j: int|
                        0 <= j < dest0.len() && dest_y0 <= j / dw < dest_y0 + r && dest_x0 <= j % dw
                            < dest_x0 + width ==> self.image_data@[j] == target[j],
                    forall|j: int|
                        0 <= j < dest0.len() && j / dw == dest_y0 + r && dest_x0 <= j % dw
                            < dest_x0 + c ==> self.image_data@[j] == target[j],
                    forall|j: int|
                        0 <= j < dest0.len() && !(dest_y0 <= j / dw < dest_y0 + r && dest_x0 <= j
                            % dw < dest_x0 + width) && !(j / dw == dest_y0 + r && dest_x0 <= j % dw
                            < dest_x0 + c) ==> self.image_data@[j] == dest0[j],
                decreases width - c,
            {
                let data = other.image_data[src_row_base + ((src_x0 + c) as usize)];
                let dest_index: usize = dest_row_base + ((dest_x0 + c) as usize);
                self.image_data[dest_index] = data;
                proof {
                    let di = dest_index as int;
                    vstd::arithmetic::div_mod::lemma_fundamental_div_mod_converse(
                        di,
                        dw,
                        dest_y0 as int + r,
                        dest_x0 as int + c,
                    );
                    assert(target[di] == src[(src_y0 as int + di / dw - dest_y0) * sw + src_x0 + (di
                        % dw - dest_x0)]);
                    assert forall|j: int|
                        0 <= j < dest0.len() && j / dw == dest_y0 + r && dest_x0 <= j % dw < dest_x0
                            + c + 1 implies self.image_data@[j] == target[j] by {
                        vstd::arithmetic::div_mod::lemma_fundamental_div_mod(j, dw);
                        assert(dw * (dest_y0 as int + r) == (dest_y0 as int + r) * dw) by (
                        nonlinear_arith);
                        if j % dw == dest_x0 + c {
                            assert(j == di);
                        }
                    };
                }
                c = c + 1;
            }
            r = r + 1;
        }
        proof {
            assert(self.image_data@ =~= target);
        }
    }

    /// Places two bitmaps side by side on a fresh default-format canvas as
    /// wide as both together and as tall as the taller one; cells neither
    /// image covers keep the transparent fill.
    pub fn merge_horizontally(image0: &Bitmap, image1: &Bitmap) -> (b: Bitmap)
        requires
            image0.grid_wf(),
            image1.grid_wf(),
            image0.info_header.image_width + image1.info_header.image_width <= i32::MAX,
            (image0.info_header.image_width + image1.info_header.image_width) * 32 + 7 <= u32::MAX,
            spec_image_data_size(
                image0.info_header.image_width + image1.info_header.image_width as int,
                vstd::math::max(
                    image0.info_header.image_height as int,
                    image1.info_header.image_height as int,
                ),
                32,
            ) + 70 <= u32::MAX,
            (image0.info_header.image_width + image1.info_header.image_width as int)
                * vstd::math::max(
                image0.info_header.image_height as int,
                image1.info_header.image_height as int,
            ) <= usize::MAX,
        ensures
            b.grid_wf(),
            b.info_header.image_width == image0.info_header.image_width
                + image1.info_header.image_width,
            b.info_header.image_height == vstd::math::max(
                image0.info_header.image_height as int,
                image1.info_header.image_height as int,
            ),
            b.image_data@ == spec_replace_rect(
                spec_replace_rect(
                    Seq::new(
                        (b.info_header.image_width as int * b.info_header.image_height as int) as nat,
                        |i: int| (BitmapPixel { blue: 0xff, green: 0xff, red: 0xff, alpha: 0x00 }),
                    ),
                    b.info_header.image_width as int,
                    image0.image_data@,
                    image0.info_header.image_width as int,
                    0,
                    0,
                    0,
                    0,
                    image0.info_header.image_width as int,
                    image0.info_header.image_height as int,
                ),
                b.info_header.image_width as int,
                image1.image_data@,
                image1.info_header.image_width as int,
                0,
                0,
                image0.info_header.image_width as int,
                0,
                image1.info_header.image_width as int,
                image1.info_header.image_height as int,
            ),
    {
        let result_width: i32 = image0.info_header.image_width + image1.info_header.image_width;
        let h0: i32 = image0.info_header.image_height;
        let h1: i32 = image1.info_header.image_height;
        let result_height: i32 = if h0 > h1 {
            h0
        } else {
            h1
        };
        let mut result = Bitmap::new_default(result_width, result_height);
        result.replace_rect_with_rect_from(
            image0,
            0,
            0,
            0,
            0,
            image0.info_header.image_width as u32,
            image0.info_header.image_height as u32,
        );
        result.replace_rect_with_rect_from(
            image1,
            0,
            0,
            image0.info_header.image_width as u32,
            0,
            image1.info_header.image_width as u32,
            image1.info_header.image_height as u32,
        );
        result
    }

    /// Stacks two bitmaps on a fresh default-format canvas as tall as both
    /// together and as wide as the wider one; cells neither image covers
    /// keep the transparent fill.
    pub fn merge_vertically(image0: &Bitmap, image1: &Bitmap) -> (b: Bitmap)
        requires
            image0.grid_wf(),
            image1.grid_wf(),
            image0.info_header.image_height + image1.info_header.image_height <= i32::MAX,
            vstd::math::max(
                image0.info_header.image_width as int,
                image1.info_header.image_width as int,
            ) * 32 + 7 <= u32::MAX,
            spec_image_data_size(
                vstd::math::max(
                    image0.info_header.image_width as int,
                    image1.info_header.image_width as int,
                ),
                image0.info_header.image_height + image1.info_header.image_height as int,
                32,
            ) + 70 <= u32::MAX,
            vstd::math::max(
                image0.info_header.image_width as int,
                image1.info_header.image_width as int,
            ) * (image0.info_header.image_height + image1.info_header.image_height as int)
                <= usize::MAX,
        ensures
            b.grid_wf(),
            b.info_header.image_width == vstd::math::max(
                image0.info_header.image_width as int,
                image1.info_header.image_width as int,
            ),
            b.info_header.image_height == image0.info_header.image_height
                + image1.info_header.image_height,
            b.image_data@ == spec_replace_rect(
                spec_replace_rect(
                    Seq::new(
                        (b.info_header.image_width as int * b.info_header.image_height as int) as nat,
                        |i: int| (BitmapPixel { blue: 0xff, green: 0xff, red: 0xff, alpha: 0x00 }),
                    ),
                    b.info_header.image_width as int,
                    image0.image_data@,
                    image0.info_header.image_width as int,
                    0,
                    0,
                    0,
                    0,
                    image0.info_header.image_width as int,
                    image0.info_header.image_height as int,
                ),
                b.info_header.image_width as int,
                image1.image_data@,
                image1.info_header.image_width as int,
                0,
                0,
                0,
                image0.info_header.image_height as int,
                image1.info_header.image_width as int,
                image1.info_header.image_height as int,
            ),
    {
        let result_height: i32 = image0.info_header.image_height + image1.info_header.image_height;
        let w0: i32 = image0.info_header.image_width;
        let w1: i32 = image1.info_header.image_width;
        let result_width: i32 = if w0 > w1 {
            w0
        } else {
            w1
        };
        let mut result = Bitmap::new_default(result_width, result_height);
        result.replace_rect_with_rect_from(
            image0,
            0,
            0,
            0,
            0,
            image0.info_header.image_width as u32,
            image0.info_header.image_height as u32,
        );
        result.replace_rect_with_rect_from(
            image1,
            0,
            0,
            0,
            image0.info_header.image_height as u32,
            image1.info_header.image_width as u32,
            image1.info_header.image_height as u32,
        );
        result
    }

    /// Switches the bitmap to another bit depth and compression: undoes
    /// top-down row order, then replaces both headers with fresh ones for
    /// the new format.  The pixel grid and palette are kept.
    pub fn convert_to(&mut self, bits_per_pixel: u16, compression: CompressionType)
        requires
            old(self).grid_wf(),
            old(self).info_header.image_width * bits_per_pixel + 7 <= u32::MAX,
            spec_image_data_size(
                old(self).info_header.image_width as int,
                old(self).info_header.image_height as int,
                bits_per_pixel as int,
            ) + 70 <= u32::MAX,
        ensures
            final(self).grid_wf(),
            final(self).palette == old(self).palette,
            final(self).image_data@ == if old(self).info_header.is_top_down {
                spec_vmirror(
                    old(self).image_data@,
                    old(self).info_header.image_width as int,
                    old(self).info_header.image_height as int,
                )
            } else {
                old(self).image_data@
            },
            (final(self).file_header, final(self).info_header) == Bitmap::create_headers_spec(
                old(self).info_header.image_width,
                old(self).info_header.image_height,
                bits_per_pixel,
                compression,
            ),
    {
        if self.info_header.is_top_down {
            self.mirror_vertically();
        }
        let (file_header, info_header) = Bitmap::create_headers(
            self.info_header.image_width,
            self.info_header.image_height,
            bits_per_pixel,
            compression,
        );
        self.file_header = file_header;
        self.info_header = info_header;
    }
}

/// The element at `j` after the regions `[r0, r0+count)` and
/// `[r1, r1+count)` are exchanged.
pub open spec fn spec_swapped_at<T>(s: Seq<T>, r0: int, r1: int, count: int, j: int) -> T {
    if r0 <= j < r0 + count {
        s[r1 + (j - r0)]
    } else if r1 <= j < r1 + count {
        s[r0 + (j - r1)]
    } else {
        s[j]
    }
}

/// Exchanges two equally long, non-overlapping regions of a vector.
pub fn swap_slice_regions<T: Copy>(slice: &mut Vec<T>, r0_start: usize, r1_start: usize, count: usize)
    requires
        r0_start + count <= r1_start || r1_start + count <= r0_start,
        r0_start + count <= old(slice)@.len(),
        r1_start + count <= old(slice)@.len(),
    ensures
        final(slice)@ == Seq::new(
            old(slice)@.len(),
            |j: int| spec_swapped_at(old(slice)@, r0_start as int, r1_start as int, count as int, j),
        ),
{
    let ghost target = Seq::new(
        old(slice)@.len(),
        |j: int| spec_swapped_at(old(slice)@, r0_start as int, r1_start as int, count as int, j),
    );
    // bind the length so the prover knows it fits a usize
    let _total_len: usize = slice.len();
    let mut k: usize = 0;
    while k < count
        invariant
            k <= count,
            old(slice)@.len() <= usize::MAX,
            r0_start + count <= r1_start || r1_start + count <= r0_start,
            r0_start + count <= old(slice)@.len(),
            r1_start + count <= old(slice)@.len(),
            slice@.len() == old(slice)@.len(),
            target == Seq::new(
                old(slice)@.len(),
                |j: int|
                    spec_swapped_at(
                        old(slice)@,
                        r0_start as int,
                        r1_start as int,
                        count as int,
                        j,
                    ),
            ),
            forall|j: int|
                r0_start <= j < r0_start + k || r1_start <= j < r1_start + k ==> slice@[j]
                    == target[j],
            forall|j: int|
                0 <= j < old(slice)@.len() && !(r0_start <= j < r0_start + k) && !(r1_start <= j
                    < r1_start + k) ==> slice@[j] == old(slice)@[j],
        decreases count - k,
    {
        let tmp: T = slice[r0_start + k];
        let other: T = slice[r1_start + k];
        slice[r0_start + k] = other;
        slice[r1_start + k] = tmp;
        k = k + 1;
    }
    proof {
        assert(slice@ =~= target);
    }
}

/// The element at `j` after the region `[start, start+count)` is reversed.
pub open spec fn spec_reversed_at<T>(s: Seq<T>, start: int, count: int, j: int) -> T {
    if start <= j < start + count {
        s[start + count - 1 - (j - start)]
    } else {
        s[j]
    }
}

/// Reverses a region of a vector in place.
pub fn mirror_slice<T: Copy>(slice: &mut Vec<T>, start: usize, count: usize)
    requires
        start + count <= old(slice)@.len(),
    ensures
        final(slice)@ == Seq::new(
            old(slice)@.len(),
            |j: int| spec_reversed_at(old(slice)@, start as int, count as int, j),
        ),
{
    let ghost target = Seq::new(
        old(slice)@.len(),
        |j: int| spec_reversed_at(old(slice)@, start as int, count as int, j),
    );
    // bind the length so the prover knows it fits a usize
    let _total_len: usize = slice.len();
    let mut index_left: usize = 0;
    while index_left < count / 2
        invariant
            index_left <= count / 2,
            2 * (count / 2) <= count,
            old(slice)@.len() <= usize::MAX,
            start + count <= old(slice)@.len(),
            slice@.len() == old(slice)@.len(),
            target == Seq::new(
                old(slice)@.len(),
                |j: int| spec_reversed_at(old(slice)@, start as int, count as int, j),
            ),
            forall|j: int|
                start <= j < start + index_left || start + count - index_left <= j < start + count
                    ==> slice@[j] == target[j],
            forall|j: int|
                0 <= j < old(slice)@.len() && !(start <= j < start + index_left) && !(start + count
                    - index_left <= j < start + count) ==> slice@[j] == old(slice)@[j],
        decreases count / 2 - index_left,
    {
        proof {
            vstd::arithmetic::div_mod::lemma_fundamental_div_mod(count as int, 2);
            vstd::arithmetic::div_mod::lemma_mod_bound(count as int, 2);
        }
        let index_right: usize = count - index_left - 1;
        let tmp: T = slice[start + index_left];
        let other: T = slice[start + index_right];
        slice[start + index_left] = other;
        slice[start + index_right] = tmp;
        index_left = index_left + 1;
    }
    proof {
        vstd::arithmetic::div_mod::lemma_fundamental_div_mod(count as int, 2);
        vstd::arithmetic::div_mod::lemma_mod_bound(count as int, 2);
        assert(slice@ =~= target);
    }
}

/// The palette encoded in `data`: one entry per 4-byte group (blue, green,
/// red, one unused byte), every entry fully opaque; a trailing group of
/// fewer than 4 bytes is ignored.
pub open spec fn spec_read_palette(data: Seq<u8>) -> Seq<BitmapPixel>
    decreases data.len(),
{
    if data.len() < 4 {
        Seq::empty()
    } else {
        seq![BitmapPixel { blue: data[0], green: data[1], red: data[2], alpha: 0xff }]
            + spec_read_palette(data.skip(4))
    }
}

/// Reads a palette: one entry per 4-byte group of blue, green, red and one
/// unused alignment byte; entries come out fully opaque.
pub fn read_palette(data: &[u8]) -> (r: BitmapPalette)
    ensures
        r@ == spec_read_palette(data@),
{
    let mut data_walker = BytesWalker::new(data);
    let mut result: Vec<BitmapPixel> = Vec::new();
    proof {
        assert(data_walker.remaining_bytes() =~= data@);
    }
    while data_walker.remaining_count() >= 4
        invariant
            data_walker.wf(),
            data_walker.bytes() == data@,
            result@ + spec_read_palette(data_walker.remaining_bytes()) == spec_read_palette(data@),
        decreases data_walker.remaining(),
    {
        let ghost rem_b = data_walker.remaining_bytes();
        let pixel = BitmapPixel {
            blue: data_walker.next_u8(),
            green: data_walker.next_u8(),
            red: data_walker.next_u8(),
            alpha: 0xff,
        };
        data_walker.next_u8();
        result.push(pixel);
        proof {
            assert(data_walker.remaining_bytes() =~= rem_b.skip(4));
            assert(pixel == (BitmapPixel {
                blue: rem_b[0],
                green: rem_b[1],
                red: rem_b[2],
                alpha: 0xff,
            }));
            assert(spec_read_palette(rem_b) == seq![
                BitmapPixel { blue: rem_b[0], green: rem_b[1], red: rem_b[2], alpha: 0xff },
            ] + spec_read_palette(rem_b.skip(4)));
        }
    }
    proof {
        assert(result@ =~= result@ + spec_read_palette(data_walker.remaining_bytes()));
    }
    result
}

} // verus!
