//! The pixel value type and palette lookup: four 8-bit channels, color
//! equality over red/green/blue only, and nearest-color quantization by
//! squared Euclidean distance.

use vstd::prelude::*;

verus! {

/// One pixel: four 8-bit channels with value semantics.  For quantization
/// purposes two pixels are "the same color" when their red, green and blue
/// channels agree; alpha is ignored.
#[derive(Clone, Copy, Debug, PartialEq, Eq, Structural)]
pub struct BitmapPixel {
    pub blue: u8,
    pub green: u8,
    pub red: u8,
    pub alpha: u8,
}

/// An ordered sequence of colors for the 1/4/8-bit indexed formats.
pub type BitmapPalette = Vec<BitmapPixel>;

/// Whether two pixels agree on red, green and blue (alpha ignored).
pub open spec fn spec_same_color(a: BitmapPixel, b: BitmapPixel) -> bool {
    a.red == b.red && a.green == b.green && a.blue == b.blue
}

/// Squared Euclidean distance over the red/green/blue channels.
pub open spec fn spec_distance_squared(a: BitmapPixel, b: BitmapPixel) -> int {
    (a.red - b.red) * (a.red - b.red) + (a.green - b.green) * (a.green - b.green) + (a.blue
        - b.blue) * (a.blue - b.blue)
}

/// Index of the first palette entry among the first `n` whose distance to
/// `p` is minimal.
pub open spec fn spec_closest_in_prefix(p: BitmapPixel, palette: Seq<BitmapPixel>, n: int) -> int
    decreases n,
{
    if n <= 1 {
        0
    } else {
        let prev = spec_closest_in_prefix(p, palette, n - 1);
        if spec_distance_squared(p, palette[n - 1]) < spec_distance_squared(p, palette[prev]) {
            n - 1
        } else {
            prev
        }
    }
}

/// Index of the first palette entry whose distance to `p` is minimal.
pub open spec fn spec_closest_index(p: BitmapPixel, palette: Seq<BitmapPixel>) -> int {
    spec_closest_in_prefix(p, palette, palette.len() as int)
}

/// The chosen index is in range, achieves the minimum distance, and every
/// strictly earlier entry is strictly farther away: ties resolve to the
/// lowest index.
pub proof fn lemma_closest_index_minimal(p: BitmapPixel, palette: Seq<BitmapPixel>, n: int)
    requires
        1 <= n <= palette.len(),
    ensures
        0 <= spec_closest_in_prefix(p, palette, n) < n,
        forall|j: int|
            0 <= j < n ==> spec_distance_squared(p, palette[spec_closest_in_prefix(p, palette, n)])
                <= spec_distance_squared(p, #[trigger] palette[j]),
        forall|j: int|
            0 <= j < spec_closest_in_prefix(p, palette, n) ==> spec_distance_squared(
                p,
                palette[spec_closest_in_prefix(p, palette, n)],
            ) < spec_distance_squared(p, #[trigger] palette[j]),
    decreases n,
{
    if n > 1 {
        lemma_closest_index_minimal(p, palette, n - 1);
    }
}

/// A pixel whose color occurs in the palette is quantized to an entry of
/// exactly that color.
pub proof fn lemma_closest_index_exact_match(p: BitmapPixel, palette: Seq<BitmapPixel>, j: int)
    requires
        0 <= j < palette.len(),
        spec_same_color(p, palette[j]),
    ensures
        0 <= spec_closest_index(p, palette) < palette.len(),
        spec_closest_index(p, palette) <= j,
        spec_same_color(p, palette[spec_closest_index(p, palette)]),
{
    lemma_closest_index_minimal(p, palette, palette.len() as int);
    let ci = spec_closest_index(p, palette);
    assert(spec_distance_squared(p, palette[j]) == 0);
    assert(spec_distance_squared(p, palette[ci]) <= 0);
    let q = palette[ci];
    assert((p.red - q.red) * (p.red - q.red) >= 0) by (nonlinear_arith);
    assert((p.green - q.green) * (p.green - q.green) >= 0) by (nonlinear_arith);
    assert((p.blue - q.blue) * (p.blue - q.blue) >= 0) by (nonlinear_arith);
    assert((p.red - q.red) * (p.red - q.red) == 0);
    assert(p.red == q.red) by (nonlinear_arith)
        requires
            (p.red - q.red) * (p.red - q.red) == 0,
    ;
    assert(p.green == q.green) by (nonlinear_arith)
        requires
            (p.green - q.green) * (p.green - q.green) == 0,
    ;
    assert(p.blue == q.blue) by (nonlinear_arith)
        requires
            (p.blue - q.blue) * (p.blue - q.blue) == 0,
    ;
    if ci > j {
        assert(spec_distance_squared(p, palette[ci]) < spec_distance_squared(p, palette[j]));
    }
}

impl BitmapPixel {
    /// Builds a pixel from its four channels.
    pub fn rgba(r: u8, g: u8, b: u8, a: u8) -> (p: BitmapPixel)
        ensures
            p == (BitmapPixel { blue: b, green: g, red: r, alpha: a }),
    {
        BitmapPixel { red: r, green: g, blue: b, alpha: a }
    }

    /// Builds an opaque pixel from red, green and blue.
    pub fn rgb(r: u8, g: u8, b: u8) -> (p: BitmapPixel)
        ensures
            p == (BitmapPixel { blue: b, green: g, red: r, alpha: 0xff }),
    {
        BitmapPixel::rgba(r, g, b, 0xff)
    }

    /// Builds a pixel from a packed `0xRRGGBBAA` word.
    pub fn rgba_u32(color: u32) -> (p: BitmapPixel)
        ensures
            p.red == ((color >> 24) & 0xff) as u8,
            p.green == ((color >> 16) & 0xff) as u8,
            p.blue == ((color >> 8) & 0xff) as u8,
            p.alpha == (color & 0xff) as u8,
    {
        assert((color >> 24) & 0xff < 256 && (color >> 16) & 0xff < 256 && (color >> 8) & 0xff
            < 256 && color & 0xff < 256) by (bit_vector);
        BitmapPixel::rgba(
            ((color >> 24) & 0xff) as u8,
            ((color >> 16) & 0xff) as u8,
            ((color >> 8) & 0xff) as u8,
            (color & 0xff) as u8,
        )
    }

    /// Builds an opaque pixel from a packed `0xRRGGBBxx` word, forcing the
    /// alpha byte to `0xff`.
    pub fn rgb_u32(color: u32) -> (p: BitmapPixel)
        ensures
            p.red == (((color | 0xff) >> 24) & 0xff) as u8,
            p.green == (((color | 0xff) >> 16) & 0xff) as u8,
            p.blue == (((color | 0xff) >> 8) & 0xff) as u8,
            p.alpha == 0xff,
    {
        assert((color | 0xff) & 0xff == 0xff) by (bit_vector);
        BitmapPixel::rgba_u32(color | 0xff)
    }

    /// Whether this pixel has the same red, green and blue as `other`.
    pub fn same_color_as(&self, other: &BitmapPixel) -> (r: bool)
        ensures
            r == spec_same_color(*self, *other),
    {
        self.red == other.red && self.green == other.green && self.blue == other.blue
    }

    /// Opaque black.
    pub fn black() -> (p: BitmapPixel)
        ensures
            p == (BitmapPixel { blue: 0x00, green: 0x00, red: 0x00, alpha: 0xff }),
    {
        BitmapPixel::rgba(0x00, 0x00, 0x00, 0xff)
    }

    /// Opaque white.
    pub fn white() -> (p: BitmapPixel)
        ensures
            p == (BitmapPixel { blue: 0xff, green: 0xff, red: 0xff, alpha: 0xff }),
    {
        BitmapPixel::rgba(0xff, 0xff, 0xff, 0xff)
    }

    /// Opaque pure red.
    pub fn red() -> (p: BitmapPixel)
        ensures
            p == (BitmapPixel { blue: 0x00, green: 0x00, red: 0xff, alpha: 0xff }),
    {
        BitmapPixel::rgba(0xff, 0x00, 0x00, 0xff)
    }

    /// Opaque pure green.
    pub fn green() -> (p: BitmapPixel)
        ensures
            p == (BitmapPixel { blue: 0x00, green: 0xff, red: 0x00, alpha: 0xff }),
    {
        BitmapPixel::rgba(0x00, 0xff, 0x00, 0xff)
    }

    /// Opaque pure blue.
    pub fn blue() -> (p: BitmapPixel)
        ensures
            p == (BitmapPixel { blue: 0xff, green: 0x00, red: 0x00, alpha: 0xff }),
    {
        BitmapPixel::rgba(0x00, 0x00, 0xff, 0xff)
    }

    /// Fully transparent white: the fill color of freshly allocated grids.
    pub fn transparent() -> (p: BitmapPixel)
        ensures
            p == (BitmapPixel { blue: 0xff, green: 0xff, red: 0xff, alpha: 0x00 }),
    {
        BitmapPixel::rgba(0xff, 0xff, 0xff, 0x00)
    }

    /// Squared Euclidean distance to `other` over red, green and blue.
    pub fn distance_squared(&self, other: &BitmapPixel) -> (d: u32)
        ensures
            d == spec_distance_squared(*self, *other),
    {
        let red_distance: i32 = self.red as i32 - other.red as i32;
        let green_distance: i32 = self.green as i32 - other.green as i32;
        let blue_distance: i32 = self.blue as i32 - other.blue as i32;
        assert(0 <= red_distance * red_distance <= 65025 && 0 <= green_distance * green_distance
            <= 65025 && 0 <= blue_distance * blue_distance <= 65025) by (nonlinear_arith)
            requires
                -255 <= red_distance <= 255,
                -255 <= green_distance <= 255,
                -255 <= blue_distance <= 255,
        ;
        (red_distance * red_distance + green_distance * green_distance + blue_distance
            * blue_distance) as u32
    }

    /// Index of the first palette entry nearest to this pixel by squared
    /// Euclidean distance over red/green/blue; ties resolve to the lowest
    /// index.
    pub fn find_closest_by_index(&self, palette: &BitmapPalette) -> (r: usize)
        requires
            palette@.len() >= 1,
        ensures
            r == spec_closest_index(*self, palette@),
            0 <= r < palette@.len(),
            forall|j: int|
                0 <= j < palette@.len() ==> spec_distance_squared(*self, palette@[r as int])
                    <= spec_distance_squared(*self, #[trigger] palette@[j]),
            forall|j: int|
                0 <= j < r ==> spec_distance_squared(*self, palette@[r as int])
                    < spec_distance_squared(*self, #[trigger] palette@[j]),
    {
        let mut result_distance: u32 = self.distance_squared(&palette[0]);
        let mut result: usize = 0;
        let mut current_index: usize = 1;
        while current_index < palette.len()
            invariant
                1 <= current_index <= palette@.len(),
                0 <= result < current_index,
                result == spec_closest_in_prefix(*self, palette@, current_index as int),
                result_distance == spec_distance_squared(*self, palette@[result as int]),
            decreases palette@.len() - current_index,
        {
            let current_distance: u32 = self.distance_squared(&palette[current_index]);
            if current_distance < result_distance {
                result_distance = current_distance;
                result = current_index;
            }
            current_index = current_index + 1;
        }
        proof {
            lemma_closest_index_minimal(*self, palette@, palette@.len() as int);
        }
        result
    }
}

} // verus!
