use vstd::prelude::*;
use crate::grid::{cell_index, lemma_cell_index, lemma_index_coords};
use crate::palette::{nearest_index, ColorPalette, cube_colors, Rgb};
use crate::pixel::Pixel;
use crate::tiles::{
    lemma_tile_inside, lemma_tiles_partition, tile_contains, tile_count, tile_of, tile_origin, tile_origins,
    tile_span, TILE_SIZE,
};
use vstd::arithmetic::div_mod::{lemma_fundamental_div_mod, lemma_fundamental_div_mod_converse};

verus! {

/// The colour every pixel holds before anything is drawn: opaque black.
pub open spec fn blank_pixel() -> Pixel {
    Pixel { r: 0, g: 0, b: 0, a: 255 }
}

/// Luminance of a pixel, `0.299 R + 0.587 G + 0.114 B`, truncated.
pub open spec fn luma_of(p: Pixel) -> int {
    (299 * p.r + 587 * p.g + 114 * p.b) / 1000
}

/// A real value `num / den`, clamped to `[0, 255]` and truncated to an
/// eight-bit channel.
pub open spec fn to_channel(num: int, den: int) -> int {
    if num < 0 {
        0
    } else if num / den > 255 {
        255
    } else {
        num / den
    }
}

/// Index of the posterisation step nearest to `b`, with `levels` steps over
/// `[0, 255]`: `round(b / (255 / (levels - 1)))`.
pub open spec fn level_index(b: int, levels: int) -> int {
    (2 * b * (levels - 1) + 255) / 510
}

/// Value of step `k` of `levels`: `k * 255 / (levels - 1)`, rounded.
pub open spec fn level_value(k: int, levels: int) -> int {
    (510 * k + (levels - 1)) / (2 * (levels - 1))
}

/// `b` snapped to the nearest of `levels` evenly spaced values.
pub open spec fn posterized(b: int, levels: int) -> int {
    level_value(level_index(b, levels), levels)
}

/// Luminance `v` scaled by `factor / 1000`.
pub open spec fn brightened(v: int, factor_milli: int) -> int {
    to_channel(v * factor_milli, 1000)
}

/// Luminance `v` with contrast `(v/255 - 0.5) * f + 0.5`, `f = factor / 1000`.
pub open spec fn contrasted(v: int, factor_milli: int) -> int {
    to_channel((2 * v - 255) * factor_milli + 255000, 2000)
}

/// Unsharp mask of `cur` against the sum `around` of its four neighbours:
/// `cur + f * (cur - around / 4)`, `f = factor / 1000`.
pub open spec fn sharpened(cur: int, around: int, factor_milli: int) -> int {
    to_channel(4000 * cur + factor_milli * (4 * cur - around), 4000)
}

/// Entry of the 2×2 Bayer matrix at `(x, y)`, in quarters.
pub open spec fn bayer_quarters(x: int, y: int) -> int {
    if y % 2 == 0 {
        if x % 2 == 0 {
            0
        } else {
            2
        }
    } else {
        if x % 2 == 0 {
            3
        } else {
            1
        }
    }
}

/// Channel `v` at `(x, y)` perturbed by `(threshold - 128) * intensity`, where
/// the threshold is the Bayer entry scaled to 255 and `intensity =
/// intensity_milli / 1000`.
pub open spec fn dithered(v: int, x: int, y: int, intensity_milli: int) -> int {
    to_channel(4000 * v + (255 * bayer_quarters(x, y) - 512) * intensity_milli, 4000)
}

/// The palette colour a pixel at `(x, y)` takes under ordered dithering.
pub open spec fn dithered_pixel(p: Pixel, x: int, y: int, intensity_milli: int) -> Pixel {
    let q: Rgb = (
        dithered(p.r as int, x, y, intensity_milli) as u8,
        dithered(p.g as int, x, y, intensity_milli) as u8,
        dithered(p.b as int, x, y, intensity_milli) as u8,
    );
    let c = cube_colors()[nearest_index(cube_colors(), q)];
    Pixel { r: c.0, g: c.1, b: c.2, a: 255 }
}

/// Position `i` of a `w`×`h` grid has all four neighbours inside the grid.
pub open spec fn is_interior(w: int, h: int, i: int) -> bool {
    1 <= i % w < w - 1 && 1 <= i / w < h - 1
}

/// The luminance buffer after one sharpening pass over `lum`.
pub open spec fn sharpen_at(lum: Seq<u8>, w: int, h: int, i: int, factor_milli: int) -> u8 {
    if is_interior(w, h, i) {
        let around = lum[i - w] + lum[i + w] + lum[i - 1] + lum[i + 1];
        sharpened(lum[i] as int, around, factor_milli) as u8
    } else {
        lum[i]
    }
}

/// Luminance of every pixel, posterised to `levels` values.
pub open spec fn luma_stage(data: Seq<Pixel>, levels: int) -> Seq<u8> {
    Seq::new(data.len(), |i: int| posterized(luma_of(data[i]), levels) as u8)
}

/// Every luminance scaled by `factor_milli / 1000`.
pub open spec fn brightness_stage(lum: Seq<u8>, factor_milli: int) -> Seq<u8> {
    Seq::new(lum.len(), |i: int| brightened(lum[i] as int, factor_milli) as u8)
}

/// Every luminance with its contrast adjusted.
pub open spec fn contrast_stage(lum: Seq<u8>, factor_milli: int) -> Seq<u8> {
    Seq::new(lum.len(), |i: int| contrasted(lum[i] as int, factor_milli) as u8)
}

/// One sharpening pass over a `w`×`h` luminance buffer.
pub open spec fn sharpen_stage(lum: Seq<u8>, w: int, h: int, factor_milli: int) -> Seq<u8> {
    Seq::new(lum.len(), |i: int| sharpen_at(lum, w, h, i, factor_milli))
}

/// Ordered dithering with palette snap over a colour buffer `w` wide.
pub open spec fn dither_stage(data: Seq<Pixel>, w: int, intensity_milli: int) -> Seq<Pixel> {
    Seq::new(data.len(), |i: int| dithered_pixel(data[i], i % w, i / w, intensity_milli))
}

/// A colour buffer with its luminance buffer, both `width × height`, row by
/// row. Luminance is always derived from the colours.
pub struct Framebuffer {
    pub width: usize,
    pub height: usize,
    /// Colours, row by row.
    pub data: Vec<Pixel>,
    /// Luminance, row by row, derived from `data`.
    pub brightness_buffer: Vec<u8>,
}

impl Framebuffer {
    /// The luminance buffer.
    pub open spec fn luma(&self) -> Seq<u8> {
        self.brightness_buffer@
    }

    /// Both buffers hold exactly one entry per pixel.
    pub open spec fn wf(&self) -> bool {
        &&& self.width * self.height <= usize::MAX
        &&& self.data@.len() == self.width * self.height
        &&& self.luma().len() == self.width * self.height
    }

    /// A `width`×`height` buffer of opaque black, with zero luminance.
    pub fn new(width: usize, height: usize) -> (fb: Self)
        requires
            width * height <= usize::MAX,
        ensures
            fb.wf(),
            fb.width == width,
            fb.height == height,
            fb.data@ == Seq::new((width * height) as nat, |i: int| blank_pixel()),
            fb.luma() == Seq::new((width * height) as nat, |i: int| 0u8),
    {
        let n = width * height;
        let initial_pixel = Pixel { r: 0, g: 0, b: 0, a: 255 };
        let data = vec![initial_pixel; n];
        let brightness_buffer = vec![0u8; n];
        let fb = Framebuffer { width, height, data, brightness_buffer };
        assert(fb.data@ =~= Seq::new((width * height) as nat, |i: int| blank_pixel()));
        assert(fb.luma() =~= Seq::new((width * height) as nat, |i: int| 0u8));
        fb
    }

    /// Paints every pixel opaque black; luminance is left as it was.
    pub fn clear(&mut self)
        requires
            old(self).wf(),
        ensures
            final(self).wf(),
            final(self).width == old(self).width,
            final(self).height == old(self).height,
            final(self).data@ == Seq::new(old(self).data@.len(), |i: int| blank_pixel()),
            final(self).luma() == old(self).luma(),
    {
        let default_pixel = Pixel { r: 0, g: 0, b: 0, a: 255 };
        let n = self.data.len();
        let mut i: usize = 0;
        while i < n
            invariant
                n == self.data@.len(),
                i <= n,
                default_pixel == blank_pixel(),
                self.width == old(self).width,
                self.height == old(self).height,
                self.brightness_buffer@ == old(self).brightness_buffer@,
                n == old(self).data@.len(),
                forall|k: int| 0 <= k < i ==> self.data@[k] == blank_pixel(),
            decreases n - i,
        {
            self.data.set(i, default_pixel);
            i = i + 1;
        }
        assert(self.data@ =~= Seq::new(old(self).data@.len(), |i: int| blank_pixel()));
    }

    /// The pixel at column `x`, row `y`.
    pub fn get_pixel(&self, x: usize, y: usize) -> (p: &Pixel)
        requires
            self.wf(),
            x < self.width,
            y < self.height,
        ensures
            *p == self.data@[cell_index(self.width as int, x as int, y as int)],
    {
        proof {
            lemma_cell_index(self.width as int, self.height as int, x as int, y as int);
        }
        &self.data[y * self.width + x]
    }

    /// Replaces the pixel at column `x`, row `y`.
    pub fn set_pixel(&mut self, x: usize, y: usize, pixel: Pixel)
        requires
            old(self).wf(),
            x < old(self).width,
            y < old(self).height,
        ensures
            final(self).wf(),
            final(self).width == old(self).width,
            final(self).height == old(self).height,
            final(self).data@ == old(self).data@.update(
                cell_index(old(self).width as int, x as int, y as int),
                pixel,
            ),
            final(self).luma() == old(self).luma(),
    {
        proof {
            lemma_cell_index(self.width as int, self.height as int, x as int, y as int);
        }
        let i = y * self.width + x;
        self.data.set(i, pixel);
    }

    /// The luminance at column `x`, row `y`.
    pub fn get_brightness(&self, x: usize, y: usize) -> (v: u8)
        requires
            self.wf(),
            x < self.width,
            y < self.height,
        ensures
            v == self.luma()[cell_index(self.width as int, x as int, y as int)],
    {
        proof {
            lemma_cell_index(self.width as int, self.height as int, x as int, y as int);
        }
        self.brightness_buffer[y * self.width + x]
    }

    /// The luminance buffer, row by row.
    pub fn brightness(&self) -> (r: &Vec<u8>)
        ensures
            r@ == self.luma(),
    {
        &self.brightness_buffer
    }

    /// `brightness` snapped to the nearest of `levels` evenly spaced values
    /// over `[0, 255]`.
    pub fn posterize_brightness(brightness: u8, levels: u8) -> (v: u8)
        requires
            levels >= 2,
        ensures
            v == posterized(brightness as int, levels as int),
    {
        let d = (levels - 1) as u32;
        let b = brightness as u32;
        assert(2 * b * d + 255 <= 2 * 255 * 254 + 255) by (nonlinear_arith)
            requires
                b <= 255,
                d <= 254,
        ;
        let k = (2 * b * d + 255) / 510;
        assert(k <= d) by (nonlinear_arith)
            requires
                k == (2 * b * d + 255) / 510,
                b <= 255,
                d >= 1,
        ;
        let v = (510 * k + d) / (2 * d);
        assert(v <= 255) by (nonlinear_arith)
            requires
                v == (510 * k + d) / (2 * d),
                k <= d,
                d >= 1,
        ;
        v as u8
    }

    /// Fills the luminance buffer from the colours: luminance of each pixel,
    /// posterised to `posterize_levels` values.
    pub fn compute_brightness_buffer(&mut self, posterize_levels: u8)
        requires
            old(self).wf(),
            posterize_levels >= 2,
        ensures
            final(self).wf(),
            final(self).width == old(self).width,
            final(self).height == old(self).height,
            final(self).data@ == old(self).data@,
            final(self).luma() == luma_stage(old(self).data@, posterize_levels as int),
    {
        let n = self.data.len();
        let mut i: usize = 0;
        while i < n
            invariant
                n == self.data@.len(),
                n == self.brightness_buffer@.len(),
                i <= n,
                self.width == old(self).width,
                self.height == old(self).height,
                self.data@ == old(self).data@,
                posterize_levels >= 2,
                forall|k: int|
                    0 <= k < i ==> self.brightness_buffer@[k] == posterized(
                        luma_of(self.data@[k]),
                        posterize_levels as int,
                    ) as u8,
            decreases n - i,
        {
            let p = self.data[i];
            let luma = (299 * p.r as u32 + 587 * p.g as u32 + 114 * p.b as u32) / 1000;
            let v = Self::posterize_brightness(luma as u8, posterize_levels);
            self.brightness_buffer.set(i, v);
            i = i + 1;
        }
        assert(self.luma() =~= luma_stage(old(self).data@, posterize_levels as int));
    }

    /// Scales every luminance by `factor_milli / 1000`, clamped to `[0, 255]`.
    pub fn increase_brightness(&mut self, factor_milli: i32)
        requires
            old(self).wf(),
        ensures
            final(self).wf(),
            final(self).width == old(self).width,
            final(self).height == old(self).height,
            final(self).data@ == old(self).data@,
            final(self).luma() == brightness_stage(old(self).luma(), factor_milli as int),
    {
        let n = self.brightness_buffer.len();
        let mut i: usize = 0;
        while i < n
            invariant
                n == self.brightness_buffer@.len(),
                n == old(self).brightness_buffer@.len(),
                i <= n,
                self.width == old(self).width,
                self.height == old(self).height,
                self.data@ == old(self).data@,
                forall|k: int|
                    0 <= k < i ==> self.brightness_buffer@[k] == brightened(
                        old(self).brightness_buffer@[k] as int,
                        factor_milli as int,
                    ) as u8,
                forall|k: int|
                    i <= k < n ==> self.brightness_buffer@[k] == old(self).brightness_buffer@[k],
            decreases n - i,
        {
            let v = self.brightness_buffer[i] as i64;
            let f = factor_milli as i64;
            assert(-0x1_0000_0000_0000 <= v * f <= 0x1_0000_0000_0000) by (nonlinear_arith)
                requires
                    0 <= v <= 255,
                    -0x8000_0000 <= f <= 0x8000_0000,
            ;
            let num = v * f;
            self.brightness_buffer.set(i, channel(num, 1000));
            i = i + 1;
        }
        assert(self.luma() =~= brightness_stage(old(self).luma(), factor_milli as int));
    }

    /// Applies contrast `(v/255 - 0.5) * f + 0.5`, `f = factor_milli / 1000`,
    /// to every luminance, clamped to `[0, 255]`.
    pub fn increase_contrast(&mut self, factor_milli: i32)
        requires
            old(self).wf(),
        ensures
            final(self).wf(),
            final(self).width == old(self).width,
            final(self).height == old(self).height,
            final(self).data@ == old(self).data@,
            final(self).luma() == contrast_stage(old(self).luma(), factor_milli as int),
    {
        let n = self.brightness_buffer.len();
        let mut i: usize = 0;
        while i < n
            invariant
                n == self.brightness_buffer@.len(),
                n == old(self).brightness_buffer@.len(),
                i <= n,
                self.width == old(self).width,
                self.height == old(self).height,
                self.data@ == old(self).data@,
                forall|k: int|
                    0 <= k < i ==> self.brightness_buffer@[k] == contrasted(
                        old(self).brightness_buffer@[k] as int,
                        factor_milli as int,
                    ) as u8,
                forall|k: int|
                    i <= k < n ==> self.brightness_buffer@[k] == old(self).brightness_buffer@[k],
            decreases n - i,
        {
            let v = self.brightness_buffer[i] as i64;
            let f = factor_milli as i64;
            assert(-0x1_0000_0000_0000 <= (2 * v - 255) * f <= 0x1_0000_0000_0000)
                by (nonlinear_arith)
                requires
                    0 <= v <= 255,
                    -0x8000_0000 <= f <= 0x8000_0000,
            ;
            let num = (2 * v - 255) * f + 255000;
            self.brightness_buffer.set(i, channel(num, 2000));
            i = i + 1;
        }
        assert(self.luma() =~= contrast_stage(old(self).luma(), factor_milli as int));
    }
}

/// `num / den` clamped to `[0, 255]` and truncated.
fn channel(num: i64, den: i64) -> (v: u8)
    requires
        den > 0,
    ensures
        v == to_channel(num as int, den as int),
{
    if num < 0 {
        0
    } else if num / den > 255 {
        255
    } else {
        (num / den) as u8
    }
}


impl Framebuffer {
    /// Unsharp mask over the interior: each pixel with four neighbours
    /// becomes `cur + f * (cur - blur)`, `blur` the mean of its neighbours
    /// and `f = factor_milli / 1000`, clamped to `[0, 255]`. All pixels read
    /// the values from before the pass; border pixels keep theirs.
    pub fn apply_sharpening(&mut self, factor_milli: i32)
        requires
            old(self).wf(),
        ensures
            final(self).wf(),
            final(self).width == old(self).width,
            final(self).height == old(self).height,
            final(self).data@ == old(self).data@,
            final(self).luma() == sharpen_stage(old(self).luma(), old(self).width as int, old(self).height as int, factor_milli as int),
    {
        let w = self.width;
        let h = self.height;
        let temp = self.brightness_buffer.clone();
        assert(temp@ =~= old(self).brightness_buffer@);
        let n = temp.len();
        let f = factor_milli as i64;
        let mut i: usize = 0;
        while i < n
            invariant
                n == temp@.len(),
                n == w * h,
                w * h <= usize::MAX,
                w == self.width,
                h == self.height,
                w == old(self).width,
                h == old(self).height,
                f == factor_milli,
                temp@ == old(self).brightness_buffer@,
                self.data@ == old(self).data@,
                self.brightness_buffer@.len() == n,
                i <= n,
                forall|k: int|
                    0 <= k < i ==> self.brightness_buffer@[k] == sharpen_at(
                        temp@,
                        w as int,
                        h as int,
                        k,
                        factor_milli as int,
                    ),
                forall|k: int| i <= k < n ==> self.brightness_buffer@[k] == temp@[k],
            decreases n - i,
        {
            proof {
                lemma_index_coords(w as int, h as int, i as int);
            }
            let x = i % w;
            let y = i / w;
            if 1 <= x && x + 1 < w && 1 <= y && y + 1 < h {
                proof {
                    assert(i - w >= 0 && i + w < w * h) by (nonlinear_arith)
                        requires
                            i == y * w + x,
                            1 <= y,
                            y + 1 < h,
                            x < w,
                    ;
                }
                let cur = temp[i] as i64;
                let around = temp[i - w] as i64 + temp[i + w] as i64 + temp[i - 1] as i64
                    + temp[i + 1] as i64;
                assert(-0x1_0000_0000_0000 <= f * (4 * cur - around) <= 0x1_0000_0000_0000)
                    by (nonlinear_arith)
                    requires
                        -1020 <= 4 * cur - around <= 1020,
                        -0x8000_0000 <= f <= 0x8000_0000,
                ;
                let num = 4000 * cur + f * (4 * cur - around);
                self.brightness_buffer.set(i, channel(num, 4000));
            }
            i = i + 1;
        }
        assert(self.luma() =~= sharpen_stage(old(self).luma(), old(self).width as int, old(self).height as int, factor_milli as int));
    }

    /// Ordered dithering with palette snap: each channel is perturbed by
    /// `(threshold - 128) * intensity_milli / 1000`, the threshold the 2×2
    /// Bayer entry at the pixel scaled to 255, clamped to `[0, 255]`, and the
    /// pixel becomes the nearest colour of the 216-colour cube, opaque.
    pub fn apply_ordered_dithering(&mut self, intensity_milli: u32)
        requires
            old(self).wf(),
        ensures
            final(self).wf(),
            final(self).width == old(self).width,
            final(self).height == old(self).height,
            final(self).luma() == old(self).luma(),
            final(self).data@ == dither_stage(old(self).data@, old(self).width as int, intensity_milli as int),
    {
        let palette = ColorPalette::new();
        let w = self.width;
        let n = self.data.len();
        let intensity = intensity_milli as i64;
        let mut i: usize = 0;
        while i < n
            invariant
                n == self.data@.len(),
                n == old(self).data@.len(),
                n == w * self.height,
                w == self.width,
                w == old(self).width,
                self.height == old(self).height,
                intensity == intensity_milli,
                palette@ == cube_colors(),
                self.brightness_buffer@ == old(self).brightness_buffer@,
                i <= n,
                forall|k: int|
                    0 <= k < i ==> self.data@[k] == dithered_pixel(
                        old(self).data@[k],
                        k % (w as int),
                        k / (w as int),
                        intensity_milli as int,
                    ),
                forall|k: int| i <= k < n ==> self.data@[k] == old(self).data@[k],
            decreases n - i,
        {
            assert(w > 0) by (nonlinear_arith)
                requires
                    i < n,
                    n == w * self.height,
            ;
            let x = i % w;
            let y = i / w;
            let q: i64 = if y % 2 == 0 {
                if x % 2 == 0 {
                    0
                } else {
                    2
                }
            } else {
                if x % 2 == 0 {
                    3
                } else {
                    1
                }
            };
            assert(q == bayer_quarters(x as int, y as int));
            assert(-0x1_0000_0000_0000 <= (255 * q - 512) * intensity <= 0x1_0000_0000_0000)
                by (nonlinear_arith)
                requires
                    0 <= q <= 3,
                    0 <= intensity <= 0xffff_ffff,
            ;
            let shift = (255 * q - 512) * intensity;
            let p = self.data[i];
            let r = channel(4000 * p.r as i64 + shift, 4000);
            let g = channel(4000 * p.g as i64 + shift, 4000);
            let b = channel(4000 * p.b as i64 + shift, 4000);
            let c = palette.closest_color(r, g, b);
            self.data.set(i, Pixel { r: c.0, g: c.1, b: c.2, a: 255 });
            i = i + 1;
        }
        assert(self.data@ =~= dither_stage(old(self).data@, old(self).width as int, intensity_milli as int));
    }

    /// Ordered dithering with palette snap at intensity 0.1.
    pub fn apply_bayer_dithering(&mut self)
        requires
            old(self).wf(),
        ensures
            final(self).wf(),
            final(self).width == old(self).width,
            final(self).height == old(self).height,
            final(self).luma() == old(self).luma(),
            final(self).data@ == dither_stage(old(self).data@, old(self).width as int, DITHER_INTENSITY_MILLI as int),
    {
        self.apply_ordered_dithering(DITHER_INTENSITY_MILLI);
    }
}

/// Default dithering intensity, in thousandths.
pub const DITHER_INTENSITY_MILLI: u32 = 100;

/// Position `i` of a grid `w` wide lies in the `tw`×`th` rectangle whose
/// top-left pixel is `(sx, sy)`.
pub open spec fn in_rect(w: int, sx: int, sy: int, tw: int, th: int, i: int) -> bool {
    sx <= i % w < sx + tw && sy <= i / w < sy + th
}

/// Row-major offset of position `i` inside the rectangle at `(sx, sy)` that
/// is `tw` wide.
pub open spec fn rect_offset(w: int, sx: int, sy: int, tw: int, i: int) -> int {
    (i / w - sy) * tw + (i % w - sx)
}

/// `data`, a `w`×`h` frame, with the tile at `(sx, sy)`, clipped to the
/// frame, replaced by `pixels` given row by row.
pub open spec fn with_tile(
    data: Seq<Pixel>,
    w: int,
    h: int,
    sx: int,
    sy: int,
    pixels: Seq<Pixel>,
) -> Seq<Pixel> {
    Seq::new(
        data.len(),
        |i: int|
            if in_rect(w, sx, sy, tile_span(sx, w), tile_span(sy, h), i) {
                pixels[rect_offset(w, sx, sy, tile_span(sx, w), i)]
            } else {
                data[i]
            },
    )
}

/// Writing two different tiles gives the same frame in either order: tiles
/// share no pixel, so the result of a frame does not depend on the order in
/// which its tiles are finished.
pub proof fn lemma_tile_writes_commute(
    data: Seq<Pixel>,
    w: int,
    h: int,
    t1: int,
    t2: int,
    p1: Seq<Pixel>,
    p2: Seq<Pixel>,
)
    requires
        data.len() == w * h,
        0 < w,
        0 <= h,
        0 <= t1 < tile_count(w, h),
        0 <= t2 < tile_count(w, h),
        t1 != t2,
    ensures
        ({
            let (x1, y1) = tile_origin(w, t1);
            let (x2, y2) = tile_origin(w, t2);
            with_tile(with_tile(data, w, h, x1, y1, p1), w, h, x2, y2, p2) == with_tile(
                with_tile(data, w, h, x2, y2, p2),
                w,
                h,
                x1,
                y1,
                p1,
            )
        }),
{
    let (x1, y1) = tile_origin(w, t1);
    let (x2, y2) = tile_origin(w, t2);
    let a = with_tile(with_tile(data, w, h, x1, y1, p1), w, h, x2, y2, p2);
    let b = with_tile(with_tile(data, w, h, x2, y2, p2), w, h, x1, y1, p1);
    lemma_tile_inside(w, h, t1);
    lemma_tile_inside(w, h, t2);
    assert forall|i: int| 0 <= i < data.len() implies a[i] == b[i] by {
        lemma_index_coords(w, h, i);
        let x = i % w;
        let y = i / w;
        lemma_tiles_partition(w, h, x, y);
        if in_rect(w, x1, y1, tile_span(x1, w), tile_span(y1, h), i) && in_rect(
            w,
            x2,
            y2,
            tile_span(x2, w),
            tile_span(y2, h),
            i,
        ) {
            assert(tile_contains(w, t1, x, y));
            assert(tile_contains(w, t2, x, y));
        }
    }
    assert(a =~= b);
}

/// The pixel that position `i` takes from the tile results `tiles`, numbered
/// as `tile_origins` numbers the tiles, each holding its pixels row by row.
pub open spec fn merged_pixel(tiles: Seq<Seq<Pixel>>, w: int, i: int) -> Pixel {
    let t = tile_of(w, i % w, i / w);
    let (sx, sy) = tile_origin(w, t);
    tiles[t][rect_offset(w, sx, sy, tile_span(sx, w), i)]
}

impl Framebuffer {
    /// Copies one tile's pixels, row by row, into the tile at `(start_x,
    /// start_y)`, clipped to the frame; every other pixel is kept.
    pub fn write_tile(&mut self, start_x: usize, start_y: usize, pixels: &Vec<Pixel>)
        requires
            old(self).wf(),
            start_x < old(self).width,
            start_y < old(self).height,
            pixels@.len() == tile_span(start_x as int, old(self).width as int) * tile_span(
                start_y as int,
                old(self).height as int,
            ),
        ensures
            final(self).wf(),
            final(self).width == old(self).width,
            final(self).height == old(self).height,
            final(self).luma() == old(self).luma(),
            final(self).data@ == with_tile(
                old(self).data@,
                old(self).width as int,
                old(self).height as int,
                start_x as int,
                start_y as int,
                pixels@,
            ),
    {
        let w = self.width;
        let h = self.height;
        let tw = if w - start_x >= TILE_SIZE {
            TILE_SIZE
        } else {
            w - start_x
        };
        let th = if h - start_y >= TILE_SIZE {
            TILE_SIZE
        } else {
            h - start_y
        };
        let ghost sx = start_x as int;
        let ghost sy = start_y as int;
        let ghost n = old(self).data@.len();
        assert(tw * th <= 64) by (nonlinear_arith)
            requires
                tw <= 8,
                th <= 8,
        ;
        let count = tw * th;
        let mut k: usize = 0;
        while k < count
            invariant
                self.wf(),
                w == self.width,
                h == self.height,
                w == old(self).width,
                h == old(self).height,
                n == self.data@.len(),
                n == old(self).data@.len(),
                self.brightness_buffer@ == old(self).brightness_buffer@,
                tw == tile_span(sx, w as int),
                th == tile_span(sy, h as int),
                sx == start_x,
                sy == start_y,
                0 < tw <= 8,
                0 < th <= 8,
                sx + tw <= w,
                sy + th <= h,
                count == tw * th,
                pixels@.len() == count,
                k <= count,
                forall|j: int|
                    0 <= j < n ==> self.data@[j] == if in_rect(w as int, sx, sy, tw as int, th as int, j)
                        && rect_offset(w as int, sx, sy, tw as int, j) < k {
                        pixels@[rect_offset(w as int, sx, sy, tw as int, j)]
                    } else {
                        old(self).data@[j]
                    },
            decreases count - k,
        {
            proof {
                lemma_fundamental_div_mod(k as int, tw as int);
                assert(k / tw < th) by (nonlinear_arith)
                    requires
                        0 <= k < tw * th,
                        tw > 0,
                        k == tw * (k / tw) + k % tw,
                        0 <= k % tw < tw,
                ;
                assert(k / tw >= 0) by (nonlinear_arith)
                    requires
                        k >= 0,
                        tw > 0,
                ;
            }
            let x = start_x + k % tw;
            let y = start_y + k / tw;
            let ghost c = cell_index(w as int, x as int, y as int);
            proof {
                lemma_cell_index(w as int, h as int, x as int, y as int);
                assert(rect_offset(w as int, sx, sy, tw as int, c) == k) by (nonlinear_arith)
                    requires
                        c / (w as int) == y,
                        c % (w as int) == x,
                        x == sx + k % tw,
                        y == sy + k / tw,
                        k == tw * (k / tw) + k % tw,
                ;
            }
            self.set_pixel(x, y, pixels[k]);
            proof {
                assert forall|j: int|
                    0 <= j < n && j != c && in_rect(w as int, sx, sy, tw as int, th as int, j)
                        implies rect_offset(w as int, sx, sy, tw as int, j) != k by {
                    if rect_offset(w as int, sx, sy, tw as int, j) == k {
                        lemma_fundamental_div_mod_converse(
                            k as int,
                            tw as int,
                            j / (w as int) - sy,
                            j % (w as int) - sx,
                        );
                        lemma_fundamental_div_mod(j, w as int);
                        assert(j == cell_index(w as int, j % (w as int), j / (w as int))) by (
                        nonlinear_arith)
                            requires
                                j == (w as int) * (j / (w as int)) + j % (w as int),
                        ;
                    }
                }
            }
            k = k + 1;
        }
        assert forall|j: int| 0 <= j < n && in_rect(w as int, sx, sy, tw as int, th as int, j)
            implies rect_offset(w as int, sx, sy, tw as int, j) < count by {
            let lx = j % (w as int) - sx;
            let ly = j / (w as int) - sy;
            assert(ly * tw + lx < tw * th) by (nonlinear_arith)
                requires
                    0 <= lx < tw,
                    0 <= ly < th,
            ;
        }
        assert(self.data@ =~= with_tile(
                old(self).data@,
                old(self).width as int,
                old(self).height as int,
                start_x as int,
                start_y as int,
                pixels@,
            ));
    }
}

/// Each tile result holds exactly the pixels of its tile.
pub open spec fn tiles_fit(tiles: Seq<Seq<Pixel>>, w: int, h: int) -> bool {
    &&& tiles.len() == tile_count(w, h)
    &&& forall|t: int|
        0 <= t < tiles.len() ==> #[trigger] tiles[t].len() == tile_span(tile_origin(w, t).0, w)
            * tile_span(tile_origin(w, t).1, h)
}

/// The pixels of a list of vectors, as sequences.
pub open spec fn tile_views(tiles: Seq<Vec<Pixel>>) -> Seq<Seq<Pixel>> {
    tiles.map_values(|v: Vec<Pixel>| v@)
}

impl Framebuffer {
    /// Writes the results of all tiles, in the order `tile_origins` gives,
    /// into the frame. Tiles do not overlap and cover the frame, so each
    /// pixel comes from the one tile that holds it, whatever the order in
    /// which the results were computed.
    pub fn merge_tiles(&mut self, tiles: &Vec<Vec<Pixel>>)
        requires
            old(self).wf(),
            tiles_fit(tile_views(tiles@), old(self).width as int, old(self).height as int),
        ensures
            final(self).wf(),
            final(self).width == old(self).width,
            final(self).height == old(self).height,
            final(self).luma() == old(self).luma(),
            final(self).data@ == Seq::new(
                old(self).data@.len(),
                |i: int| merged_pixel(tile_views(tiles@), old(self).width as int, i),
            ),
    {
        let w = self.width;
        let h = self.height;
        let ghost n = old(self).data@.len();
        let ghost views = tile_views(tiles@);
        let origins = tile_origins(w, h);
        let mut t: usize = 0;
        while t < origins.len()
            invariant
                self.wf(),
                w == self.width,
                h == self.height,
                w == old(self).width,
                h == old(self).height,
                n == self.data@.len(),
                n == old(self).data@.len(),
                self.brightness_buffer@ == old(self).brightness_buffer@,
                views == tile_views(tiles@),
                tiles_fit(views, w as int, h as int),
                origins@.len() == tile_count(w as int, h as int),
                forall|k: int|
                    0 <= k < origins@.len() ==> (origins@[k].0 as int, origins@[k].1 as int)
                        == tile_origin(w as int, k),
                t <= origins@.len(),
                forall|j: int|
                    0 <= j < n ==> self.data@[j] == if tile_of(
                        w as int,
                        j % (w as int),
                        j / (w as int),
                    ) < t {
                        merged_pixel(views, w as int, j)
                    } else {
                        old(self).data@[j]
                    },
            decreases origins@.len() - t,
        {
            let (sx, sy) = origins[t];
            proof {
                lemma_tile_inside(w as int, h as int, t as int);
                assert(views[t as int] == tiles@[t as int]@);
            }
            let ghost before = self.data@;
            self.write_tile(sx, sy, &tiles[t]);
            proof {
                assert forall|j: int| 0 <= j < n implies self.data@[j] == if tile_of(
                    w as int,
                    j % (w as int),
                    j / (w as int),
                ) < t + 1 {
                    merged_pixel(views, w as int, j)
                } else {
                    old(self).data@[j]
                } by {
                    lemma_index_coords(w as int, h as int, j);
                    let x = j % (w as int);
                    let y = j / (w as int);
                    lemma_tiles_partition(w as int, h as int, x, y);
                    let tw = tile_span(sx as int, w as int);
                    let th = tile_span(sy as int, h as int);
                    if in_rect(w as int, sx as int, sy as int, tw, th, j) {
                        assert(tile_contains(w as int, t as int, x, y));
                    } else {
                        if tile_of(w as int, x, y) == t {
                            assert(false);
                        }
                    }
                }
            }
            t = t + 1;
        }
        proof {
            assert forall|j: int| 0 <= j < n implies #[trigger] self.data@[j] == merged_pixel(
                views,
                w as int,
                j,
            ) by {
                lemma_index_coords(w as int, h as int, j);
                lemma_tiles_partition(w as int, h as int, j % (w as int), j / (w as int));
            }
        }
        assert(self.data@ =~= Seq::new(
            old(self).data@.len(),
            |i: int| merged_pixel(tile_views(tiles@), old(self).width as int, i),
        ));
    }
}

/// Step `k` of `levels` lies in `[0, 255]` and posterises back to step `k`.
pub proof fn lemma_level_round_trip(k: int, levels: int)
    requires
        2 <= levels <= 255,
        0 <= k < levels,
    ensures
        0 <= level_value(k, levels) <= 255,
        level_index(level_value(k, levels), levels) == k,
{
    let d = levels - 1;
    let v = level_value(k, levels);
    lemma_fundamental_div_mod(510 * k + d, 2 * d);
    let r = (510 * k + d) % (2 * d);
    assert(510 * k + d == (2 * d) * v + r);
    assert(0 <= v <= 255) by (nonlinear_arith)
        requires
            510 * k + d == (2 * d) * v + r,
            0 <= r < 2 * d,
            0 <= k <= d,
            1 <= d <= 254,
    ;
    let e = 2 * v * d + 255 - 510 * k;
    assert(0 <= e < 510) by (nonlinear_arith)
        requires
            510 * k + d == (2 * d) * v + r,
            0 <= r < 2 * d,
            1 <= d <= 254,
            e == 2 * v * d + 255 - 510 * k,
    ;
    lemma_fundamental_div_mod_converse(2 * v * d + 255, 510, k, e);
}

/// The step values rise strictly with the step.
pub proof fn lemma_level_strictly_increasing(j: int, k: int, levels: int)
    requires
        2 <= levels <= 255,
        0 <= j < k,
    ensures
        level_value(j, levels) < level_value(k, levels),
{
    let d = levels - 1;
    let vj = level_value(j, levels);
    let vk = level_value(k, levels);
    lemma_fundamental_div_mod(510 * j + d, 2 * d);
    lemma_fundamental_div_mod(510 * k + d, 2 * d);
    let rj = (510 * j + d) % (2 * d);
    let rk = (510 * k + d) % (2 * d);
    assert(vj < vk) by (nonlinear_arith)
        requires
            510 * j + d == (2 * d) * vj + rj,
            510 * k + d == (2 * d) * vk + rk,
            0 <= rj < 2 * d,
            0 <= rk < 2 * d,
            1 <= d <= 254,
            j < k,
    ;
}

/// Posterising `b` to `levels` values gives one of exactly `levels` distinct
/// values: the step values, rising strictly from 0 to 255, each of them
/// reached; and posterising the result again leaves it unchanged.
pub proof fn lemma_posterize_levels(b: int, levels: int)
    requires
        0 <= b <= 255,
        2 <= levels <= 255,
    ensures
        0 <= level_index(b, levels) < levels,
        posterized(b, levels) == level_value(level_index(b, levels), levels),
        level_value(0, levels) == 0,
        level_value(levels - 1, levels) == 255,
        forall|j: int, k: int|
            0 <= j < k < levels ==> #[trigger] level_value(j, levels) < #[trigger] level_value(
                k,
                levels,
            ),
        forall|k: int|
            0 <= k < levels ==> posterized(#[trigger] level_value(k, levels), levels)
                == level_value(k, levels),
        posterized(posterized(b, levels), levels) == posterized(b, levels),
{
    let d = levels - 1;
    assert(0 <= level_index(b, levels) <= d) by (nonlinear_arith)
        requires
            0 <= b <= 255,
            1 <= d <= 254,
            level_index(b, levels) == (2 * b * d + 255) / 510,
    ;
    assert(level_value(0, levels) == 0) by (nonlinear_arith)
        requires
            1 <= d <= 254,
            level_value(0, levels) == d / (2 * d),
    ;
    assert(level_value(d, levels) == 255) by (nonlinear_arith)
        requires
            1 <= d <= 254,
            level_value(d, levels) == (510 * d + d) / (2 * d),
    ;
    assert forall|j: int, k: int| 0 <= j < k < levels implies #[trigger] level_value(j, levels)
        < #[trigger] level_value(k, levels) by {
        lemma_level_strictly_increasing(j, k, levels);
    }
    assert forall|k: int| 0 <= k < levels implies posterized(
        #[trigger] level_value(k, levels),
        levels,
    ) == level_value(k, levels) by {
        lemma_level_round_trip(k, levels);
    }
    lemma_level_round_trip(level_index(b, levels), levels);
}

} // verus!
