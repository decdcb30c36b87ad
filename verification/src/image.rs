//! Image encoders: reduce a decoded raster image to a plain string that
//! the learning pipeline can consume.  The raster itself is plain data
//! (width, height, row-major RGB bytes); decoding image files happens
//! outside the library.
use vstd::prelude::*;

verus! {

use crate::text::push_char;
use vstd::string::StringExecFns;

/// Encoding strategy for images and video frames.
#[derive(Clone, Copy)]
pub enum ImageEncoding {
    /// Downsampled pixel grid, comma-separated RGB values.
    PixelGrid { width: usize, height: usize },
    /// Dominant colors by a coarse color-space clustering.
    DominantColors { color_count: usize },
    /// Edge detection rendered as glyphs.
    EdgeAscii { width: usize, height: usize },
    /// Luminance histogram counts.
    ColorHistogram { bins: usize },
    /// Per-cell variance rendered as glyphs.
    TexturePattern { grid_size: usize },
}

/// A decoded raster image: row-major RGB bytes.
pub struct RawImage {
    pub width: usize,
    pub height: usize,
    pub pixels: Vec<u8>,
}

impl RawImage {
    /// Structural soundness: three bytes per pixel, and a size small
    /// enough for index arithmetic.
    pub open spec fn wf(self) -> bool {
        &&& self.pixels@.len() == self.width * self.height * 3
        &&& self.width * self.height * 3 < 0x1000_0000
    }

    /// The luminance (average of the channels) of the pixel at `x`, `y`.
    pub open spec fn luma_at_s(self, x: int, y: int) -> int {
        let base = (y * self.width + x) * 3;
        (self.pixels@[base] + self.pixels@[base + 1] + self.pixels@[base + 2]) / 3
    }
}

/// The character of a decimal digit.
pub open spec fn digit_char_s(d: int) -> char {
    if d == 0 {
        '0'
    } else if d == 1 {
        '1'
    } else if d == 2 {
        '2'
    } else if d == 3 {
        '3'
    } else if d == 4 {
        '4'
    } else if d == 5 {
        '5'
    } else if d == 6 {
        '6'
    } else if d == 7 {
        '7'
    } else if d == 8 {
        '8'
    } else {
        '9'
    }
}

/// The decimal rendering of a number.
pub open spec fn dec_str_s(n: nat) -> Seq<char>
    decreases n,
{
    if n < 10 {
        seq![digit_char_s(n as int)]
    } else {
        dec_str_s(n / 10).push(digit_char_s((n % 10) as int))
    }
}

fn digit_char(d: u32) -> (r: char)
    requires
        d < 10,
    ensures
        r == digit_char_s(d as int),
{
    if d == 0 {
        '0'
    } else if d == 1 {
        '1'
    } else if d == 2 {
        '2'
    } else if d == 3 {
        '3'
    } else if d == 4 {
        '4'
    } else if d == 5 {
        '5'
    } else if d == 6 {
        '6'
    } else if d == 7 {
        '7'
    } else if d == 8 {
        '8'
    } else {
        '9'
    }
}

/// Append the decimal rendering of a number.
pub fn push_dec(out: &mut String, x: u32)
    ensures
        final(out)@ == old(out)@ + dec_str_s(x as nat),
    decreases x,
{
    if x < 10 {
        push_char(out, digit_char(x));
        proof {
            assert(out@ =~= old(out)@ + dec_str_s(x as nat));
        }
    } else {
        push_dec(out, x / 10);
        push_char(out, digit_char(x % 10));
        proof {
            assert(out@ =~= old(out)@ + dec_str_s(x as nat));
        }
    }
}

/// The glyph of an edge-gradient magnitude.
pub open spec fn gradient_char_s(g: int) -> char {
    if g <= 20 {
        ' '
    } else if g <= 50 {
        '.'
    } else if g <= 100 {
        '-'
    } else if g <= 150 {
        '|'
    } else {
        '#'
    }
}

fn gradient_char(g: i32) -> (r: char)
    requires
        0 <= g,
    ensures
        r == gradient_char_s(g as int),
{
    if g <= 20 {
        ' '
    } else if g <= 50 {
        '.'
    } else if g <= 100 {
        '-'
    } else if g <= 150 {
        '|'
    } else {
        '#'
    }
}

/// Sampled luminance gradients rendered as glyphs, one row of the target
/// grid per line.
pub fn encode_edge_ascii(img: &RawImage, target_w: usize, target_h: usize) -> (r: String)
    requires
        img.wf(),
        img.width >= 1,
        img.height >= 1,
        1 <= target_w <= 256,
        1 <= target_h <= 256,
    ensures
        r@.len() == target_h * (target_w + 1),
{
    let mut out = String::new();
    let step_x = img.width / target_w;
    let step_y = img.height / target_h;
    let mut y: usize = 0;
    while y < target_h
        invariant
            y <= target_h,
            out@.len() == y * (target_w + 1),
            img.wf(),
            img.width >= 1,
            img.height >= 1,
            1 <= target_w <= 256,
            1 <= target_h <= 256,
            step_x == img.width / target_w,
            step_y == img.height / target_h,
        decreases target_h - y,
    {
        let mut x: usize = 0;
        while x < target_w
            invariant
                x <= target_w,
                y < target_h,
                out@.len() == y * (target_w + 1) + x,
                img.wf(),
                img.width >= 1,
                img.height >= 1,
                1 <= target_w <= 256,
                1 <= target_h <= 256,
                step_x == img.width / target_w,
                step_y == img.height / target_h,
            decreases target_w - x,
        {
            proof {
                assert(img.width < 0x1000_0000 && img.height < 0x1000_0000) by (nonlinear_arith)
                    requires
                        img.width * img.height * 3 < 0x1000_0000,
                        img.width >= 1,
                        img.height >= 1,
                ;
            }
            let sx = sample_pos(x, step_x, img.width);
            let sy = sample_pos(y, step_y, img.height);
            let center = luma_at(img, sx, sy);
            let right = if sx + 1 < img.width {
                luma_at(img, sx + 1, sy)
            } else {
                center
            };
            let down = if sy + 1 < img.height {
                luma_at(img, sx, sy + 1)
            } else {
                center
            };
            let gx = if right >= center {
                right - center
            } else {
                center - right
            };
            let gy = if down >= center {
                down - center
            } else {
                center - down
            };
            push_char(&mut out, gradient_char(gx + gy));
            x = x + 1;
        }
        push_char(&mut out, '\n');
        proof {
            assert(y * (target_w + 1) + target_w + 1 == (y + 1) * (target_w + 1))
                by (nonlinear_arith);
        }
        y = y + 1;
    }
    out
}

/// The source position a target cell samples, kept inside the image.
fn sample_pos(t: usize, step: usize, limit: usize) -> (r: usize)
    requires
        1 <= limit < 0x1000_0000,
        t <= 256,
        step <= limit,
    ensures
        r < limit,
{
    proof {
        assert((t as int) * (step as int) <= 256 * 0x1000_0000) by (nonlinear_arith)
            requires
                t <= 256,
                step < 0x1000_0000,
        ;
    }
    let p: u64 = (t as u64) * (step as u64);
    if p < limit as u64 {
        p as usize
    } else {
        limit - 1
    }
}

/// The luminance of the pixel at `x`, `y`.
fn luma_at(img: &RawImage, x: usize, y: usize) -> (r: i32)
    requires
        img.wf(),
        x < img.width,
        y < img.height,
    ensures
        r == img.luma_at_s(x as int, y as int),
        0 <= r <= 255,
{
    proof {
        assert((y * img.width + x) * 3 + 2 < img.pixels@.len()) by (nonlinear_arith)
            requires
                x < img.width,
                y < img.height,
                img.pixels@.len() == img.width * img.height * 3,
        ;
    }
    let base = (y * img.width + x) * 3;
    let s: u32 = (img.pixels[base] as u32) + (img.pixels[base + 1] as u32) + (img.pixels[base + 2]
        as u32);
    (s / 3) as i32
}

/// Downsampled pixel grid: the RGB bytes of one sampled pixel per target
/// cell, each byte rendered in decimal with a trailing comma.
pub fn encode_pixel_grid_image(img: &RawImage, target_w: usize, target_h: usize) -> (r: String)
    requires
        img.wf(),
        img.width >= 1,
        img.height >= 1,
        1 <= target_w <= 256,
        1 <= target_h <= 256,
    ensures
        r@.len() >= target_w * target_h * 6,
{
    let mut out = String::new();
    let step_x = img.width / target_w;
    let step_y = img.height / target_h;
    let mut y: usize = 0;
    while y < target_h
        invariant
            y <= target_h,
            out@.len() >= y * target_w * 6,
            img.wf(),
            img.width >= 1,
            img.height >= 1,
            1 <= target_w <= 256,
            1 <= target_h <= 256,
            step_x == img.width / target_w,
            step_y == img.height / target_h,
        decreases target_h - y,
    {
        let mut x: usize = 0;
        while x < target_w
            invariant
                x <= target_w,
                y < target_h,
                out@.len() >= y * target_w * 6 + x * 6,
                img.wf(),
                img.width >= 1,
                img.height >= 1,
                1 <= target_w <= 256,
                1 <= target_h <= 256,
                step_x == img.width / target_w,
                step_y == img.height / target_h,
            decreases target_w - x,
        {
            proof {
                assert(img.width < 0x1000_0000 && img.height < 0x1000_0000) by (nonlinear_arith)
                    requires
                        img.width * img.height * 3 < 0x1000_0000,
                        img.width >= 1,
                        img.height >= 1,
                ;
            }
            let sx = sample_pos(x, step_x, img.width);
            let sy = sample_pos(y, step_y, img.height);
            proof {
                assert((sy * img.width + sx) * 3 + 2 < img.pixels@.len()) by (nonlinear_arith)
                    requires
                        sx < img.width,
                        sy < img.height,
                        img.pixels@.len() == img.width * img.height * 3,
                ;
            }
            let base = (sy * img.width + sx) * 3;
            let mut c: usize = 0;
            while c < 3
                invariant
                    c <= 3,
                    out@.len() >= y * target_w * 6 + x * 6 + c * 2,
                    base + 2 < img.pixels@.len(),
                decreases 3 - c,
            {
                proof {
                    crate::image::lemma_dec_str_len(img.pixels@[base + c] as nat);
                }
                push_dec(&mut out, img.pixels[base + c] as u32);
                push_char(&mut out, ',');
                c = c + 1;
            }
            proof {
                assert(y * target_w * 6 + (x + 1) * 6 == y * target_w * 6 + x * 6 + 6)
                    by (nonlinear_arith);
            }
            x = x + 1;
        }
        proof {
            assert((y + 1) * target_w * 6 == y * target_w * 6 + target_w * 6) by (nonlinear_arith);
        }
        y = y + 1;
    }
    proof {
        assert(target_h * target_w * 6 == target_w * target_h * 6) by (nonlinear_arith);
    }
    out
}

/// A decimal rendering is never empty.
pub proof fn lemma_dec_str_len(n: nat)
    ensures
        dec_str_s(n).len() >= 1,
    decreases n,
{
    if n >= 10 {
        lemma_dec_str_len(n / 10);
    }
}

/// Luminance histogram: how many pixels fall into each of `bins` equal
/// luminance bands, rendered in decimal after a `hist:` prefix.
pub fn encode_color_histogram(img: &RawImage, bins: usize) -> (r: String)
    requires
        img.wf(),
        1 <= bins <= 256,
    ensures
        r@.len() >= 5 + 2 * bins,
        r@.subrange(0, 5) == "hist:"@,
{
    proof {
        reveal_strlit("hist:");
    }
    let mut histogram: Vec<u32> = Vec::new();
    let mut b: usize = 0;
    while b < bins
        invariant
            b <= bins,
            histogram@.len() == b,
        decreases bins - b,
    {
        histogram.push(0);
        b = b + 1;
    }
    let bin_size: usize = 256 / bins;
    proof {
        vstd::arithmetic::div_mod::lemma_div_non_zero(256, bins as int);
    }
    let mut i: usize = 0;
    let n: usize = img.pixels.len() / 3;
    while i < n
        invariant
            histogram@.len() == bins,
            1 <= bins <= 256,
            bin_size == 256 as int / bins as int,
            bin_size >= 1,
            n == img.pixels@.len() / 3,
            img.wf(),
        decreases n - i,
    {
        proof {
            assert(i * 3 + 2 < img.pixels@.len()) by (nonlinear_arith)
                requires
                    i < img.pixels@.len() / 3,
            ;
        }
        let base = i * 3;
        let lum: usize = ((img.pixels[base] as u32 + img.pixels[base + 1] as u32
            + img.pixels[base + 2] as u32) / 3) as usize;
        let mut idx = lum / bin_size;
        if idx >= bins {
            idx = bins - 1;
        }
        let c = histogram[idx];
        if c < u32::MAX {
            histogram[idx] = c + 1;
        }
        i = i + 1;
    }
    let mut out = String::new();
    push_char(&mut out, 'h');
    push_char(&mut out, 'i');
    push_char(&mut out, 's');
    push_char(&mut out, 't');
    push_char(&mut out, ':');
    proof {
        assert(out@ =~= "hist:"@);
        assert(out@.subrange(0, 5) =~= "hist:"@);
    }
    let mut b2: usize = 0;
    while b2 < bins
        invariant
            b2 <= bins,
            histogram@.len() == bins,
            out@.len() >= 5 + 2 * b2,
            out@.subrange(0, 5) == "hist:"@,
        decreases bins - b2,
    {
        proof {
            lemma_dec_str_len(histogram@[b2 as int] as nat);
        }
        let ghost p0 = out@;
        push_dec(&mut out, histogram[b2]);
        push_char(&mut out, ',');
        proof {
            assert(out@.subrange(0, 5) =~= p0.subrange(0, 5));
        }
        b2 = b2 + 1;
    }
    out
}

/// Encode a decoded image with the chosen strategy.
pub fn encode_image_data(img: &RawImage, encoding: ImageEncoding) -> (r: String)
    requires
        img.wf(),
        img.width >= 1,
        img.height >= 1,
    ensures
        r@.len() >= 1,
{
    match encoding {
        ImageEncoding::PixelGrid { width, height } => {
            let w = clamp_dim(width);
            let h = clamp_dim(height);
            let r = encode_pixel_grid_image(img, w, h);
            proof {
                assert(w * h * 6 >= 1) by (nonlinear_arith)
                    requires
                        w >= 1,
                        h >= 1,
                ;
            }
            r
        },
        ImageEncoding::DominantColors { color_count } => {
            encode_dominant_colors(img, clamp_dim(color_count))
        },
        ImageEncoding::EdgeAscii { width, height } => {
            let w = clamp_dim(width);
            let h = clamp_dim(height);
            let r = encode_edge_ascii(img, w, h);
            proof {
                assert(h * (w + 1) >= 1) by (nonlinear_arith)
                    requires
                        w >= 1,
                        h >= 1,
                ;
            }
            r
        },
        ImageEncoding::ColorHistogram { bins } => {
            encode_color_histogram(img, clamp_dim(bins))
        },
        ImageEncoding::TexturePattern { grid_size } => {
            encode_texture_pattern(img, clamp_dim(grid_size))
        },
    }
}

/// A target dimension kept inside [1, 256].
pub fn clamp_dim(d: usize) -> (r: usize)
    ensures
        1 <= r <= 256,
{
    if d < 1 {
        1
    } else if d > 256 {
        256
    } else {
        d
    }
}


/// Squared Euclidean gap of two RGB colors.
pub open spec fn color_distance_s(a: Seq<u32>, b: Seq<u32>) -> int
    recommends
        a.len() == 3,
        b.len() == 3,
{
    (a[0] - b[0]) * (a[0] - b[0]) + (a[1] - b[1]) * (a[1] - b[1]) + (a[2] - b[2]) * (a[2]
        - b[2])
}

/// Squared Euclidean gap of two RGB colors.
pub fn color_distance(a: [u32; 3], b: [u32; 3]) -> (r: u32)
    requires
        forall|k: int| 0 <= k < 3 ==> a@[k] <= 255 && b@[k] <= 255,
    ensures
        r == color_distance_s(a@, b@),
        r <= 195_075,
{
    let d0 = if a[0] >= b[0] {
        a[0] - b[0]
    } else {
        b[0] - a[0]
    };
    let d1 = if a[1] >= b[1] {
        a[1] - b[1]
    } else {
        b[1] - a[1]
    };
    let d2 = if a[2] >= b[2] {
        a[2] - b[2]
    } else {
        b[2] - a[2]
    };
    proof {
        assert(d0 * d0 == (a@[0] - b@[0]) * (a@[0] - b@[0]) && d0 * d0 <= 65_025)
            by (nonlinear_arith)
            requires
                d0 == if a@[0] >= b@[0] {
                    a@[0] - b@[0]
                } else {
                    b@[0] - a@[0]
                },
                a@[0] <= 255,
                b@[0] <= 255,
        ;
        assert(d1 * d1 == (a@[1] - b@[1]) * (a@[1] - b@[1]) && d1 * d1 <= 65_025)
            by (nonlinear_arith)
            requires
                d1 == if a@[1] >= b@[1] {
                    a@[1] - b@[1]
                } else {
                    b@[1] - a@[1]
                },
                a@[1] <= 255,
                b@[1] <= 255,
        ;
        assert(d2 * d2 == (a@[2] - b@[2]) * (a@[2] - b@[2]) && d2 * d2 <= 65_025)
            by (nonlinear_arith)
            requires
                d2 == if a@[2] >= b@[2] {
                    a@[2] - b@[2]
                } else {
                    b@[2] - a@[2]
                },
                a@[2] <= 255,
                b@[2] <= 255,
        ;
    }
    d0 * d0 + d1 * d1 + d2 * d2
}

/// The center color of color-cube cell `ci` of the coarse partition.
fn cube_center(ci: usize) -> (r: [u32; 3])
    requires
        ci < 64,
    ensures
        forall|k: int| 0 <= k < 3 ==> r@[k] <= 255,
{
    [
        ((ci / 16) as u32) * 64 + 32,
        (((ci / 4) % 4) as u32) * 64 + 32,
        ((ci % 4) as u32) * 64 + 32,
    ]
}

/// Dominant colors: each pixel is assigned to the nearest center of a
/// coarse color-cube partition, and the most populated centers are
/// rendered, most frequent first, after a `colors:` prefix.
pub fn encode_dominant_colors(img: &RawImage, color_count: usize) -> (r: String)
    requires
        img.wf(),
        1 <= color_count <= 256,
    ensures
        r@.len() >= 7,
        r@.subrange(0, 7) == "colors:"@,
{
    proof {
        reveal_strlit("colors:");
    }
    let mut counts: Vec<u32> = Vec::new();
    let mut c: usize = 0;
    while c < 64
        invariant
            c <= 64,
            counts@.len() == c,
        decreases 64 - c,
    {
        counts.push(0);
        c = c + 1;
    }
    let n: usize = img.pixels.len() / 3;
    let mut i: usize = 0;
    while i < n
        invariant
            counts@.len() == 64,
            n == img.pixels@.len() / 3,
            img.wf(),
        decreases n - i,
    {
        proof {
            assert(i * 3 + 2 < img.pixels@.len()) by (nonlinear_arith)
                requires
                    i < img.pixels@.len() / 3,
            ;
        }
        let base = i * 3;
        let sample: [u32; 3] = [
            img.pixels[base] as u32,
            img.pixels[base + 1] as u32,
            img.pixels[base + 2] as u32,
        ];
        // Assign the sample to the nearest partition center, the first
        // on ties.
        let mut best: usize = 0;
        let mut best_dist: u32 = color_distance(sample, cube_center(0));
        let mut ci: usize = 1;
        while ci < 64
            invariant
                1 <= ci <= 64,
                best < ci,
                forall|k: int| 0 <= k < 3 ==> sample@[k] <= 255,
            decreases 64 - ci,
        {
            let d = color_distance(sample, cube_center(ci));
            if d < best_dist {
                best = ci;
                best_dist = d;
            }
            ci = ci + 1;
        }
        let cnt = counts[best];
        if cnt < u32::MAX {
            counts[best] = cnt + 1;
        }
        i = i + 1;
    }
    let mut out = String::new();
    push_char(&mut out, 'c');
    push_char(&mut out, 'o');
    push_char(&mut out, 'l');
    push_char(&mut out, 'o');
    push_char(&mut out, 'r');
    push_char(&mut out, 's');
    push_char(&mut out, ':');
    proof {
        assert(out@ =~= "colors:"@);
        assert(out@.subrange(0, 7) =~= "colors:"@);
    }
    let mut taken: usize = 0;
    while taken < color_count && taken < 64
        invariant
            taken <= color_count,
            taken <= 64,
            counts@.len() == 64,
            out@.len() >= 7,
            out@.subrange(0, 7) == "colors:"@,
        decreases color_count - taken,
    {
        let ghost p0 = out@;
        // Pick the most populated remaining cell.
        let mut best: usize = 0;
        let mut best_count: u32 = counts[0];
        let mut k: usize = 1;
        while k < 64
            invariant
                1 <= k <= 64,
                best < k,
                counts@.len() == 64,
                best_count == counts@[best as int],
            decreases 64 - k,
        {
            if counts[k] > best_count {
                best = k;
                best_count = counts[k];
            }
            k = k + 1;
        }
        if best_count == 0 {
            break ;
        }
        counts[best] = 0;
        let rr = ((best / 16) as u32) * 64 + 32;
        let gg = (((best / 4) % 4) as u32) * 64 + 32;
        let bb = ((best % 4) as u32) * 64 + 32;
        push_char(&mut out, 'r');
        push_char(&mut out, 'g');
        push_char(&mut out, 'b');
        push_char(&mut out, ':');
        push_dec(&mut out, rr);
        push_char(&mut out, ',');
        push_dec(&mut out, gg);
        push_char(&mut out, ',');
        push_dec(&mut out, bb);
        push_char(&mut out, '|');
        proof {
            assert(out@.subrange(0, 7) =~= p0.subrange(0, 7));
        }
        taken = taken + 1;
    }
    out
}

/// Texture pattern: the luminance variance of each grid cell, sampled at
/// the cell's corner neighbourhood and rendered as one glyph per cell
/// after a `texture:` prefix.
pub fn encode_texture_pattern(img: &RawImage, grid_size: usize) -> (r: String)
    requires
        img.wf(),
        img.width >= 1,
        img.height >= 1,
        1 <= grid_size <= 256,
    ensures
        r@.len() == 8 + grid_size * grid_size,
        r@.subrange(0, 8) == "texture:"@,
{
    proof {
        reveal_strlit("texture:");
    }
    let mut out = String::new();
    push_char(&mut out, 't');
    push_char(&mut out, 'e');
    push_char(&mut out, 'x');
    push_char(&mut out, 't');
    push_char(&mut out, 'u');
    push_char(&mut out, 'r');
    push_char(&mut out, 'e');
    push_char(&mut out, ':');
    proof {
        assert(out@ =~= "texture:"@);
        assert(out@.subrange(0, 8) =~= "texture:"@);
    }
    let cell_w = img.width / grid_size;
    let cell_h = img.height / grid_size;
    let mut gy: usize = 0;
    while gy < grid_size
        invariant
            gy <= grid_size,
            out@.len() == 8 + gy * grid_size,
            out@.subrange(0, 8) == "texture:"@,
            img.wf(),
            img.width >= 1,
            img.height >= 1,
            1 <= grid_size <= 256,
            cell_w == img.width / grid_size,
            cell_h == img.height / grid_size,
        decreases grid_size - gy,
    {
        let mut gx: usize = 0;
        while gx < grid_size
            invariant
                gx <= grid_size,
                gy < grid_size,
                out@.len() == 8 + gy * grid_size + gx,
                out@.subrange(0, 8) == "texture:"@,
                img.wf(),
                img.width >= 1,
                img.height >= 1,
                1 <= grid_size <= 256,
                cell_w == img.width / grid_size,
                cell_h == img.height / grid_size,
            decreases grid_size - gx,
        {
            // Sample a 4x4 neighbourhood at the cell's corner and
            // measure its luminance variance.
            proof {
                assert(img.width < 0x1000_0000 && img.height < 0x1000_0000) by (nonlinear_arith)
                    requires
                        img.width * img.height * 3 < 0x1000_0000,
                        img.width >= 1,
                        img.height >= 1,
                ;
            }
            let x0 = sample_pos(gx, cell_w, img.width);
            let y0 = sample_pos(gy, cell_h, img.height);
            let mut sum: u64 = 0;
            let mut sum_sq: u64 = 0;
            let mut count: u64 = 0;
            let mut dy: usize = 0;
            while dy < 4
                invariant
                    dy <= 4,
                    count == dy * 4,
                    sum <= count * 255,
                    sum_sq <= count * 65025,
                    x0 < img.width,
                    y0 < img.height,
                    img.wf(),
                decreases 4 - dy,
            {
                let mut dx: usize = 0;
                while dx < 4
                    invariant
                        dx <= 4,
                        dy < 4,
                        count == dy * 4 + dx,
                        sum <= count * 255,
                        sum_sq <= count * 65025,
                        x0 < img.width,
                        y0 < img.height,
                        img.wf(),
                    decreases 4 - dx,
                {
                    let px = if x0 + dx < img.width {
                        x0 + dx
                    } else {
                        img.width - 1
                    };
                    let py = if y0 + dy < img.height {
                        y0 + dy
                    } else {
                        img.height - 1
                    };
                    let v = luma_at(img, px, py) as u64;
                    proof {
                        assert(v * v <= 65025) by (nonlinear_arith)
                            requires
                                0 <= v <= 255,
                        ;
                    }
                    sum = sum + v;
                    sum_sq = sum_sq + v * v;
                    count = count + 1;
                    dx = dx + 1;
                }
                dy = dy + 1;
            }
            let mean = sum / 16;
            proof {
                vstd::arithmetic::div_mod::lemma_div_nonincreasing(sum as int, 16);
                vstd::arithmetic::div_mod::lemma_div_pos_is_pos(sum as int, 16);
                assert(mean * mean <= 4080 * 4080) by (nonlinear_arith)
                    requires
                        0 <= mean <= 4080,
                ;
            }
            let m2 = mean * mean;
            let q = sum_sq / 16;
            let variance = if q >= m2 {
                q - m2
            } else {
                0
            };
            let glyph = if variance <= 100 {
                '.'
            } else if variance <= 500 {
                '-'
            } else if variance <= 1500 {
                '|'
            } else {
                '#'
            };
            let ghost p0 = out@;
            push_char(&mut out, glyph);
            proof {
                assert(8 + gy * grid_size + gx + 1 == 8 + gy * grid_size + (gx + 1));
                assert(out@.subrange(0, 8) =~= p0.subrange(0, 8));
            }
            gx = gx + 1;
        }
        proof {
            assert(8 + (gy + 1) * grid_size == 8 + gy * grid_size + grid_size)
                by (nonlinear_arith);
        }
        gy = gy + 1;
    }
    proof {
        assert(grid_size * grid_size >= 1) by (nonlinear_arith)
            requires
                grid_size >= 1,
        ;
    }
    out
}

/// Video file processing: reads frames one by one.  Decoding a video
/// container needs a frame extractor outside this library, so encoding
/// reports it unavailable.
pub struct VideoEncoder {}

impl VideoEncoder {
    /// Extract and encode the frames of a video file: unavailable, with
    /// exactly that message, until frames are extracted outside.
    pub fn encode_video_frames(
        _path: &str,
        _encoding: ImageEncoding,
        _frame_skip: usize,
    ) -> (r: Result<Vec<String>, String>)
        ensures
            r is Err,
            r matches Err(m) ==> m@
                == "video decoding needs an outside frame extractor; extract frames first"@,
    {
        Err("video decoding needs an outside frame extractor; extract frames first".to_owned())
    }
}

} // verus!
