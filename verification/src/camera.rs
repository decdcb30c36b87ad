//! Camera frame encoders: reduce a raw RGB frame to a plain string for
//! the learning pipeline.  Capturing frames needs device access that
//! lives outside the library, so the encoder itself reports capture as
//! unavailable; the pure per-frame encoders below work on plain buffers.
use vstd::prelude::*;

verus! {

use vstd::string::StringExecFns;
use crate::image::{RawImage, encode_pixel_grid_image, encode_edge_ascii, push_dec, clamp_dim};
use crate::text::push_char;

/// Encoding strategy for camera frames.
#[derive(Clone, Copy, Debug)]
pub enum FrameEncoding {
    /// Downsampled pixel grid, comma-separated RGB values.
    PixelGrid { width: usize, height: usize },
    /// Edge detection glyphs.
    EdgeSymbols,
    /// Average color per block.
    ColorBlocks { blocks_x: usize, blocks_y: usize },
    /// Frame-to-frame motion glyphs.
    MotionVectors,
}

/// Encodes camera frames as strings.  Capture itself needs device access
/// the library does not perform.
pub struct CameraEncoder {
    pub encoding: FrameEncoding,
    pub last_frame: Option<Vec<u8>>,
}

impl CameraEncoder {
    /// Camera capture needs device access outside this library, so
    /// construction reports it unavailable, with exactly that message.
    pub fn new(_encoding: FrameEncoding) -> (r: Result<CameraEncoder, String>)
        ensures
            r is Err,
            r matches Err(m) ==> m@ == "camera capture needs device access outside this library"@,
    {
        Err("camera capture needs device access outside this library".to_owned())
    }

    /// Capture and encode a single frame: unavailable for the same
    /// reason construction is, with exactly that message, and nothing
    /// else changes.
    pub fn capture_frame(&mut self) -> (r: Result<String, String>)
        ensures
            r is Err,
            r matches Err(m) ==> m@ == "camera capture needs device access outside this library"@,
            *final(self) == *old(self),
    {
        Err("camera capture needs device access outside this library".to_owned())
    }
}

/// A copy of a byte buffer.
fn copy_bytes(v: &Vec<u8>) -> (r: Vec<u8>)
    ensures
        r@ == v@,
{
    let mut out: Vec<u8> = Vec::new();
    let mut i: usize = 0;
    while i < v.len()
        invariant
            i <= v@.len(),
            out@ == v@.take(i as int),
        decreases v@.len() - i,
    {
        out.push(v[i]);
        proof {
            assert(v@.take(i + 1) =~= v@.take(i as int).push(v@[i as int]));
        }
        i = i + 1;
    }
    proof {
        assert(v@.take(v@.len() as int) =~= v@);
    }
    out
}

/// Whether a buffer is a well-formed RGB frame of the given size.
pub open spec fn frame_wf(buffer: Seq<u8>, width: int, height: int) -> bool {
    &&& buffer.len() == width * height * 3
    &&& width * height * 3 < 0x1000_0000
    &&& width >= 1
    &&& height >= 1
}

/// Downsample a frame to a grid and encode sampled pixels as
/// comma-separated RGB values.
pub fn encode_pixel_grid(
    buffer: &Vec<u8>,
    width: usize,
    height: usize,
    target_w: usize,
    target_h: usize,
) -> (r: String)
    requires
        frame_wf(buffer@, width as int, height as int),
    ensures
        r@.len() >= 1,
{
    let img = RawImage { width, height, pixels: copy_bytes(buffer) };
    let w = clamp_dim(target_w);
    let h = clamp_dim(target_h);
    let r = encode_pixel_grid_image(&img, w, h);
    proof {
        assert(w * h * 6 >= 1) by (nonlinear_arith)
            requires
                w >= 1,
                h >= 1,
        ;
    }
    r
}

/// Detect edges on a coarse sample grid and encode them as glyphs.
pub fn encode_edges(buffer: &Vec<u8>, width: usize, height: usize) -> (r: String)
    requires
        frame_wf(buffer@, width as int, height as int),
    ensures
        r@.len() >= 1,
{
    let img = RawImage { width, height, pixels: copy_bytes(buffer) };
    let w = clamp_dim(width / 8);
    let h = clamp_dim(height / 8);
    let r = encode_edge_ascii(&img, w, h);
    proof {
        assert(h * (w + 1) >= 1) by (nonlinear_arith)
            requires
                w >= 1,
                h >= 1,
        ;
    }
    r
}

/// Divide the frame into blocks and encode each block's sampled average
/// color.
pub fn encode_color_blocks(
    buffer: &Vec<u8>,
    width: usize,
    height: usize,
    blocks_x: usize,
    blocks_y: usize,
) -> (r: String)
    requires
        frame_wf(buffer@, width as int, height as int),
    ensures
        r@.len() >= 1,
{
    let bx = clamp_dim(blocks_x);
    let by = clamp_dim(blocks_y);
    let block_w = width / bx;
    let block_h = height / by;
    let mut out = String::new();
    let mut gy: usize = 0;
    while gy < by
        invariant
            gy <= by,
            1 <= bx <= 256,
            1 <= by <= 256,
            block_w == width as int / bx as int,
            block_h == height as int / by as int,
            frame_wf(buffer@, width as int, height as int),
        decreases by - gy,
    {
        let mut gx: usize = 0;
        while gx < bx
            invariant
                gx <= bx,
                gy < by,
                1 <= bx <= 256,
                1 <= by <= 256,
                block_w == width as int / bx as int,
                block_h == height as int / by as int,
                frame_wf(buffer@, width as int, height as int),
            decreases bx - gx,
        {
            // Sample the block's corner pixel as its representative
            // color.
            proof {
                assert(gx * block_w <= 256 * (width as int) && gy * block_h <= 256 * (
                height as int)) by (nonlinear_arith)
                    requires
                        gx <= 256,
                        gy <= 256,
                        block_w <= width,
                        block_h <= height,
                ;
                assert(width < 0x1000_0000 && height < 0x1000_0000) by (nonlinear_arith)
                    requires
                        width as int * height as int * 3 < 0x1000_0000,
                        width >= 1,
                        height >= 1,
                ;
            }
            let sx64: u64 = (gx as u64) * (block_w as u64);
            let sy64: u64 = (gy as u64) * (block_h as u64);
            let sx: usize = if sx64 < width as u64 {
                sx64 as usize
            } else {
                width - 1
            };
            let sy: usize = if sy64 < height as u64 {
                sy64 as usize
            } else {
                height - 1
            };
            proof {
                assert((sy * width + sx) * 3 + 2 < buffer@.len()) by (nonlinear_arith)
                    requires
                        sx < width,
                        sy < height,
                        buffer@.len() == width as int * height as int * 3,
                ;
            }
            let base = (sy * width + sx) * 3;
            out.append("rgb:");
            push_dec(&mut out, buffer[base] as u32);
            push_char(&mut out, ',');
            push_dec(&mut out, buffer[base + 1] as u32);
            push_char(&mut out, ',');
            push_dec(&mut out, buffer[base + 2] as u32);
            push_char(&mut out, '|');
            gx = gx + 1;
        }
        gy = gy + 1;
    }
    push_char(&mut out, '|');
    out
}

/// Encode frame-to-frame motion as glyphs: one per sampled block,
/// comparing against the previous frame; without a usable previous frame
/// the marker strings stand in.
pub fn encode_motion_vectors(
    buffer: &Vec<u8>,
    last_frame: &Option<Vec<u8>>,
    width: usize,
    height: usize,
) -> (r: String)
    requires
        frame_wf(buffer@, width as int, height as int),
    ensures
        r@.len() >= 1,
        last_frame is None ==> r@ == "mv:init"@,
        (last_frame matches Some(p) && p@.len() != buffer@.len()) ==> r@ == "mv:reset"@,
        (last_frame matches Some(p) && p@.len() == buffer@.len()) ==> r@.subrange(0, 3)
            == "mv:"@,
{
    proof {
        reveal_strlit("mv:init");
        reveal_strlit("mv:reset");
        reveal_strlit("mv:");
    }
    let prev = match last_frame {
        Some(p) => p,
        None => {
            return "mv:init".to_owned();
        },
    };
    if prev.len() != buffer.len() {
        return "mv:reset".to_owned();
    }
    let mut out = String::new();
    out.append("mv:");
    proof {
        assert(out@ =~= "mv:"@);
        assert(out@.subrange(0, 3) =~= "mv:"@);
        assert(width < 0x1000_0000 && height < 0x1000_0000) by (nonlinear_arith)
            requires
                width as int * height as int * 3 < 0x1000_0000,
                width >= 1,
                height >= 1,
        ;
    }
    let step: usize = 16;
    let mut y: usize = 0;
    while y + step < height
        invariant
            frame_wf(buffer@, width as int, height as int),
            prev@.len() == buffer@.len(),
            out@.len() >= 3,
            out@.subrange(0, 3) == "mv:"@,
            y <= height,
            height < 0x1000_0000,
            width < 0x1000_0000,
            step == 16,
        decreases height - y,
    {
        let mut x: usize = 0;
        while x + step < width
            invariant
                frame_wf(buffer@, width as int, height as int),
                prev@.len() == buffer@.len(),
                y + step < height,
                out@.len() >= 3,
                out@.subrange(0, 3) == "mv:"@,
                x <= width,
                y <= height,
                height < 0x1000_0000,
                width < 0x1000_0000,
                step == 16,
            decreases width - x,
        {
            proof {
                assert((y * width + x) * 3 + 2 < buffer@.len()) by (nonlinear_arith)
                    requires
                        x < width,
                        y < height,
                        buffer@.len() == width as int * height as int * 3,
                ;
            }
            let idx = (y * width + x) * 3;
            let dr = diff_abs(buffer[idx], prev[idx]);
            let dg = diff_abs(buffer[idx + 1], prev[idx + 1]);
            let db = diff_abs(buffer[idx + 2], prev[idx + 2]);
            let motion = (dr + dg + db) / 3;
            let glyph = if motion <= 10 {
                '.'
            } else if motion <= 30 {
                '+'
            } else if motion <= 60 {
                '*'
            } else {
                '#'
            };
            let ghost p0 = out@;
            push_char(&mut out, glyph);
            proof {
                assert(out@.subrange(0, 3) =~= p0.subrange(0, 3));
            }
            x = x + step;
        }
        y = y + step;
    }
    out
}

/// Absolute channel difference.
fn diff_abs(a: u8, b: u8) -> (r: u32)
    ensures
        r <= 255,
{
    if a >= b {
        (a - b) as u32
    } else {
        (b - a) as u32
    }
}

} // verus!
