//! The signal encoders and the raster text: pure reductions of frames
//! and images to strings, and the overlay font.
use fractal_mind::camera::{
    encode_color_blocks, encode_edges, encode_motion_vectors, encode_pixel_grid, CameraEncoder,
    FrameEncoding,
};
use fractal_mind::image::{color_distance, encode_image_data, push_dec, ImageEncoding, RawImage};
use fractal_mind::image::VideoEncoder;
use fractal_mind::llm::LLMBridge;
use fractal_mind::visualizer::{draw_char, draw_text, VIS_HEIGHT, VIS_WIDTH};

fn gradient_image(w: usize, h: usize) -> RawImage {
    let mut pixels = Vec::new();
    for y in 0..h {
        for x in 0..w {
            pixels.push(((x * 255) / w) as u8);
            pixels.push(((y * 255) / h) as u8);
            pixels.push(((x + y) % 256) as u8);
        }
    }
    RawImage { width: w, height: h, pixels }
}

#[test]
fn color_distance_is_exact() {
    assert_eq!(color_distance([0, 0, 0], [3, 4, 0]), 25);
    assert_eq!(color_distance([200, 100, 50], [200, 100, 50]), 0);
    assert_eq!(color_distance([255, 0, 0], [0, 255, 0]), 2 * 255 * 255);
}

#[test]
fn decimal_rendering_is_exact() {
    let mut s = String::new();
    push_dec(&mut s, 0);
    push_dec(&mut s, 7);
    push_dec(&mut s, 10);
    push_dec(&mut s, 255);
    push_dec(&mut s, 1000000);
    assert_eq!(s, "07102551000000");
}

#[test]
fn edge_ascii_has_grid_shape() {
    let img = gradient_image(32, 32);
    let out = encode_image_data(&img, ImageEncoding::EdgeAscii { width: 8, height: 4 });
    assert_eq!(out.chars().count(), 4 * 9);
}

#[test]
fn pixel_grid_encoding_is_nonempty_and_numeric() {
    let img = gradient_image(16, 16);
    let out = encode_image_data(&img, ImageEncoding::PixelGrid { width: 4, height: 4 });
    assert!(out.len() >= 4 * 4 * 6);
    assert!(out.chars().all(|c| c.is_ascii_digit() || c == ','));
}

#[test]
fn histogram_encoding_carries_prefix() {
    let img = gradient_image(8, 8);
    let out = encode_image_data(&img, ImageEncoding::ColorHistogram { bins: 4 });
    assert!(out.starts_with("hist:"));
}

#[test]
fn dominant_colors_encoding_carries_prefix() {
    let img = gradient_image(8, 8);
    let out = encode_image_data(&img, ImageEncoding::DominantColors { color_count: 3 });
    assert!(out.starts_with("colors:"));
}

#[test]
fn texture_encoding_has_exact_length() {
    let img = gradient_image(32, 32);
    let out = encode_image_data(&img, ImageEncoding::TexturePattern { grid_size: 4 });
    assert_eq!(out.chars().count(), 8 + 16);
    assert!(out.starts_with("texture:"));
}

#[test]
fn camera_frame_encoders_produce_output() {
    let img = gradient_image(64, 48);
    let buffer = img.pixels;
    let grid = encode_pixel_grid(&buffer, 64, 48, 4, 4);
    assert!(!grid.is_empty());
    let edges = encode_edges(&buffer, 64, 48);
    assert!(!edges.is_empty());
    let blocks = encode_color_blocks(&buffer, 64, 48, 2, 2);
    assert!(blocks.contains("rgb:"));
    let first = encode_motion_vectors(&buffer, &None, 64, 48);
    assert_eq!(first, "mv:init");
    let second = encode_motion_vectors(&buffer, &Some(buffer.clone()), 64, 48);
    assert!(second.starts_with("mv:"));
    let mismatched = encode_motion_vectors(&buffer, &Some(vec![0u8; 3]), 64, 48);
    assert_eq!(mismatched, "mv:reset");
}

#[test]
fn video_decoding_reports_unavailable() {
    let r = VideoEncoder::encode_video_frames(
        "clips/any.mp4",
        ImageEncoding::EdgeAscii { width: 8, height: 8 },
        5,
    );
    assert!(r.is_err());
}

#[test]
fn camera_capture_reports_unavailable() {
    assert!(CameraEncoder::new(FrameEncoding::EdgeSymbols).is_err());
    let mut enc = CameraEncoder {
        encoding: FrameEncoding::MotionVectors,
        last_frame: None,
    };
    assert!(enc.capture_frame().is_err());
}

#[test]
fn llm_bridge_holds_its_configuration() {
    let bridge = LLMBridge::new("some-model");
    assert_eq!(bridge.base_url, "http://localhost:11434");
    assert_eq!(bridge.model, "some-model");
}

#[test]
fn draw_char_sets_only_its_glyph_pixels() {
    let mut buffer = vec![0u32; VIS_WIDTH * VIS_HEIGHT];
    draw_char(&mut buffer, 10, 10, '1', 0xFFFFFF);
    // The glyph of '1' lights its middle column on the top row.
    assert_eq!(buffer[10 * 600 + 11], 0xFFFFFF);
    assert_eq!(buffer[10 * 600 + 10], 0);
    // Far away nothing changes.
    assert_eq!(buffer[0], 0);
    assert_eq!(buffer[300 * 600 + 300], 0);
}

#[test]
fn draw_text_advances_between_glyphs() {
    let mut buffer = vec![0u32; VIS_WIDTH * VIS_HEIGHT];
    draw_text(&mut buffer, 20, 20, "10", 0x00FF00);
    // '1' at x=20 lights column 21 on its top row; '0' at x=24 lights
    // its full top row.
    assert_eq!(buffer[20 * 600 + 21], 0x00FF00);
    assert_eq!(buffer[20 * 600 + 24], 0x00FF00);
    assert_eq!(buffer[20 * 600 + 26], 0x00FF00);
}
