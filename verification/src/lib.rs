//! An evolving associative memory over a bounded region of the complex plane.
//!
//! Input text is hashed onto points of a rectangle of the complex plane,
//! escape-time dynamics at those points yield bit-pattern fingerprints,
//! and learned material is stored as symbols, trajectories and associative
//! fields.  Responses are generated by a weighted stochastic walk through
//! the learned trajectories.  All coordinates, scores and strengths are
//! fixed-point integers in micro-units, so every operation has an exact
//! integer semantics that the contracts below pin down.
#![verifier::loop_isolation(false)]

pub mod fixed;
pub mod fractal;
pub mod fingerprint;
pub mod memory;
pub mod text;
pub mod mind;
pub mod rng;
pub mod generate;
pub mod process;
pub mod codec;
pub mod image;
pub mod camera;
pub mod llm;
pub mod audio;
pub mod visualizer;

pub use audio::AudioEncoding;
pub use camera::{CameraEncoder, FrameEncoding};
pub use fingerprint::{hamming_distance, julia_fingerprint_from_mandelbrot};
pub use fractal::{
    contextual_mandelbrot_coord, find_nearby_interesting_points, hash_to_mandelbrot_coord,
    julia_escapes, mandelbrot_escapes, mandelbrot_stability, MandelbrotCoord,
};
pub use image::{encode_image_data, ImageEncoding, RawImage, VideoEncoder};
pub use llm::LLMBridge;
pub use memory::{AssociativeField, ConceptTrajectory, FractalSymbol};
pub use mind::FractalMind;
pub use visualizer::{draw_char, draw_text};
