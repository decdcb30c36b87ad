//! Audio encoding strategies.  Capturing audio and the spectral
//! encoders work on floating-point sample buffers through outside
//! crates, so they live outside the library; the strategy chosen is
//! plain data and belongs here.
use vstd::prelude::*;

verus! {

/// Encoding strategy for audio input.
#[derive(Clone, Copy)]
pub enum AudioEncoding {
    /// Frequency bins as comma-separated values.
    FrequencyBins { bin_count: usize },
    /// Frequency bands as glyphs.
    BandSymbols { bands: usize },
    /// Onset and beat events.
    OnsetEvents,
    /// Amplitude envelope over time.
    AmplitudeEnvelope { sample_rate_ms: usize },
    /// Pitch estimation.
    PitchDetection,
}

} // verus!
