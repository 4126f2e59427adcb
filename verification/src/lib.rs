//! Streaming capture pipeline: interleaved frames at an arbitrary rate and
//! channel count become mono 16 kHz 16-bit PCM.
//!
//! The crate holds the session lifecycle, the streaming resampler, the
//! delivery encoding and the platform gate. The resampler is generic over
//! the sample type and takes the arithmetic on samples from its caller. What
//! it decides itself is on integers and independent of how the input is
//! chunked: the frames, the delay line, the decimation and the clamp.

pub mod delivery;
pub mod platform;
pub mod resampler;
pub mod session;

pub use delivery::produce_chunk;
pub use platform::is_supported;
pub use resampler::Resampler;
pub use session::{Lifecycle, SessionManager, StartError};
