//! Streaming speech recognition with the LocalAgreement-2 policy.
//!
//! The recogniser is run over and over on a rolling window of audio. A word is committed once two
//! consecutive passes agree on it and on all words before it; what follows stays tentative.
//!
//! The crate makes the decisions and leaves the recogniser, the voice activity detector and
//! floating-point sample arithmetic to its caller. [`AsrPipeline`] turns source audio into
//! passes, [`OnlineAsrProcessor`] turns passes into committed words, and
//! [`hypothesis_buffer::HypothesisBuffer`] holds the policy itself.
pub mod audio;
pub mod error;
pub mod hypothesis_buffer;
pub mod laws;
pub mod online_asr;
pub mod pipeline;
pub mod resampler;
pub mod segments;
pub mod settings;
pub mod text;
pub mod time;

pub use audio::{downmix_interleaved, AudioInputConfig, AudioSample, ProcessInterval};
pub use error::Error;
pub use hypothesis_buffer::Word;
pub use online_asr::{OnlineAsrProcessor, ProcessOutput};
pub use pipeline::AsrPipeline;
pub use resampler::LinearResampler;
pub use settings::{DecodingStrategy, OnlineAsrConfig, VadConfig, VadModel};
pub use time::{Seconds, SAMPLE_RATE};
