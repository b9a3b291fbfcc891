//! Streaming polyphase sample-rate conversion for interleaved PCM.

pub mod agreement;
pub mod arithmetic;
pub mod backend;
pub mod bank;
pub mod behaviour;
pub mod cache;
pub mod config;
pub mod design;
pub mod filter_meaning;
pub mod fir;
pub mod host;
pub mod kernels;
pub mod laws;
pub mod meaning;
pub mod precision;
pub mod promises;
pub mod resampler;
pub mod rounding;
pub mod stream;
pub mod wide;

pub use crate::config::{Error, FilterInfo, FilterLength, FilterLengthPolicy};

pub use crate::resampler::Resampler;
