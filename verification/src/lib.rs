//! Real-time integer-factor oversampling for streaming blocks of samples.
//!
//! The pipeline per call: zero-stuff the input block by the oversampling
//! factor, band-limit it with a fixed-length cyclic convolution, hand the
//! oversampled samples to a caller-supplied stage, band-limit again, and
//! decimate back to the original rate.  A carry buffer turns the fixed-length
//! cyclic convolutions into an artifact-free linear filtering of the stream.
//!
//! Samples are exact integers, so every transform in this crate is specified
//! and proved exactly, down to the value of each output sample.

pub mod conv;
pub mod fft_convolve;
pub mod math;
pub mod overlap_add;
pub mod oversampling;
pub mod processor;
pub mod utils;
