//! Streaming sample-rate conversion with a polyphase windowed-sinc filter bank.
//!
//! All signal values are fixed-point numbers: an `i32` holds the signal value
//! scaled by `2^20` (see [`sample::FRAC_ONE`]), so the nominal signal range
//! `[-1.0, 1.0]` is `[-FRAC_ONE, FRAC_ONE]`.  Input and output sample formats
//! (signed or offset-encoded 16 bit) are converted to and from this fixed-point
//! form by the [`sample::Sample`] trait.

pub mod arith;
pub mod error;
pub mod filtering;
pub mod filters;
pub mod laws;
pub mod sample;
pub mod samplerate;
