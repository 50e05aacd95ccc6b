//! Building blocks for audio processing: parameters, MIDI events, audio buffers, a processor
//! trait and a few processors.
//!
//! Samples are single-precision numbers held as bit patterns. Their arithmetic is defined over
//! the exact values that the patterns stand for, so that what a processor does to a block can be
//! stated and proved to the last bit.

pub mod audio;
pub mod dsp;
pub mod midi;
pub mod number;
pub mod parameter;
pub mod rounding;
pub mod sample;
