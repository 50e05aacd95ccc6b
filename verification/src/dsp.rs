//! Small DSP building blocks.

pub mod chain;
pub mod delay;
pub mod gain;
pub mod low_pass;
