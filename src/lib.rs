//! A vibrato effect on fixed-point audio: a delay line per channel, read at a
//! position that a sine oscillator sweeps around a base delay.
//!
//! Samples are `i32`. Fractional positions carry `fixed::ONE` units per
//! sample; times are in microseconds and frequencies in millihertz.
pub mod fixed;
pub mod ring_buffer;
pub mod sine;
pub mod lfo;
pub mod vibrato;

pub use fixed::ONE;
pub use lfo::LFO;
pub use ring_buffer::RingBuffer;
pub use vibrato::{Error, Param, VFilter};
