//! Seeded melody generation and single-track event encoding.
//!
//! `config` holds the generation parameters and the scale tables, `rng`
//! the seeded pseudorandom source, `generator` the step-by-step melody
//! rules, `encoder` the ordered delta-time event stream, `playback` the
//! decisions of the real-time replay loop and `pitch` the reading of pitch
//! names such as `F#5`.

pub mod config;
pub mod encoder;
pub mod generator;
pub mod pitch;
pub mod playback;
pub mod rng;
