//! Verified core of a software-defined-radio signal pipeline.
//!
//! Raw captures arrive as interleaved unsigned 8-bit I/Q bytes. The library
//! decodes them to fixed-point complex baseband samples, extracts the
//! amplitude of a single target frequency per fixed-size chunk, smooths the
//! amplitude stream, converts sample rates by linear interpolation, and
//! composes these stages into the two supported pipeline modes.
//!
//! All sample values are exact fixed-point integers: a signal value `v`
//! stands for the real number `v / 32768`. Keeping the arithmetic integral
//! makes every stage's behaviour a provable function of its inputs; the
//! surrounding application converts to and from floating point only at the
//! unverified rendering and file-format edges.

pub mod config;
pub mod decode;
pub mod edge;
pub mod narrowband;
pub mod passthrough;
pub mod pipeline;
pub mod rate;
