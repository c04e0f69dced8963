//! Fundamental-frequency (pitch) estimation for short audio buffers with the
//! YIN algorithm: difference function, cumulative-mean normalized difference,
//! absolute-threshold period selection, and parabolic refinement.
//!
//! Samples are signed 16-bit integers (PCM amplitude); the normalized
//! difference is kept in a fixed-point scale and the refined lag is returned
//! as an exact rational, so the whole pipeline is integer arithmetic and is
//! verified end to end. Turning the lag into a frequency in hertz is a single
//! division by the sample rate, left to the caller.

pub mod laws;
pub mod yin;
