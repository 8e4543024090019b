//! The detector response of a nonlinear scale space: for every level of an
//! evolution pyramid, the derivatives of the smoothed image at the level's
//! kernel scale and the scale-normalized determinant of their Hessian.
//!
//! Floating-point numbers are carried as their IEEE 754 bit patterns, and
//! the arithmetic on them is done on integers: samples are single-precision
//! numbers in `u32`, smoothing scales and the derivative factor are
//! double-precision numbers in `u64`.

pub mod detector_response;
pub mod evolution;
pub mod image;
mod lockstep;
pub mod rounding;
pub mod sample;
pub mod scale;
