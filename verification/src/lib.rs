//! A verified codec for the standard polyline format: a reversible,
//! delta-coded, variable-length base-32 representation of a path of
//! coordinates.
//!
//! The verified core works on *scaled* coordinates: each axis is an `i64`
//! holding the coordinate already multiplied by the precision scale
//! (`10^p`) and rounded to the nearest integer.  Scaling a floating-point
//! coordinate up and back down is the caller's side of the contract; the
//! codec itself is exact integer arithmetic and is proved so.
//!
//! Axis order: the first component of each pair is emitted first, the
//! second component second, and decoding returns them in the same order.

pub mod codec;
pub mod laws;
