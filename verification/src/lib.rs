//! Unsigned variable-length integer codec.
//!
//! A `UVarInt` wraps a native 128-bit unsigned integer and converts to and
//! from the little-endian base-128 wire encoding: each output byte carries a
//! 7-bit chunk of the value in its low bits, least-significant chunk first,
//! and the high bit of every byte except the last is set as a continuation
//! marker. Encodings are limited to 9 bytes, so every value below `2^63` is
//! representable and anything larger is rejected at encode time.

pub mod uvarint;
