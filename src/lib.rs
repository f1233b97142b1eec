//! Core of a PCM audio toolkit: bit-depth requantization with
//! error-feedback dither, and a radix-2 spectral transform that is generic
//! over its sample arithmetic, with block-length selection and peak search.
pub mod error;
pub mod requantize;
pub mod spectrum;
