//! Exact-arithmetic core of a gamma-spectra normalization pipeline.
//!
//! Measured quantities are decimal numbers written in a text table; this
//! library parses them exactly (as integer mantissa and power-of-ten scale),
//! assembles the experimental and theoretical records, derives the
//! least-squares normalization constants, and rescales the experimental
//! series, all without rounding.  Reading and writing the files, and the
//! chart rendering, stay outside the library.

pub mod dec;
pub mod error;
pub mod fmt;
pub mod parse;
pub mod norm;
pub mod pipeline;
pub mod records;
pub mod text;
pub mod thermal;
