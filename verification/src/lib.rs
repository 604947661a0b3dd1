//! A weighted-digit sampling library.
//!
//! A `WeightTable` maps each decimal digit to a non-negative integer weight,
//! loaded from comma-separated rows of `(digit, frequency)` text or, when
//! loading fails, from a fixed fallback sequence. A sampler draws single
//! digits with probability proportional to their weights and assembles
//! fixed-length digit strings from independent draws.

pub mod digits;
pub mod sample;
pub mod table;
