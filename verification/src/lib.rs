//! Library for compressing small amounts of structured data.
//!
//! Bounded-domain values (booleans, integer ranges, fixed-point numbers,
//! characters of a finite alphabet, enumerated strings) are packed losslessly
//! into a single arbitrary-precision integer in a mixed radix, one radix per
//! field. The accumulator supplies the multi-word arithmetic; the data layer
//! maps values to integer codes and drives the packing.

pub mod accum;
pub mod data;
pub mod digits;
