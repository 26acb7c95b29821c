//! A verified streaming aggregator for delimited measurement files.
//!
//! The input is plain text: one record per line, `key;value`, where `value`
//! is a base-10 number in fixed-point or scientific notation. The library
//! folds every well-formed record into one running statistic per distinct
//! key (minimum, maximum, count, sum) and renders one output line per key,
//! `key;mean;min;max`, with six digits after the decimal point.
//!
//! Measurements are held exactly, as integer multiples of `1e-6` (micro
//! units), so every statistic in this crate is exact integer arithmetic and
//! is verified as such. Values outside `±(2^63 - 1)` micro units, or with
//! more than 25 significant digits, are treated as unparsable and skipped,
//! like any other malformed record.

pub mod arith;
pub mod digits;
pub mod laws;
pub mod parse;
pub mod pipeline;
pub mod render;
pub mod stats;
pub mod table;
pub mod utf8;
