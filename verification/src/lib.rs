//! Verified engine for summarizing large `entity;value` datasets.
//!
//! The input is newline-terminated text, one `name;value` record per line,
//! where `value` is a decimal with exactly one fractional digit.  The engine
//! splits the input into byte-range chunks, parses each chunk with a record
//! scanner, aggregates per-entity statistics (minimum, mean, maximum) into
//! partial tables, merges the tables, and renders one sorted output line per
//! entity.  The chunk claiming discipline guarantees that every record is
//! counted exactly once no matter how the byte ranges fall, and the merge is
//! commutative, so the result is independent of worker scheduling.

pub mod aggregate;
pub mod chunks;
pub mod fixed;
pub mod hash;
pub mod output;
pub mod parser;
pub mod records;
pub mod table;
