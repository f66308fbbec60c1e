//! Concurrent chunked aggregation of `name;value` measurement records.
//!
//! The input is a byte stream of lines, each holding a station name and a
//! decimal value with one fractional digit, separated by `;`.  The library
//! splits the stream into record-aligned chunks, aggregates each chunk into a
//! private table of per-name summaries (minimum, maximum, sum, count), merges
//! those tables into one shared table, and renders the result as a single
//! sorted line.  Every step is specified against a mathematical model of the
//! record stream, so the rendered output is proved to be a function of the
//! input bytes alone: chunk sizes and merge order cannot change it.

pub mod chunk;
pub mod order;
pub mod pipeline;
pub mod records;
pub mod render;
pub mod table;
pub mod values;
