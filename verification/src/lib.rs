//! Per-key statistics over newline-delimited `key;value` records, built so that a
//! large input can be cut into byte ranges, each range summarised on its own, and
//! the partial summaries folded together in any order.
//!
//! Readings are held as whole tenths of a unit, so every sum is exact and the
//! outcome does not depend on the order in which the ranges are folded.
//!
//! - `stat`: the count, least, greatest and sum of the readings of one key.
//! - `align`: where to read for a chunk, and trimming what was read to whole records.
//! - `record`: the text of one record.
//! - `hash`: the hash of a key.
//! - `summary`: the statistics of every key, and folding one summary into another.
//! - `chunk`: summarising one window, and why windows may be cut at any boundary.
//! - `aggregate`: a whole file in memory, chunk by chunk.
//! - `report`: the rows of the outcome in the order of their keys, and their text.

pub mod aggregate;
pub mod align;
pub mod chunk;
pub mod hash;
pub mod record;
pub mod report;
pub mod stat;
pub mod summary;
