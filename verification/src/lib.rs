//! Building blocks of a chunked, parallel aggregation over delimited text
//! lines: splitting lines into records, grouping a line stream into batches,
//! per-worker keyed tables, and the ordered merge of those tables.
//!
//! The library deals in lines and keys. It hands the value of a record on as
//! text and holds the statistics of a key as a value of the caller's type, so
//! the arithmetic on the values is the caller's.

pub mod record;
pub mod order;
pub mod table;
pub mod batch;
pub mod merge;
pub mod pipeline;
