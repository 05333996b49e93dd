//! Bookkeeping for instrumented byte streams: an append-only log of read and
//! seek outcomes with a cursor and an inferred stream size, and a
//! chunk-bucketed summary of that log.

pub mod outcome;
pub mod reader;
pub mod report;
pub mod tracker;
