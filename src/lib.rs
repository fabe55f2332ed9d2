//! A bounded-memory frequency counter.
//!
//! Keys are counted in a small set-associative table (`StackHashCounter`);
//! entries pushed out of a full bucket keep their counts and go to an
//! append-only overflow log (`TempFdArray`) whose full blocks are written to
//! backing storage as fixed-width little-endian records. A `Collector` ties
//! the two together into one counting session.
pub mod entry;
pub mod bucket;
pub mod counter;
pub mod log;
pub mod collector;
