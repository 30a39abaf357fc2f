//! A declarative, multi-source key-join over tabular data.
//!
//! A join specification names one or more source tables, a shared join key
//! (one or more columns), and a per-source column projection.  Each source is
//! indexed into an insertion-ordered mapping from composite key to projected
//! values, and the indexed sources are then combined into a single output
//! table: the key columns followed by every source's projected columns, one
//! row per key of the first (driver) source.

pub mod codec;
pub mod errors;
pub mod indexed;
pub mod join;
pub mod laws;
pub mod model;
pub mod pipeline;
pub mod tables;
