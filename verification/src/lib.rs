//! A reader and indexer for tab-delimited, line-oriented sequence-graph text
//! (segments with sequences, links between them, paths and walks across them).
//!
//! Lines are parsed into typed records whose variable-length text lives in a
//! single append-only arena buffer; records hold `(start, end)` slices into it.
//! A file can be parsed sequentially or split into line-aligned chunks that are
//! parsed independently and merged, re-basing every slice into the final arena.
//! Finalizing a graph sorts its segments by identifier and builds a lookup
//! index (a dense position table for compact numeric identifiers, binary
//! search otherwise).

use vstd::prelude::*;

pub mod bytes;
pub mod model;
pub mod records;
pub mod graph;
pub mod chunk;
pub mod laws;
pub mod pansn;

verus! {

/// How a parser run interprets identifier and annotation fields.
///
/// The same engine serves numeric graphs (identifiers become integers and
/// enable the dense lookup index) and textual graphs (identifiers become arena
/// slices). Optional annotation and overlap fields are stored in the arena
/// only when asked for; otherwise parsing them is a no-op.
#[derive(Clone, Copy, PartialEq, Eq, Structural, Debug)]
pub struct ParseMode {
    /// Parse identifiers as unsigned integers; a non-numeric identifier is a
    /// fatal parse error.
    pub digit_ids: bool,
    /// Keep the trailing optional annotation field of each record.
    pub store_opt: bool,
    /// Keep overlap fields of links and paths.
    pub store_overlap: bool,
}

} // verus!
