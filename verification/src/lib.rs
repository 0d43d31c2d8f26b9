//! A single-pass streaming scrubber for a phylogenetic-tree text format.
//!
//! The filter copies a fixed-length preamble verbatim, then runs a small
//! finite-state machine over the remaining bytes. The machine removes two
//! embedded annotation constructs - a region-list attribute and its
//! companion `.set` attribute - and preserves every other byte in order.

pub mod pattern;
pub mod machine;
pub mod filter;
pub mod laws;
