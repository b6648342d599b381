//! Compacted A-Bruijn graph construction from a table of solid k-mers: the
//! two-bit k-mer codec, the gap-tolerant graph of solid k-mers, the walk that
//! extracts unitigs, and the graph that links unitigs through their end
//! k-mers.

pub mod bitset;
pub mod cli;
pub mod codec;
pub mod error;
pub mod graph;
pub mod utils;
