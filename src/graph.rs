//! The solid k-mer graph and the unitig graph built over it.

pub mod kmer;
pub mod ungraph;
pub mod unitig;

pub use kmer::{Graph, Viewed};
