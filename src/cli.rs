//! The parameters of a run.
use vstd::prelude::*;

verus! {

/// The parameters common to both sources of solid k-mers.
#[derive(Debug, Clone, PartialEq, Eq)]
pub struct Command {
    /// Path of the GFA output.
    pub graph: String,
    /// Path of the FASTA output.
    pub unitigs: String,
    /// Path of the optional k-mer graph output.
    pub kmer: Option<String>,
    /// The largest depth at which neighbours are looked for.
    pub edge_threshold: u8,
    pub subcmd: SubCommand,
    pub unicorn: bool,
}

/// Where the solid k-mers come from.
#[derive(Debug, Clone, PartialEq, Eq)]
pub enum SubCommand {
    /// A solidity bitfield written by a k-mer counter.
    Count(Count),
    /// Reads, counted here.
    Reads(Reads),
}

#[derive(Debug, Clone, PartialEq, Eq)]
pub struct Count {
    pub input: String,
}

#[derive(Debug, Clone, PartialEq, Eq)]
pub struct Reads {
    pub input: String,
    pub kmer_size: u8,
    pub abundance_min: u8,
}

} // verus!
