//! Pairs the records of two FASTQ texts, the two mates of a sequencing run,
//! by the identifier in their headers.
use vstd::prelude::*;

pub mod header;
pub mod io;
pub mod iter_both;
pub mod laws;
pub mod pairing;
pub mod seek;
pub mod store_read;
pub mod text;

pub use io::{convert_to_fastq, finalize, is_gzipped, Output};
pub use header::{parse_header, trim_header};
pub use text::{parse_read, Read, Scan, Source};

verus! {

/// Why a pairing could not be done.
#[derive(Clone, Copy, Debug, PartialEq, Eq, Structural)]
pub enum PairError {
    /// A header has no first token, or that token is shorter than its
    /// two-character mate marker.
    MalformedHeader,
    /// A text ends after a header line but before the quality line.
    TruncatedRecord,
}

/// Subset of a record that excludes its header.
#[derive(Debug)]
pub struct PartialRead {
    pub seq: String,
    pub qscore: String,
}

} // verus!
