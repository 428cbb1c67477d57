//! Trimming a genome-assembly graph, given in the line-oriented GFA text
//! format, to the sub-graph induced by a chosen subset of its paths and
//! walks: every segment, link and jump that no kept path or walk touches is
//! dropped, and everything else passes through unchanged.

pub mod aggregate;
pub mod decode;
pub mod filter;
pub mod laws;
pub mod pipeline;
pub mod elements;
pub mod text;

use vstd::prelude::*;

verus! {

/// Why a run was aborted: the input does not have the shape the format
/// promises, and a partially filtered graph would be silently wrong.
#[derive(Clone, Copy, Debug, PartialEq, Eq, Structural)]
pub enum GraphError {
    /// A path or walk token cannot be decoded into an oriented node.
    ParseError,
    /// A record line has fewer tab-delimited fields than its schema requires.
    MalformedRecord,
}

} // verus!
