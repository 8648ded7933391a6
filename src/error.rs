//! Errors of graph construction and analysis.
use vstd::prelude::*;

verus! {

/// The I/O error type of the standard library, carried through unread.
#[verifier::external_type_specification]
#[verifier::external_body]
pub struct ExIoError(std::io::Error);

/// Error type for graph and analysis operations.
#[derive(Debug)]
pub enum Error {
    /// An input could not be read.
    Io(std::io::Error),
    /// A line of GFA text is malformed; lines are counted from 1.
    MalformedLine { line: usize },
    /// A build-phase operation was called on a finalized graph.
    Finalized,
    /// A query that needs a finalized graph was called before `finalize`.
    NotFinalized,
    /// A vertex with this ID is already in the graph.
    DuplicateVertex { id: u64 },
    /// A path name is empty or holds a tab or a line break.
    InvalidPathName,
    /// The edge at this index names a vertex ID that is not in the graph.
    DanglingEdge { edge: usize, vertex_id: u64 },
    /// The path at this index steps on a vertex ID that is not in the graph.
    DanglingStep { path: usize, vertex_id: u64 },
    /// The graph has no variation relative to the chosen reference.
    NoVariationFound,
    /// No reference path is selected, or no selected path has a step.
    InvalidBackbone,
    /// An analysis was used with a graph whose backbone does not hold its regions.
    AnalysisMismatch,
    /// A backbone coordinate does not fit in a `u64`.
    Overflow,
}

/// Result type of graph and analysis operations.
pub type Result<T> = core::result::Result<T, Error>;

} // verus!
