use vstd::prelude::*;

verus! {

/// Errors surfaced by the library. Each variant carries a human readable
/// detail: the offending input or the reason.
#[derive(Debug, Clone, PartialEq, Eq)]
pub enum Error {
    /// A configured branch exists neither locally nor remotely.
    BranchNotFound(String),
    /// An unknown grouping field name.
    InvalidSelector(String),
    /// The grouping tree was asked for a shape it does not have.
    InvalidIndex(String),
    /// A snapshot reference names no snapshot of the history.
    SnapshotDoesntExist(String),
    /// An unknown output format name.
    OutputType(String),
}

} // verus!
