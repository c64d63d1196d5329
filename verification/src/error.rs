//! Error kinds reported by the commit-graph engine.

use vstd::prelude::*;

verus! {

/// The failures that the engine itself can report. Failures of external
/// collaborators (the object store, the event replayer) stay with the caller.
#[derive(Debug, Clone, Copy, PartialEq, Eq, Structural)]
pub enum DagError {
    /// A byte sequence could not be parsed as a commit identifier.
    Codec,
    /// A non-zero commit identifier was required, but the zero sentinel
    /// appeared.
    UnexpectedZeroOid,
    /// The commit has no parents.
    NoParents,
    /// The commit has more than one parent.
    MultipleParents,
}

} // verus!
