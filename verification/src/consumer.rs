use vstd::prelude::*;

verus! {

/// The mode used when committing consumer offsets.
///
/// - [`CommitMode::Sync`] — blocks until the commit completes
/// - [`CommitMode::Async`] — fires the commit request and returns immediately
#[derive(Debug, Clone, Copy, PartialEq, Eq, Structural)]
pub enum CommitMode {
    /// Synchronous commit — blocks until the offset is fully committed.
    Sync,
    /// Asynchronous commit — returns immediately after dispatching the request.
    Async,
}

} // verus!
