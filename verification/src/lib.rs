//! A local stash of large symbol databases kept in sync with a remote catalog.
//!
//! The stash reconciles the set of databases it holds on disk against a
//! remote catalog, persists what it believes it holds in a durable state
//! record with a monotonically increasing revision, shares lazily opened
//! database handles across readers, and resolves approximate identifiers
//! to the closest known entries.
use vstd::prelude::*;

pub mod memdb;
pub mod rank;
pub mod sdkinfo;
pub mod stash;
pub mod state;
pub mod status;
pub mod store;
pub mod text;

verus! {

/// Errors surfaced by the stash to its callers.
#[derive(Debug, Clone, Copy, PartialEq, Eq, Structural)]
pub enum StashError {
    /// The remote catalog is unreachable; recoverable, shown as "offline"
    /// by health checks, but fatal to an in-progress sync.
    Unavailable,
    /// The local durable state file exists but cannot be parsed.
    CorruptState,
    /// The requested identity is not present in local state.
    UnknownIdentity,
    /// A filesystem failure other than "not found".
    Io,
    /// A textual identifier that does not parse into a valid identity.
    InvalidIdentifier,
}

/// Outcome of asking the remote catalog for its full listing.
#[derive(Debug, Clone, Copy, PartialEq, Eq, Structural)]
pub enum CatalogError {
    /// The catalog is unreachable (offline); distinguished from fatal errors.
    Unavailable,
    /// Any other, fatal catalog failure.
    Other,
}

/// Options for a sync run.  The flag only controls how progress is
/// reported to a person watching; it has no effect on the result.
pub struct SyncOptions {
    pub user_facing: bool,
}

impl Default for SyncOptions {
    fn default() -> (rv: SyncOptions)
        ensures
            !rv.user_facing,
    {
        SyncOptions { user_facing: false }
    }
}

} // verus!
