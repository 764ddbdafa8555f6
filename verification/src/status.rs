//! A derived, read-only snapshot of how far the local cache lags behind
//! the remote catalog.
use vstd::prelude::*;

verus! {

/// Mathematical view of a health snapshot.
pub struct SyncStatusView {
    pub remote_total: u32,
    pub missing: u32,
    pub different: u32,
    pub revision: u64,
    pub offline: bool,
}

/// The health rule: offline is a valid steady state and counts as healthy;
/// online, the lag must stay under a tenth of the remote total.  The
/// comparison is exact (`10 * lag < total`), so an online stash facing an
/// empty remote catalog counts as unhealthy.
pub open spec fn spec_healthy(v: SyncStatusView) -> bool {
    v.offline || 10 * (v.missing + v.different) < v.remote_total
}

/// Information about the health of the stash sync.
#[derive(Debug)]
pub struct SyncStatus {
    remote_total: u32,
    missing: u32,
    different: u32,
    revision: u64,
    offline: bool,
}

impl View for SyncStatus {
    type V = SyncStatusView;

    closed spec fn view(&self) -> SyncStatusView {
        SyncStatusView {
            remote_total: self.remote_total,
            missing: self.missing,
            different: self.different,
            revision: self.revision,
            offline: self.offline,
        }
    }
}

impl SyncStatus {
    /// Well-formedness: missing and differing entries are disjoint
    /// classes of the remote total.
    pub closed spec fn wf(&self) -> bool {
        self@.missing + self@.different <= self@.remote_total
    }

    /// Builds a snapshot; the counts of missing and differing entries
    /// cannot exceed the remote total.
    pub fn new(remote_total: u32, missing: u32, different: u32, revision: u64, offline: bool)
        -> (r: SyncStatus)
        requires
            missing + different <= remote_total,
        ensures
            r.wf(),
            r@ == (SyncStatusView { remote_total, missing, different, revision, offline }),
    {
        SyncStatus { remote_total, missing, different, revision, offline }
    }

    /// Indicates that the stash is running offline (no remote access).
    pub fn is_offline(&self) -> (r: bool)
        ensures
            r == self@.offline,
    {
        self.offline
    }

    /// The lag: how many databases the local cache is behind upstream.
    pub fn lag(&self) -> (r: u32)
        requires
            self.wf(),
        ensures
            r == self@.missing + self@.different,
    {
        self.missing + self.different
    }

    /// Whether the local sync still counts as healthy; see `spec_healthy`.
    pub fn is_healthy(&self) -> (r: bool)
        requires
            self.wf(),
        ensures
            r == spec_healthy(self@),
    {
        if self.offline {
            true
        } else {
            let lag: u64 = (self.missing as u64) + (self.different as u64);
            10 * lag < (self.remote_total as u64)
        }
    }

    /// How many remote entries the snapshot covers (ignored ones left out).
    pub fn remote_total(&self) -> (r: u32)
        ensures
            r == self@.remote_total,
    {
        self.remote_total
    }

    /// How many non-ignored remote entries have no local counterpart.
    pub fn missing(&self) -> (r: u32)
        ensures
            r == self@.missing,
    {
        self.missing
    }

    /// How many non-ignored remote entries differ from the local copy.
    pub fn different(&self) -> (r: u32)
        ensures
            r == self@.different,
    {
        self.different
    }

    /// The revision of the stash when the snapshot was taken.
    pub fn revision(&self) -> (r: u64)
        ensures
            r == self@.revision,
    {
        self.revision
    }
}

} // verus!
