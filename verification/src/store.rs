//! Crash-safe persistence protocol for the sync state: a model of the
//! state file and its sibling temporary file.  A write always goes to the
//! temporary file first and is then renamed over the canonical name, so an
//! observer at any point sees either the previous complete state or the
//! new complete state, never a half-written one.
use vstd::prelude::*;

use crate::state::{SdkSyncState, SyncStateView};

verus! {

/// Mathematical view of the store: the parsed content of the canonical
/// state file and of the temporary file, where present.
pub struct StateStoreView {
    pub canonical: Option<SyncStateView>,
    pub temp: Option<SyncStateView>,
}

/// The durable store for the sync state.
pub struct StateStore {
    canonical: Option<SdkSyncState>,
    temp: Option<SdkSyncState>,
}

impl View for StateStore {
    type V = StateStoreView;

    closed spec fn view(&self) -> StateStoreView {
        StateStoreView {
            canonical: match self.canonical {
                Some(ref s) => Some(s@),
                None => None,
            },
            temp: match self.temp {
                Some(ref s) => Some(s@),
                None => None,
            },
        }
    }
}

impl StateStore {
    /// The states the store holds are well-formed.
    pub closed spec fn wf(&self) -> bool {
        &&& match self.canonical {
            Some(ref s) => s.wf(),
            None => true,
        }
        &&& match self.temp {
            Some(ref s) => s.wf(),
            None => true,
        }
    }

    /// Opens a store over what is on disk: the canonical state file's
    /// parsed content, or `None` when the file is absent.
    pub fn new(on_disk: Option<SdkSyncState>) -> (r: StateStore)
        requires
            match on_disk {
                Some(ref s) => s.wf(),
                None => true,
            },
        ensures
            r.wf(),
            r@.canonical == match on_disk {
                Some(ref s) => Some(s@),
                None => None::<SyncStateView>,
            },
            r@.temp is None,
    {
        StateStore { canonical: on_disk, temp: None }
    }

    /// The canonical state, if one has been written.
    pub fn read(&self) -> (r: Option<&SdkSyncState>)
        requires
            self.wf(),
        ensures
            match r {
                Some(s) => self@.canonical == Some(s@) && s.wf(),
                None => self@.canonical is None,
            },
    {
        match self.canonical {
            Some(ref s) => Some(s),
            None => None,
        }
    }

    /// The first half of the protocol: writes the new state to the
    /// temporary file.  The canonical state is untouched, so a crash after
    /// this point leaves the prior durable state fully intact.
    pub fn write_temp(&mut self, state: SdkSyncState)
        requires
            old(self).wf(),
            state.wf(),
        ensures
            final(self).wf(),
            final(self)@.canonical == old(self)@.canonical,
            final(self)@.temp == Some(state@),
    {
        self.temp = Some(state);
    }

    /// The second half of the protocol: atomically renames the temporary
    /// file over the canonical name.
    pub fn commit_temp(&mut self)
        requires
            old(self).wf(),
            old(self)@.temp is Some,
        ensures
            final(self).wf(),
            final(self)@.canonical == old(self)@.temp,
            final(self)@.temp is None,
    {
        let t = self.temp.take();
        self.canonical = t;
    }

    /// The whole protocol: temp write, then atomic rename.
    pub fn write(&mut self, state: SdkSyncState)
        requires
            old(self).wf(),
            state.wf(),
        ensures
            final(self).wf(),
            final(self)@.canonical == Some(state@),
            final(self)@.temp is None,
    {
        self.write_temp(state);
        self.commit_temp();
    }
}

} // verus!
