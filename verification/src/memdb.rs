//! The in-memory cache of opened database handles.  A handle stands for
//! one expensive open of a database file; it records which identity it
//! serves and the content fingerprint of the file generation it was
//! opened against, so a stale handle is distinguishable from a fresh one.
use vstd::prelude::*;

use crate::sdkinfo::{SdkInfo, SdkInfoView};

verus! {

/// Mathematical view of an opened database handle.
pub struct MemDbView {
    pub info: SdkInfoView,
    pub etag: Seq<char>,
}

/// A shared handle onto one opened database.
#[derive(Debug)]
pub struct MemDb {
    info: SdkInfo,
    etag: String,
}

impl View for MemDb {
    type V = MemDbView;

    closed spec fn view(&self) -> MemDbView {
        MemDbView { info: self.info@, etag: self.etag@ }
    }
}

impl Clone for MemDb {
    fn clone(&self) -> (r: Self)
        ensures
            r@ == self@,
    {
        MemDb { info: self.info.clone(), etag: self.etag.clone() }
    }
}

impl MemDb {
    /// Opens a handle for an identity against the file generation whose
    /// content fingerprint is `etag`.
    pub(crate) fn open(info: SdkInfo, etag: String) -> (r: MemDb)
        ensures
            r@ == (MemDbView { info: info@, etag: etag@ }),
    {
        MemDb { info, etag }
    }

    /// The identity the handle serves.
    pub fn info(&self) -> (r: &SdkInfo)
        ensures
            r@ == self@.info,
    {
        &self.info
    }

    /// The content fingerprint of the file generation the handle was
    /// opened against.
    pub fn etag(&self) -> (r: &str)
        ensures
            r@ == self@.etag,
    {
        self.etag.as_str()
    }
}

pub(crate) open spec fn handles_distinct(s: Seq<MemDb>) -> bool {
    forall|i: int, j: int|
        0 <= i < j < s.len() ==> (#[trigger] s[i])@.info != (#[trigger] s[j])@.info
}

/// The map that a sequence of handles stands for, keyed by identity.
pub(crate) open spec fn handle_map_of(s: Seq<MemDb>) -> Map<SdkInfoView, MemDbView>
    decreases s.len(),
{
    if s.len() == 0 {
        Map::empty()
    } else {
        handle_map_of(s.drop_last()).insert(s.last()@.info, s.last()@)
    }
}

pub(crate) proof fn lemma_handle_map_contains(s: Seq<MemDb>, k: SdkInfoView)
    ensures
        handle_map_of(s).contains_key(k) <==> exists|i: int|
            0 <= i < s.len() && (#[trigger] s[i])@.info == k,
    decreases s.len(),
{
    if s.len() > 0 {
        let pre = s.drop_last();
        lemma_handle_map_contains(pre, k);
        if s.last()@.info == k {
            assert(s[s.len() - 1]@.info == k);
        } else {
            if handle_map_of(pre).contains_key(k) {
                let i = choose|i: int| 0 <= i < pre.len() && (#[trigger] pre[i])@.info == k;
                assert(s[i]@.info == k);
            }
            if exists|i: int| 0 <= i < s.len() && (#[trigger] s[i])@.info == k {
                let i = choose|i: int| 0 <= i < s.len() && (#[trigger] s[i])@.info == k;
                assert(i < s.len() - 1);
                assert(pre[i]@.info == k);
            }
        }
    }
}

pub(crate) proof fn lemma_handle_map_get(s: Seq<MemDb>, k: SdkInfoView, i: int)
    requires
        handles_distinct(s),
        0 <= i < s.len(),
        s[i]@.info == k,
    ensures
        handle_map_of(s).contains_key(k),
        handle_map_of(s)[k] == s[i]@,
    decreases s.len(),
{
    let pre = s.drop_last();
    if i == s.len() - 1 {
    } else {
        assert(s[i]@.info != s[s.len() - 1]@.info);
        assert(handles_distinct(pre)) by {
            assert(forall|a: int, b: int|
                0 <= a < b < pre.len() ==> (#[trigger] pre[a]) == s[a] && (#[trigger] pre[b])
                    == s[b]);
        }
        lemma_handle_map_get(pre, k, i);
    }
}

/// The cache: identities mapped to shared handles.
#[derive(Debug)]
pub(crate) struct MemDbCache {
    handles: Vec<MemDb>,
}

impl View for MemDbCache {
    type V = Map<SdkInfoView, MemDbView>;

    closed spec fn view(&self) -> Map<SdkInfoView, MemDbView> {
        handle_map_of(self.handles@)
    }
}

impl MemDbCache {
    pub(crate) closed spec fn wf(&self) -> bool {
        handles_distinct(self.handles@)
    }

    pub(crate) fn new() -> (r: MemDbCache)
        ensures
            r.wf(),
            r@ == Map::<SdkInfoView, MemDbView>::empty(),
    {
        MemDbCache { handles: Vec::new() }
    }

    /// The cached handle for an identity, if one is present.
    pub(crate) fn get(&self, info: &SdkInfo) -> (r: Option<&MemDb>)
        requires
            self.wf(),
        ensures
            match r {
                Some(h) => self@.contains_key(info@) && h@ == self@[info@] && h@.info == info@,
                None => !self@.contains_key(info@),
            },
    {
        let n = self.handles.len();
        let mut i: usize = 0;
        while i < n
            invariant
                0 <= i <= n,
                n == self.handles.len(),
                self.wf(),
                forall|k: int| 0 <= k < i ==> (#[trigger] self.handles@[k])@.info != info@,
            decreases n - i,
        {
            if self.handles[i].info().equals(info) {
                proof {
                    lemma_handle_map_get(self.handles@, info@, i as int);
                }
                return Some(&self.handles[i]);
            }
            i = i + 1;
        }
        proof {
            lemma_handle_map_contains(self.handles@, info@);
        }
        None
    }

    /// Caches a handle for an identity not yet present.
    pub(crate) fn insert(&mut self, handle: MemDb)
        requires
            old(self).wf(),
            !old(self)@.contains_key(handle@.info),
        ensures
            final(self).wf(),
            final(self)@ == old(self)@.insert(handle@.info, handle@),
    {
        proof {
            lemma_handle_map_contains(self.handles@, handle@.info);
        }
        let ghost pre = self.handles@;
        self.handles.push(handle);
        proof {
            assert(self.handles@.drop_last() =~= pre);
            assert(handles_distinct(self.handles@)) by {
                assert(forall|a: int|
                    0 <= a < pre.len() ==> (#[trigger] self.handles@[a]) == pre[a]);
            }
        }
    }

    /// Evicts the handle for an identity, if any; the handle itself is
    /// only released once every holder has dropped its share.
    pub(crate) fn remove(&mut self, info: &SdkInfo)
        requires
            old(self).wf(),
        ensures
            final(self).wf(),
            final(self)@ == old(self)@.remove(info@),
    {
        let mut out: Vec<MemDb> = Vec::new();
        let n = self.handles.len();
        let mut i: usize = 0;
        proof {
            assert(self.handles@.subrange(0, 0) =~= Seq::<MemDb>::empty());
            assert(handle_map_of(out@) =~= handle_map_of(self.handles@.subrange(0, 0)).remove(
                info@,
            ));
        }
        while i < n
            invariant
                0 <= i <= n,
                n == self.handles.len(),
                handles_distinct(self.handles@),
                handle_map_of(out@) == handle_map_of(self.handles@.subrange(0, i as int)).remove(
                    info@,
                ),
                handles_distinct(out@),
                forall|j: int| 0 <= j < out@.len() ==> (#[trigger] out@[j])@.info != info@,
                forall|j: int|
                    0 <= j < out@.len() ==> exists|l: int|
                        0 <= l < i && (#[trigger] out@[j])@.info == self.handles@[l]@.info,
            decreases n - i,
        {
            let ghost pre = self.handles@.subrange(0, i as int);
            let ghost cur = self.handles@[i as int];
            proof {
                assert(self.handles@.subrange(0, i + 1).drop_last() =~= pre);
                assert(self.handles@.subrange(0, i + 1).last() == cur);
            }
            if !self.handles[i].info().equals(info) {
                let ghost out_pre = out@;
                out.push(self.handles[i].clone());
                proof {
                    assert(out@.drop_last() =~= out_pre);
                    assert(out@.last()@ == cur@);
                    assert(handle_map_of(out@) =~= handle_map_of(
                        self.handles@.subrange(0, i + 1),
                    ).remove(info@));
                    assert(forall|j: int|
                        0 <= j < out_pre.len() ==> (#[trigger] out_pre[j])@.info != cur@.info);
                    assert(handles_distinct(out@)) by {
                        assert(forall|a: int|
                            0 <= a < out_pre.len() ==> (#[trigger] out@[a]) == out_pre[a]);
                    }
                }
            } else {
                proof {
                    assert(handle_map_of(out@) =~= handle_map_of(
                        self.handles@.subrange(0, i + 1),
                    ).remove(info@));
                }
            }
            i = i + 1;
        }
        proof {
            assert(self.handles@.subrange(0, n as int) =~= self.handles@);
        }
        self.handles = out;
    }
}

} // verus!
