//! Remote catalog entries and the durable sync-state record: which
//! databases the local cache believes it holds, with a revision counter.
use vstd::prelude::*;

use crate::sdkinfo::{SdkInfo, SdkInfoView};

verus! {

/// Mathematical view of one remote catalog entry.
pub struct RemoteSdkView {
    pub filename: Seq<char>,
    pub info: SdkInfoView,
    pub size: u64,
    pub etag: Seq<char>,
}

/// One database as the remote catalog describes it: its remotely visible
/// filename, its identity, its byte size and its content fingerprint.
/// Immutable once constructed; compared structurally, etag included.
#[derive(Debug, PartialEq, Eq)]
pub struct RemoteSdk {
    filename: String,
    info: SdkInfo,
    size: u64,
    etag: String,
}

impl View for RemoteSdk {
    type V = RemoteSdkView;

    closed spec fn view(&self) -> RemoteSdkView {
        RemoteSdkView {
            filename: self.filename@,
            info: self.info@,
            size: self.size,
            etag: self.etag@,
        }
    }
}

impl Clone for RemoteSdk {
    fn clone(&self) -> (r: Self)
        ensures
            r@ == self@,
    {
        RemoteSdk {
            filename: self.filename.clone(),
            info: self.info.clone(),
            size: self.size,
            etag: self.etag.clone(),
        }
    }
}

impl RemoteSdk {
    /// Creates a remote catalog entry from its parts.
    pub fn new(filename: String, info: SdkInfo, etag: String, size: u64) -> (r: RemoteSdk)
        ensures
            r@ == (RemoteSdkView { filename: filename@, info: info@, size, etag: etag@ }),
    {
        RemoteSdk { filename, info, etag, size }
    }

    /// The remotely visible filename for the entry.
    pub fn filename(&self) -> (r: &str)
        ensures
            r@ == self@.filename,
    {
        self.filename.as_str()
    }

    /// The size of the entry in bytes.
    pub fn size(&self) -> (r: u64)
        ensures
            r == self@.size,
    {
        self.size
    }

    /// The identity of the entry.
    pub fn info(&self) -> (r: &SdkInfo)
        ensures
            r@ == self@.info,
    {
        &self.info
    }

    /// The content fingerprint of the entry.
    pub fn etag(&self) -> (r: &str)
        ensures
            r@ == self@.etag,
    {
        self.etag.as_str()
    }

    /// Structural equality, etag included: detects changed content.
    pub fn equals(&self, other: &RemoteSdk) -> (r: bool)
        ensures
            r == (self@ == other@),
    {
        self.filename == other.filename && self.info.equals(&other.info) && self.size
            == other.size && self.etag == other.etag
    }
}

/// Mathematical view of the sync state: identities mapped to catalog-entry
/// snapshots, and the revision counter.
pub struct SyncStateView {
    pub sdks: Map<SdkInfoView, RemoteSdkView>,
    pub revision: Option<u64>,
}

/// The revision as a number: a never-synced fresh state counts as zero.
pub open spec fn revision_value(v: SyncStateView) -> int {
    match v.revision {
        Some(r) => r as int,
        None => 0,
    }
}

/// No two entries share an identity.
pub open spec fn seq_keys_distinct(s: Seq<RemoteSdk>) -> bool {
    forall|i: int, j: int|
        0 <= i < j < s.len() ==> (#[trigger] s[i])@.info != (#[trigger] s[j])@.info
}

/// The map that a sequence of entries stands for, keyed by identity.
pub open spec fn map_of(s: Seq<RemoteSdk>) -> Map<SdkInfoView, RemoteSdkView>
    decreases s.len(),
{
    if s.len() == 0 {
        Map::empty()
    } else {
        map_of(s.drop_last()).insert(s.last()@.info, s.last()@)
    }
}

pub proof fn lemma_map_of_contains(s: Seq<RemoteSdk>, k: SdkInfoView)
    ensures
        map_of(s).contains_key(k) <==> exists|i: int|
            0 <= i < s.len() && (#[trigger] s[i])@.info == k,
    decreases s.len(),
{
    if s.len() > 0 {
        let pre = s.drop_last();
        lemma_map_of_contains(pre, k);
        if s.last()@.info == k {
            assert(s[s.len() - 1]@.info == k);
        } else {
            if map_of(pre).contains_key(k) {
                let i = choose|i: int| 0 <= i < pre.len() && (#[trigger] pre[i])@.info == k;
                assert(s[i]@.info == k);
            }
            if exists|i: int| 0 <= i < s.len() && (#[trigger] s[i])@.info == k {
                let i = choose|i: int| 0 <= i < s.len() && (#[trigger] s[i])@.info == k;
                assert(i < s.len() - 1);
                assert(pre[i]@.info == k);
            }
        }
    }
}

pub proof fn lemma_map_of_get(s: Seq<RemoteSdk>, k: SdkInfoView, i: int)
    requires
        seq_keys_distinct(s),
        0 <= i < s.len(),
        s[i]@.info == k,
    ensures
        map_of(s).contains_key(k),
        map_of(s)[k] == s[i]@,
    decreases s.len(),
{
    let pre = s.drop_last();
    if i == s.len() - 1 {
    } else {
        assert(s[i]@.info != s[s.len() - 1]@.info);
        assert(seq_keys_distinct(pre)) by {
            assert(forall|a: int, b: int|
                0 <= a < b < pre.len() ==> (#[trigger] pre[a]) == s[a] && (#[trigger] pre[b])
                    == s[b]);
        }
        lemma_map_of_get(pre, k, i);
    }
}

pub proof fn lemma_map_of_len_le(s: Seq<RemoteSdk>)
    ensures
        map_of(s).dom().finite(),
        map_of(s).len() <= s.len(),
    decreases s.len(),
{
    if s.len() > 0 {
        lemma_map_of_len_le(s.drop_last());
    }
}

pub proof fn lemma_map_of_len(s: Seq<RemoteSdk>)
    requires
        seq_keys_distinct(s),
    ensures
        map_of(s).dom().finite(),
        map_of(s).len() == s.len(),
    decreases s.len(),
{
    if s.len() > 0 {
        let pre = s.drop_last();
        assert(seq_keys_distinct(pre)) by {
            assert(forall|a: int, b: int|
                0 <= a < b < pre.len() ==> (#[trigger] pre[a]) == s[a] && (#[trigger] pre[b])
                    == s[b]);
        }
        lemma_map_of_len(pre);
        lemma_map_of_contains(pre, s.last()@.info);
        assert(forall|i: int|
            0 <= i < pre.len() ==> (#[trigger] pre[i])@.info != s.last()@.info) by {
            assert(forall|i: int| 0 <= i < pre.len() ==> (#[trigger] pre[i]) == s[i]);
            assert(s.last() == s[s.len() - 1]);
        }
        assert(!map_of(pre).contains_key(s.last()@.info));
    }
}

/// The durable record of what the local cache believes it holds.
#[derive(Debug)]
pub struct SdkSyncState {
    sdks: Vec<RemoteSdk>,
    revision: Option<u64>,
}

impl View for SdkSyncState {
    type V = SyncStateView;

    closed spec fn view(&self) -> SyncStateView {
        SyncStateView { sdks: map_of(self.sdks@), revision: self.revision }
    }
}

impl SdkSyncState {
    /// Well-formedness: entries carry pairwise distinct identities.
    pub closed spec fn wf(&self) -> bool {
        seq_keys_distinct(self.sdks@)
    }

    /// A fresh, never-synced state: empty, with no revision yet.
    pub fn new() -> (r: SdkSyncState)
        ensures
            r.wf(),
            r@.sdks == Map::<SdkInfoView, RemoteSdkView>::empty(),
            r@.revision is None,
    {
        SdkSyncState { sdks: Vec::new(), revision: None }
    }

    /// The entry for an identity, if the local cache holds it.
    pub fn get_sdk(&self, info: &SdkInfo) -> (r: Option<&RemoteSdk>)
        requires
            self.wf(),
        ensures
            match r {
                Some(sdk) => self@.sdks.contains_key(info@) && sdk@ == self@.sdks[info@]
                    && sdk@.info == info@,
                None => !self@.sdks.contains_key(info@),
            },
    {
        let n = self.sdks.len();
        let mut i: usize = 0;
        while i < n
            invariant
                0 <= i <= n,
                n == self.sdks.len(),
                self.wf(),
                forall|k: int| 0 <= k < i ==> (#[trigger] self.sdks@[k])@.info != info@,
            decreases n - i,
        {
            if self.sdks[i].info().equals(info) {
                proof {
                    lemma_map_of_get(self.sdks@, info@, i as int);
                }
                return Some(&self.sdks[i]);
            }
            i = i + 1;
        }
        proof {
            lemma_map_of_contains(self.sdks@, info@);
        }
        None
    }

    /// Inserts or replaces the entry for `sdk`'s identity.
    pub fn update_sdk(&mut self, sdk: &RemoteSdk)
        requires
            old(self).wf(),
        ensures
            final(self).wf(),
            final(self)@.sdks == old(self)@.sdks.insert(sdk@.info, sdk@),
            final(self)@.revision == old(self)@.revision,
    {
        let k = sdk.info();
        let mut out: Vec<RemoteSdk> = Vec::new();
        let n = self.sdks.len();
        let mut i: usize = 0;
        proof {
            assert(self.sdks@.subrange(0, 0) =~= Seq::<RemoteSdk>::empty());
            assert(map_of(out@) =~= map_of(self.sdks@.subrange(0, 0)).remove(k@));
        }
        while i < n
            invariant
                0 <= i <= n,
                n == self.sdks.len(),
                seq_keys_distinct(self.sdks@),
                k@ == sdk@.info,
                map_of(out@) == map_of(self.sdks@.subrange(0, i as int)).remove(k@),
                seq_keys_distinct(out@),
                forall|j: int| 0 <= j < out@.len() ==> (#[trigger] out@[j])@.info != k@,
                forall|j: int|
                    0 <= j < out@.len() ==> exists|l: int|
                        0 <= l < i && (#[trigger] out@[j])@.info == self.sdks@[l]@.info,
            decreases n - i,
        {
            let ghost pre = self.sdks@.subrange(0, i as int);
            let ghost cur = self.sdks@[i as int];
            proof {
                assert(self.sdks@.subrange(0, i + 1).drop_last() =~= pre);
                assert(self.sdks@.subrange(0, i + 1).last() == cur);
            }
            if !self.sdks[i].info().equals(k) {
                let ghost out_pre = out@;
                out.push(self.sdks[i].clone());
                proof {
                    assert(out@.drop_last() =~= out_pre);
                    assert(out@.last()@ == cur@);
                    assert(map_of(out@) =~= map_of(self.sdks@.subrange(0, i + 1)).remove(k@));
                    // the new entry's identity is fresh in `out`
                    assert(forall|j: int|
                        0 <= j < out_pre.len() ==> (#[trigger] out_pre[j])@.info != cur@.info);
                    assert(seq_keys_distinct(out@)) by {
                        assert(forall|a: int|
                            0 <= a < out_pre.len() ==> (#[trigger] out@[a]) == out_pre[a]);
                    }
                }
            } else {
                proof {
                    assert(map_of(out@) =~= map_of(self.sdks@.subrange(0, i + 1)).remove(k@));
                }
            }
            i = i + 1;
        }
        let ghost out_pre = out@;
        out.push(sdk.clone());
        proof {
            assert(self.sdks@.subrange(0, n as int) =~= self.sdks@);
            assert(out@.drop_last() =~= out_pre);
            assert(map_of(out@) =~= map_of(self.sdks@).insert(k@, sdk@));
            assert(seq_keys_distinct(out@)) by {
                assert(forall|a: int| 0 <= a < out_pre.len() ==> (#[trigger] out@[a]) == out_pre[a]);
            }
        }
        self.sdks = out;
    }

    /// Removes the entry for an identity, if any.
    pub fn remove_sdk(&mut self, info: &SdkInfo)
        requires
            old(self).wf(),
        ensures
            final(self).wf(),
            final(self)@.sdks == old(self)@.sdks.remove(info@),
            final(self)@.revision == old(self)@.revision,
    {
        let mut out: Vec<RemoteSdk> = Vec::new();
        let n = self.sdks.len();
        let mut i: usize = 0;
        proof {
            assert(self.sdks@.subrange(0, 0) =~= Seq::<RemoteSdk>::empty());
            assert(map_of(out@) =~= map_of(self.sdks@.subrange(0, 0)).remove(info@));
        }
        while i < n
            invariant
                0 <= i <= n,
                n == self.sdks.len(),
                seq_keys_distinct(self.sdks@),
                map_of(out@) == map_of(self.sdks@.subrange(0, i as int)).remove(info@),
                seq_keys_distinct(out@),
                forall|j: int| 0 <= j < out@.len() ==> (#[trigger] out@[j])@.info != info@,
                forall|j: int|
                    0 <= j < out@.len() ==> exists|l: int|
                        0 <= l < i && (#[trigger] out@[j])@.info == self.sdks@[l]@.info,
            decreases n - i,
        {
            let ghost pre = self.sdks@.subrange(0, i as int);
            let ghost cur = self.sdks@[i as int];
            proof {
                assert(self.sdks@.subrange(0, i + 1).drop_last() =~= pre);
                assert(self.sdks@.subrange(0, i + 1).last() == cur);
            }
            if !self.sdks[i].info().equals(info) {
                let ghost out_pre = out@;
                out.push(self.sdks[i].clone());
                proof {
                    assert(out@.drop_last() =~= out_pre);
                    assert(out@.last()@ == cur@);
                    assert(map_of(out@) =~= map_of(self.sdks@.subrange(0, i + 1)).remove(info@));
                    assert(forall|j: int|
                        0 <= j < out_pre.len() ==> (#[trigger] out_pre[j])@.info != cur@.info);
                    assert(seq_keys_distinct(out@)) by {
                        assert(forall|a: int|
                            0 <= a < out_pre.len() ==> (#[trigger] out@[a]) == out_pre[a]);
                    }
                }
            } else {
                proof {
                    assert(map_of(out@) =~= map_of(self.sdks@.subrange(0, i + 1)).remove(info@));
                }
            }
            i = i + 1;
        }
        proof {
            assert(self.sdks@.subrange(0, n as int) =~= self.sdks@);
        }
        self.sdks = out;
    }

    /// The entries the state holds; their identities are pairwise distinct
    /// and together they stand for the state's map.
    pub fn sdks(&self) -> (r: &Vec<RemoteSdk>)
        requires
            self.wf(),
        ensures
            map_of(r@) == self@.sdks,
            seq_keys_distinct(r@),
    {
        &self.sdks
    }

    /// How many databases the state records.
    pub fn sdk_count(&self) -> (r: usize)
        requires
            self.wf(),
        ensures
            r == self@.sdks.len(),
    {
        proof {
            lemma_map_of_len(self.sdks@);
        }
        self.sdks.len()
    }

    /// The revision counter; `None` only on a never-synced fresh state.
    pub fn revision(&self) -> (r: Option<u64>)
        ensures
            r == self@.revision,
    {
        self.revision
    }

    /// Restores a revision counter, as when a persisted state is loaded.
    pub fn set_revision(&mut self, r: Option<u64>)
        ensures
            final(self).wf() == old(self).wf(),
            final(self)@.sdks == old(self)@.sdks,
            final(self)@.revision == r,
    {
        self.revision = r;
    }

    /// Advances the revision counter by one; a fresh state counts as zero.
    pub fn bump_revision(&mut self)
        requires
            revision_value(old(self)@) < u64::MAX,
        ensures
            final(self).wf() == old(self).wf(),
            final(self)@.sdks == old(self)@.sdks,
            final(self)@.revision == Some((revision_value(old(self)@) + 1) as u64),
    {
        let next: u64 = match self.revision {
            Some(r) => r + 1,
            None => 1,
        };
        self.revision = Some(next);
    }

    /// Deep copy of the state.
    pub fn clone_state(&self) -> (r: SdkSyncState)
        ensures
            r@ == self@,
            r.wf() == self.wf(),
    {
        let mut out: Vec<RemoteSdk> = Vec::new();
        let n = self.sdks.len();
        let mut i: usize = 0;
        while i < n
            invariant
                0 <= i <= n,
                n == self.sdks.len(),
                out@.len() == i,
                forall|k: int| 0 <= k < i ==> (#[trigger] out@[k])@ == self.sdks@[k]@,
            decreases n - i,
        {
            out.push(self.sdks[i].clone());
            i = i + 1;
        }
        let r = SdkSyncState { sdks: out, revision: self.revision };
        proof {
            lemma_map_of_congruent(r.sdks@, self.sdks@);
            assert(r@.sdks =~= self@.sdks);
            assert(r@ == self@);
        }
        r
    }
}

/// Sequences with pointwise equal entry views stand for the same map and
/// agree on key distinctness.
pub proof fn lemma_map_of_congruent(a: Seq<RemoteSdk>, b: Seq<RemoteSdk>)
    requires
        a.len() == b.len(),
        forall|i: int| 0 <= i < a.len() ==> (#[trigger] a[i])@ == b[i]@,
    ensures
        map_of(a) == map_of(b),
        seq_keys_distinct(a) == seq_keys_distinct(b),
    decreases a.len(),
{
    if a.len() > 0 {
        lemma_map_of_congruent(a.drop_last(), b.drop_last());
        assert(a.last()@ == b.last()@);
        assert(map_of(a) =~= map_of(b));
    }
    if seq_keys_distinct(a) {
        assert forall|i: int, j: int| 0 <= i < j < b.len() implies (#[trigger] b[i])@.info != (
        #[trigger] b[j])@.info by {
            assert(a[i]@ == b[i]@);
            assert(a[j]@ == b[j]@);
        }
    }
    if seq_keys_distinct(b) {
        assert forall|i: int, j: int| 0 <= i < j < a.len() implies (#[trigger] a[i])@.info != (
        #[trigger] a[j])@.info by {
            assert(a[i]@ == b[i]@);
            assert(a[j]@ == b[j]@);
        }
    }
}

} // verus!
