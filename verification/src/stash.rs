//! The stash: owns the durable sync state, the relationship to the remote
//! catalog, and the in-memory cache of opened database handles.
//!
//! Remote work (listing the catalog, downloading, file I/O) happens at the
//! edge: callers fetch the catalog listing and hand its outcome in as a
//! value, and the stash makes every decision from there.
use vstd::prelude::*;

use crate::memdb::{MemDb, MemDbCache, MemDbView};
use crate::rank::{
    infos_contain, infos_distinct, infos_sorted_asc, lemma_scored_irreflexive,
    lemma_scored_sorted_unique, scored_before, scored_contain, scored_infos_distinct,
    scored_views_sorted, sort_infos_asc, sort_scored, ScoredInfo, ScoredView,
};
use crate::sdkinfo::{
    lemma_fuzzy_zero, spec_fuzzy_score, spec_parse_filename, spec_sdk_id, SdkInfo, SdkInfoView,
};
use crate::state::{
    lemma_map_of_contains, lemma_map_of_get, lemma_map_of_len, lemma_map_of_len_le, map_of,
    revision_value, seq_keys_distinct, RemoteSdk, RemoteSdkView, SdkSyncState, SyncStateView,
};
use crate::status::{spec_healthy, SyncStatus, SyncStatusView};
use crate::store::StateStore;
use crate::text::{glob_match, glob_matches};
use crate::{CatalogError, StashError, SyncOptions};

verus! {

/// The state a never-synced stash starts from: empty, no revision.
pub open spec fn fresh_state_view() -> SyncStateView {
    SyncStateView { sdks: Map::empty(), revision: None }
}

/// What a durable read yields: the stored state, or a fresh one when the
/// state file is absent.
pub open spec fn effective_of(d: Option<SyncStateView>) -> SyncStateView {
    match d {
        Some(v) => v,
        None => fresh_state_view(),
    }
}

/// Whether an identity's canonical identifier matches one of the
/// configured ignore patterns.
pub open spec fn spec_is_ignored(pats: Seq<Seq<char>>, id: Seq<char>) -> bool {
    exists|i: int| 0 <= i < pats.len() && glob_match(#[trigger] pats[i], id)
}

/// The remote entries that sync and health accounting consider: every
/// catalog entry whose identity is not ignored.
pub open spec fn spec_considered(
    rm: Map<SdkInfoView, RemoteSdkView>,
    pats: Seq<Seq<char>>,
) -> Set<SdkInfoView> {
    rm.dom().filter(|k: SdkInfoView| !spec_is_ignored(pats, spec_sdk_id(k)))
}

/// Considered entries with no local counterpart.
pub open spec fn spec_missing(
    lm: Map<SdkInfoView, RemoteSdkView>,
    rm: Map<SdkInfoView, RemoteSdkView>,
    pats: Seq<Seq<char>>,
) -> Set<SdkInfoView> {
    spec_considered(rm, pats).filter(|k: SdkInfoView| !lm.contains_key(k))
}

/// Considered entries whose local counterpart differs structurally
/// (etag included).
pub open spec fn spec_different(
    lm: Map<SdkInfoView, RemoteSdkView>,
    rm: Map<SdkInfoView, RemoteSdkView>,
    pats: Seq<Seq<char>>,
) -> Set<SdkInfoView> {
    spec_considered(rm, pats).filter(
        |k: SdkInfoView| lm.contains_key(k) && lm[k] != rm[k],
    )
}

/// Considered entries that a sync must fetch: no local counterpart, or a
/// structurally different one (its content changed remotely).
pub open spec fn spec_changed(
    lm: Map<SdkInfoView, RemoteSdkView>,
    rm: Map<SdkInfoView, RemoteSdkView>,
    pats: Seq<Seq<char>>,
) -> Set<SdkInfoView> {
    spec_considered(rm, pats).filter(
        |k: SdkInfoView| !lm.contains_key(k) || lm[k] != rm[k],
    )
}

/// Considered entries a sync leaves alone: the local copy already matches.
pub open spec fn spec_unchanged_set(
    lm: Map<SdkInfoView, RemoteSdkView>,
    rm: Map<SdkInfoView, RemoteSdkView>,
    pats: Seq<Seq<char>>,
) -> Set<SdkInfoView> {
    spec_considered(rm, pats).filter(
        |k: SdkInfoView| lm.contains_key(k) && lm[k] == rm[k],
    )
}

/// Remote entries skipped because their identity matches an ignore pattern.
pub open spec fn spec_ignored_set(
    rm: Map<SdkInfoView, RemoteSdkView>,
    pats: Seq<Seq<char>>,
) -> Set<SdkInfoView> {
    rm.dom().filter(|k: SdkInfoView| spec_is_ignored(pats, spec_sdk_id(k)))
}

/// Local entries a sync deletes: present locally but gone from the remote.
pub open spec fn spec_deleted_set(
    lm: Map<SdkInfoView, RemoteSdkView>,
    rm: Map<SdkInfoView, RemoteSdkView>,
) -> Set<SdkInfoView> {
    lm.dom().filter(|k: SdkInfoView| !rm.contains_key(k))
}

/// Identities whose cached handle a sync evicts: changed content and
/// deleted entries.  Handles for untouched entries survive.
pub open spec fn spec_evicted(
    lm: Map<SdkInfoView, RemoteSdkView>,
    rm: Map<SdkInfoView, RemoteSdkView>,
    pats: Seq<Seq<char>>,
) -> Set<SdkInfoView> {
    spec_different(lm, rm, pats).union(spec_deleted_set(lm, rm))
}

/// The fixed point of reconciliation: non-ignored remote entries carry
/// the catalog's snapshot, ignored ones keep whatever the local state
/// had, and local-only entries are gone.
pub open spec fn spec_sync_result(
    lm: Map<SdkInfoView, RemoteSdkView>,
    rm: Map<SdkInfoView, RemoteSdkView>,
    pats: Seq<Seq<char>>,
) -> Map<SdkInfoView, RemoteSdkView> {
    Map::new(
        |k: SdkInfoView| rm.contains_key(k) && (!spec_is_ignored(pats, spec_sdk_id(k))
            || lm.contains_key(k)),
        |k: SdkInfoView| if spec_is_ignored(pats, spec_sdk_id(k)) {
            lm[k]
        } else {
            rm[k]
        },
    )
}

/// Local state in the middle of a sync, after the identities in `p` have
/// been reconciled and nothing has been deleted yet.
pub open spec fn spec_partial(
    lm: Map<SdkInfoView, RemoteSdkView>,
    rm: Map<SdkInfoView, RemoteSdkView>,
    pats: Seq<Seq<char>>,
    p: Set<SdkInfoView>,
) -> Map<SdkInfoView, RemoteSdkView> {
    Map::new(
        |k: SdkInfoView| lm.contains_key(k) || (rm.contains_key(k) && p.contains(k)
            && !spec_is_ignored(pats, spec_sdk_id(k))),
        |k: SdkInfoView| if rm.contains_key(k) && p.contains(k) && !spec_is_ignored(
            pats,
            spec_sdk_id(k),
        ) && (!lm.contains_key(k) || lm[k] != rm[k]) {
            rm[k]
        } else {
            lm[k]
        },
    )
}

/// The identity views of the suffix `s[pos..]`.
pub open spec fn suffix_keys(s: Seq<SdkInfo>, pos: int) -> Set<SdkInfoView> {
    Set::new(|k: SdkInfoView| exists|l: int| pos <= l < s.len() && (#[trigger] s[l])@ == k)
}

/// `v` lists exactly the identities of `s`, each once.
pub open spec fn infos_enumerate(v: Seq<SdkInfo>, s: Set<SdkInfoView>) -> bool {
    &&& forall|i: int| 0 <= i < v.len() ==> s.contains((#[trigger] v[i])@)
    &&& forall|k: SdkInfoView| s.contains(k) ==> infos_contain(v, k)
    &&& infos_distinct(v)
}

/// `v` lists exactly the catalog entries whose identities make up `s`,
/// each once, with the catalog's values.
pub open spec fn fetched_enum(
    v: Seq<RemoteSdk>,
    s: Set<SdkInfoView>,
    rm: Map<SdkInfoView, RemoteSdkView>,
) -> bool {
    &&& forall|i: int|
        0 <= i < v.len() ==> s.contains((#[trigger] v[i])@.info) && v[i]@ == rm[v[i]@.info]
    &&& forall|k: SdkInfoView| s.contains(k) ==> exists|i: int|
        0 <= i < v.len() && (#[trigger] v[i])@.info == k
    &&& seq_keys_distinct(v)
}

proof fn lemma_suffix_insert(s: Seq<SdkInfo>, pos: int)
    requires
        0 <= pos < s.len(),
        infos_distinct(s),
    ensures
        suffix_keys(s, pos) =~= suffix_keys(s, pos + 1).insert(s[pos]@),
        !suffix_keys(s, pos + 1).contains(s[pos]@),
{
    assert forall|k: SdkInfoView|
        suffix_keys(s, pos).contains(k) == suffix_keys(s, pos + 1).insert(
            s[pos]@,
        ).contains(k) by {
        if suffix_keys(s, pos).contains(k) {
            let l = choose|l: int| pos <= l < s.len() && (#[trigger] s[l])@ == k;
            if l == pos {
                assert(k == s[pos]@);
            } else {
                assert(suffix_keys(s, pos + 1).contains(k));
            }
        }
        if suffix_keys(s, pos + 1).contains(k) {
            let l = choose|l: int| pos + 1 <= l < s.len() && (#[trigger] s[l])@ == k;
            assert(pos <= l < s.len());
            assert(suffix_keys(s, pos).contains(k));
        }
        if k == s[pos]@ {
            assert(suffix_keys(s, pos).contains(k));
        }
    }
    if suffix_keys(s, pos + 1).contains(s[pos]@) {
        let l = choose|l: int| pos + 1 <= l < s.len() && (#[trigger] s[l])@ == s[pos]@;
        assert(s[pos]@ != s[l]@);
        assert(false);
    }
}

/// The identity views of the prefix `s[..j]` of a run of entries.
pub open spec fn entry_prefix_keys(s: Seq<RemoteSdk>, j: int) -> Set<SdkInfoView> {
    Set::new(|k: SdkInfoView| exists|l: int| 0 <= l < j && (#[trigger] s[l])@.info == k)
}

proof fn lemma_entry_prefix_insert(s: Seq<RemoteSdk>, j: int)
    requires
        0 <= j < s.len(),
        seq_keys_distinct(s),
    ensures
        entry_prefix_keys(s, j + 1) =~= entry_prefix_keys(s, j).insert(s[j]@.info),
        !entry_prefix_keys(s, j).contains(s[j]@.info),
{
    assert forall|k: SdkInfoView|
        entry_prefix_keys(s, j + 1).contains(k) == entry_prefix_keys(s, j).insert(
            s[j]@.info,
        ).contains(k) by {
        if entry_prefix_keys(s, j + 1).contains(k) {
            let l = choose|l: int| 0 <= l < j + 1 && (#[trigger] s[l])@.info == k;
            if l == j {
                assert(k == s[j]@.info);
            } else {
                assert(entry_prefix_keys(s, j).contains(k));
            }
        }
        if entry_prefix_keys(s, j).contains(k) {
            let l = choose|l: int| 0 <= l < j && (#[trigger] s[l])@.info == k;
            assert(entry_prefix_keys(s, j + 1).contains(k));
        }
        if k == s[j]@.info {
            assert(entry_prefix_keys(s, j + 1).contains(k));
        }
    }
    if entry_prefix_keys(s, j).contains(s[j]@.info) {
        let l = choose|l: int| 0 <= l < j && (#[trigger] s[l])@.info == s[j]@.info;
        assert(s[l]@.info != s[j]@.info);
        assert(false);
    }
}

/// The identity views of the prefix `s[..j]` of a run of identities.
pub open spec fn info_prefix_keys(s: Seq<SdkInfo>, j: int) -> Set<SdkInfoView> {
    Set::new(|k: SdkInfoView| exists|l: int| 0 <= l < j && (#[trigger] s[l])@ == k)
}

proof fn lemma_info_prefix_insert(s: Seq<SdkInfo>, j: int)
    requires
        0 <= j < s.len(),
        infos_distinct(s),
    ensures
        info_prefix_keys(s, j + 1) =~= info_prefix_keys(s, j).insert(s[j]@),
        !info_prefix_keys(s, j).contains(s[j]@),
{
    assert forall|k: SdkInfoView|
        info_prefix_keys(s, j + 1).contains(k) == info_prefix_keys(s, j).insert(
            s[j]@,
        ).contains(k) by {
        if info_prefix_keys(s, j + 1).contains(k) {
            let l = choose|l: int| 0 <= l < j + 1 && (#[trigger] s[l])@ == k;
            if l == j {
                assert(k == s[j]@);
            } else {
                assert(info_prefix_keys(s, j).contains(k));
            }
        }
        if info_prefix_keys(s, j).contains(k) {
            let l = choose|l: int| 0 <= l < j && (#[trigger] s[l])@ == k;
            assert(info_prefix_keys(s, j + 1).contains(k));
        }
        if k == s[j]@ {
            assert(info_prefix_keys(s, j + 1).contains(k));
        }
    }
    if info_prefix_keys(s, j).contains(s[j]@) {
        let l = choose|l: int| 0 <= l < j && (#[trigger] s[l])@ == s[j]@;
        assert(s[l]@ != s[j]@);
        assert(false);
    }
}

proof fn lemma_infos_enum_push(
    v0: Seq<SdkInfo>,
    v1: Seq<SdkInfo>,
    s0: Set<SdkInfoView>,
    k: SdkInfoView,
)
    requires
        v1.len() == v0.len() + 1,
        forall|i: int| 0 <= i < v0.len() ==> v1[i] == v0[i],
        v1[v0.len() as int]@ == k,
        infos_enumerate(v0, s0),
        !s0.contains(k),
    ensures
        infos_enumerate(v1, s0.insert(k)),
{
    let s1 = s0.insert(k);
    assert forall|i: int| 0 <= i < v1.len() implies s1.contains((#[trigger] v1[i])@) by {
        if i < v0.len() {
            assert(s0.contains(v0[i]@));
        }
    }
    assert forall|k2: SdkInfoView| s1.contains(k2) implies infos_contain(v1, k2) by {
        if k2 == k {
            assert(v1[v0.len() as int]@ == k2);
        } else {
            assert(s0.contains(k2));
            let i = choose|i: int| 0 <= i < v0.len() && (#[trigger] v0[i])@ == k2;
            assert(v1[i]@ == k2);
        }
    }
    assert forall|a: int, b: int| 0 <= a < b < v1.len() implies (#[trigger] v1[a])@ != (
    #[trigger] v1[b])@ by {
        if b < v0.len() {
            assert(v0[a]@ != v0[b]@);
        } else {
            assert(v1[b]@ == k);
            assert(s0.contains(v0[a]@));
        }
    }
}

proof fn lemma_fetched_enum_push(
    v0: Seq<RemoteSdk>,
    v1: Seq<RemoteSdk>,
    s0: Set<SdkInfoView>,
    k: SdkInfoView,
    rm: Map<SdkInfoView, RemoteSdkView>,
)
    requires
        v1.len() == v0.len() + 1,
        forall|i: int| 0 <= i < v0.len() ==> v1[i] == v0[i],
        v1[v0.len() as int]@.info == k,
        v1[v0.len() as int]@ == rm[k],
        fetched_enum(v0, s0, rm),
        !s0.contains(k),
    ensures
        fetched_enum(v1, s0.insert(k), rm),
{
    let s1 = s0.insert(k);
    assert forall|i: int|
        0 <= i < v1.len() implies s1.contains((#[trigger] v1[i])@.info) && v1[i]@ == rm[v1[i]@.info]
    by {
        if i < v0.len() {
            assert(s0.contains(v0[i]@.info) && v0[i]@ == rm[v0[i]@.info]);
        }
    }
    assert forall|k2: SdkInfoView| s1.contains(k2) implies exists|i: int|
        0 <= i < v1.len() && (#[trigger] v1[i])@.info == k2 by {
        if k2 == k {
            assert(v1[v0.len() as int]@.info == k2);
        } else {
            assert(s0.contains(k2));
            let i = choose|i: int| 0 <= i < v0.len() && (#[trigger] v0[i])@.info == k2;
            assert(v1[i]@.info == k2);
        }
    }
    assert forall|a: int, b: int| 0 <= a < b < v1.len() implies (#[trigger] v1[a])@.info != (
    #[trigger] v1[b])@.info by {
        if b < v0.len() {
            assert(v0[a]@.info != v0[b]@.info);
        } else {
            assert(v1[b]@.info == k);
            assert(s0.contains(v0[a]@.info));
        }
    }
}

/// The sentinel score a "no match" fuzzy distance is normalized to: it
/// exceeds every real score, so unmatched identities sort last.
pub const NO_MATCH_SCORE: u64 = 0xFFFF_FFFF_FFFF_FFFF;

/// The ranking score of candidate `k` against query `q`.
pub open spec fn effective_score(q: SdkInfoView, k: SdkInfoView) -> u64 {
    match spec_fuzzy_score(k, q) {
        Some(s) => s,
        None => NO_MATCH_SCORE,
    }
}

/// `full` ranks every identity of `m` against `q`: strictly sorted by the
/// ranking order, holding exactly the identities of `m` with their scores.
pub open spec fn ranked_listing(
    q: SdkInfoView,
    m: Map<SdkInfoView, RemoteSdkView>,
    full: Seq<ScoredView>,
) -> bool {
    &&& scored_views_sorted(q, full)
    &&& forall|sv: ScoredView|
        full.contains(sv) == (m.contains_key(sv.info) && sv.score == effective_score(q, sv.info))
}

/// `v` is the first ten (or fewer) identities of the ranking `full`.
pub open spec fn listed_prefix(v: Seq<SdkInfo>, full: Seq<ScoredView>) -> bool {
    &&& v.len() == (if full.len() < 10 {
        full.len()
    } else {
        10
    })
    &&& forall|i: int| 0 <= i < v.len() ==> (#[trigger] v[i])@ == full[i].info
}

/// Fuzzy-match determinism: the ranking of a state's identities against a
/// fixed query is unique, so repeated calls return the same ordered list.
pub proof fn lemma_ranked_listing_unique(
    q: SdkInfoView,
    m: Map<SdkInfoView, RemoteSdkView>,
    full1: Seq<ScoredView>,
    full2: Seq<ScoredView>,
)
    requires
        ranked_listing(q, m, full1),
        ranked_listing(q, m, full2),
    ensures
        full1 == full2,
{
    assert(forall|sv: ScoredView| full1.contains(sv) == full2.contains(sv));
    lemma_scored_sorted_unique(q, full1, full2);
}

/// Idempotence: reconciliation is a fixed point.  A state that already
/// equals the sync result has nothing to fetch and nothing to delete, and
/// syncing it against the same catalog yields the same state again — so a
/// second run reports zero changes and bumps the revision exactly once.
pub proof fn lemma_sync_idempotent(
    lm: Map<SdkInfoView, RemoteSdkView>,
    rm: Map<SdkInfoView, RemoteSdkView>,
    pats: Seq<Seq<char>>,
)
    ensures
        spec_changed(spec_sync_result(lm, rm, pats), rm, pats) =~= Set::<SdkInfoView>::empty(),
        spec_deleted_set(spec_sync_result(lm, rm, pats), rm) =~= Set::<SdkInfoView>::empty(),
        spec_missing(spec_sync_result(lm, rm, pats), rm, pats) =~= Set::<SdkInfoView>::empty(),
        spec_different(spec_sync_result(lm, rm, pats), rm, pats) =~= Set::<SdkInfoView>::empty(),
        spec_sync_result(spec_sync_result(lm, rm, pats), rm, pats) =~= spec_sync_result(
            lm,
            rm,
            pats,
        ),
{
}

/// After a sync, a health check against the same catalog counts nothing
/// missing and nothing different, and reports healthy whenever at least
/// one entry is considered.  (An empty considered set is left out: the
/// health rule counts an online stash with an empty remote as unhealthy.)
pub proof fn lemma_sync_then_healthy(
    lm: Map<SdkInfoView, RemoteSdkView>,
    rm: Map<SdkInfoView, RemoteSdkView>,
    pats: Seq<Seq<char>>,
    total: u32,
    rev: u64,
)
    requires
        total as int == spec_considered(rm, pats).len(),
        spec_considered(rm, pats).len() > 0,
    ensures
        spec_missing(spec_sync_result(lm, rm, pats), rm, pats).len() == 0,
        spec_different(spec_sync_result(lm, rm, pats), rm, pats).len() == 0,
        spec_healthy(
            SyncStatusView { remote_total: total, missing: 0, different: 0, revision: rev, offline: false },
        ),
{
    lemma_sync_idempotent(lm, rm, pats);
}

/// Cache coherence: once a sync has replaced an entry whose content
/// changed (different etag), a handle lookup serves a handle carrying the
/// new fingerprint — never the stale cached one, which the sync evicted.
pub proof fn lemma_cache_coherence(
    pre: MemDbStash,
    post: MemDbStash,
    lm: Map<SdkInfoView, RemoteSdkView>,
    rm: Map<SdkInfoView, RemoteSdkView>,
    pats: Seq<Seq<char>>,
    k: SdkInfoView,
    after: MemDbStash,
    h: MemDb,
)
    requires
        // what sync guarantees of the stash it leaves behind
        post.handles() == pre.handles().remove_keys(spec_evicted(lm, rm, pats)),
        match post.snapshot() {
            Some(v) => v.sdks == spec_sync_result(lm, rm, pats),
            None => false,
        },
        // the entry's content changed remotely
        spec_different(lm, rm, pats).contains(k),
        // a later successful handle lookup
        memdb_outcome(post, after, k, Ok(h)),
    ensures
        h@.etag == rm[k].etag,
{
    assert(spec_evicted(lm, rm, pats).contains(k));
    assert(!post.handles().contains_key(k));
    assert(!spec_is_ignored(pats, spec_sdk_id(k)));
    assert(post.current().sdks[k] == rm[k]);
}

/// Ignore patterns: an ignored identity is never fetched, never deleted
/// for being missing, never counted in the health totals, and never has
/// its cached handle evicted; a local entry for it survives a sync
/// untouched.
pub proof fn lemma_ignored_untouched(
    lm: Map<SdkInfoView, RemoteSdkView>,
    rm: Map<SdkInfoView, RemoteSdkView>,
    pats: Seq<Seq<char>>,
    k: SdkInfoView,
)
    requires
        rm.contains_key(k),
        spec_is_ignored(pats, spec_sdk_id(k)),
    ensures
        !spec_changed(lm, rm, pats).contains(k),
        !spec_deleted_set(lm, rm).contains(k),
        !spec_missing(lm, rm, pats).contains(k),
        !spec_different(lm, rm, pats).contains(k),
        !spec_evicted(lm, rm, pats).contains(k),
        lm.contains_key(k) ==> spec_sync_result(lm, rm, pats).contains_key(k)
            && spec_sync_result(lm, rm, pats)[k] == lm[k],
{
}

/// Entries listed in strictly descending identity order: the stable
/// policy of a sync run, which processes later identities first.
pub open spec fn fetched_descending(v: Seq<RemoteSdk>) -> bool {
    forall|i: int, j: int|
        0 <= i < j < v.len() ==> crate::sdkinfo::info_lt(
            (#[trigger] v[j])@.info,
            (#[trigger] v[i])@.info,
        )
}

/// An exact account of one sync run: which entries were fetched (with the
/// catalog values they now carry), deleted, left unchanged, or ignored.
pub struct SyncReport {
    pub fetched: Vec<RemoteSdk>,
    pub deleted: Vec<SdkInfo>,
    pub unchanged: Vec<SdkInfo>,
    pub ignored: Vec<SdkInfo>,
}

/// The report lists exactly the sync's outcome sets, each identity once.
pub open spec fn report_exact(
    rep: SyncReport,
    lm: Map<SdkInfoView, RemoteSdkView>,
    rm: Map<SdkInfoView, RemoteSdkView>,
    pats: Seq<Seq<char>>,
) -> bool {
    &&& fetched_enum(rep.fetched@, spec_changed(lm, rm, pats), rm)
    &&& fetched_descending(rep.fetched@)
    &&& infos_enumerate(rep.deleted@, spec_deleted_set(lm, rm))
    &&& infos_enumerate(rep.unchanged@, spec_unchanged_set(lm, rm, pats))
    &&& infos_enumerate(rep.ignored@, spec_ignored_set(rm, pats))
}

/// The main stash type.
pub struct MemDbStash {
    store: StateStore,
    cached: Option<SdkSyncState>,
    memdbs: MemDbCache,
    ignore_patterns: Vec<String>,
}

impl MemDbStash {
    pub closed spec fn wf(&self) -> bool {
        &&& self.store.wf()
        &&& match self.cached {
            Some(ref s) => s.wf(),
            None => true,
        }
        &&& self.memdbs.wf()
    }

    /// The durable state as it stands on disk, if a state file exists.
    pub closed spec fn durable(&self) -> Option<SyncStateView> {
        self.store@.canonical
    }

    /// The durable state, a fresh one standing in for an absent file.
    pub open spec fn effective_durable(&self) -> SyncStateView {
        effective_of(self.durable())
    }

    /// The in-memory shared snapshot, if one has been loaded.
    pub closed spec fn snapshot(&self) -> Option<SyncStateView> {
        match self.cached {
            Some(ref s) => Some(s@),
            None => None,
        }
    }

    /// What the fast path serves: the snapshot if loaded, else the
    /// durable state.
    pub open spec fn current(&self) -> SyncStateView {
        match self.snapshot() {
            Some(v) => v,
            None => self.effective_durable(),
        }
    }

    /// The cached database handles, keyed by identity.
    pub closed spec fn handles(&self) -> Map<SdkInfoView, MemDbView> {
        self.memdbs@
    }

    /// The configured ignore patterns.
    pub closed spec fn patterns(&self) -> Seq<Seq<char>> {
        self.ignore_patterns@.map_values(|p: String| p@)
    }

    /// Opens a stash over the configured ignore patterns and whatever the
    /// durable state file held (`None` when the file is absent — absence
    /// is not an error).
    pub fn new(ignore_patterns: Vec<String>, on_disk: Option<SdkSyncState>) -> (r: MemDbStash)
        requires
            match on_disk {
                Some(ref s) => s.wf(),
                None => true,
            },
        ensures
            r.wf(),
            r.durable() == (match on_disk {
                Some(ref s) => Some(s@),
                None => None::<SyncStateView>,
            }),
            r.snapshot() is None,
            r.handles() == Map::<SdkInfoView, MemDbView>::empty(),
            r.patterns() == ignore_patterns@.map_values(|p: String| p@),
    {
        MemDbStash {
            store: StateStore::new(on_disk),
            cached: None,
            memdbs: MemDbCache::new(),
            ignore_patterns,
        }
    }

    /// Reads the durable state and replaces the in-memory snapshot with
    /// it.  An absent state file yields a fresh state.
    pub fn read_local_state(&mut self) -> (r: Result<SdkSyncState, StashError>)
        requires
            old(self).wf(),
        ensures
            final(self).wf(),
            final(self).durable() == old(self).durable(),
            final(self).handles() == old(self).handles(),
            final(self).patterns() == old(self).patterns(),
            final(self).snapshot() == Some(old(self).effective_durable()),
            match r {
                Ok(s) => s.wf() && s@ == old(self).effective_durable(),
                Err(_) => false,
            },
    {
        let s = match self.store.read() {
            Some(st) => st.clone_state(),
            None => SdkSyncState::new(),
        };
        proof {
            assert(s@ =~= self.effective_durable()) by {
                if self.durable() is None {
                    assert(s@.sdks =~= fresh_state_view().sdks);
                }
            }
        }
        self.cached = Some(s.clone_state());
        Ok(s)
    }

    /// The fast path: the in-memory snapshot if one is loaded, else a
    /// durable read.
    pub fn get_local_state(&mut self) -> (r: Result<SdkSyncState, StashError>)
        requires
            old(self).wf(),
        ensures
            final(self).wf(),
            final(self).durable() == old(self).durable(),
            final(self).handles() == old(self).handles(),
            final(self).patterns() == old(self).patterns(),
            final(self).snapshot() == Some(old(self).current()),
            match r {
                Ok(s) => s.wf() && s@ == old(self).current(),
                Err(_) => false,
            },
    {
        match self.cached {
            Some(ref c) => Ok(c.clone_state()),
            None => self.read_local_state(),
        }
    }

    /// Persists a new state through the temp-then-rename protocol and
    /// replaces the in-memory snapshot wholesale.
    pub fn save_local_state(&mut self, new_state: &SdkSyncState)
        requires
            old(self).wf(),
            new_state.wf(),
        ensures
            final(self).wf(),
            final(self).durable() == Some(new_state@),
            final(self).snapshot() == Some(new_state@),
            final(self).handles() == old(self).handles(),
            final(self).patterns() == old(self).patterns(),
    {
        self.store.write(new_state.clone_state());
        self.cached = Some(new_state.clone_state());
    }

    /// Shapes a catalog listing outcome into a remote state.  An
    /// unavailable catalog is surfaced as `Unavailable`, any other
    /// catalog failure as `Io`; a listing keys its entries by identity,
    /// later duplicates overriding earlier ones.
    pub fn fetch_remote_state(&self, listing: Result<Vec<RemoteSdk>, CatalogError>) -> (r: Result<
        SdkSyncState,
        StashError,
    >)
        ensures
            match listing {
                Ok(list) => match r {
                    Ok(s) => s.wf() && s@.sdks == map_of(list@) && s@.revision is None,
                    Err(_) => false,
                },
                Err(CatalogError::Unavailable) => r == Err::<SdkSyncState, StashError>(
                    StashError::Unavailable,
                ),
                Err(CatalogError::Other) => r == Err::<SdkSyncState, StashError>(StashError::Io),
            },
    {
        match listing {
            Err(CatalogError::Unavailable) => Err(StashError::Unavailable),
            Err(CatalogError::Other) => Err(StashError::Io),
            Ok(list) => {
                let mut state = SdkSyncState::new();
                let n = list.len();
                let mut i: usize = 0;
                proof {
                    assert(list@.subrange(0, 0) =~= Seq::<RemoteSdk>::empty());
                    assert(state@.sdks =~= map_of(list@.subrange(0, 0)));
                }
                while i < n
                    invariant
                        0 <= i <= n,
                        n == list@.len(),
                        state.wf(),
                        state@.sdks == map_of(list@.subrange(0, i as int)),
                        state@.revision is None,
                    decreases n - i,
                {
                    proof {
                        assert(list@.subrange(0, i + 1).drop_last() =~= list@.subrange(
                            0,
                            i as int,
                        ));
                        assert(list@.subrange(0, i + 1).last() == list@[i as int]);
                    }
                    state.update_sdk(&list[i]);
                    i = i + 1;
                }
                proof {
                    assert(list@.subrange(0, n as int) =~= list@);
                }
                Ok(state)
            },
        }
    }

    /// The current revision, from a fresh durable read; a never-synced
    /// state counts as revision zero.
    pub fn get_revision(&mut self) -> (r: Result<u64, StashError>)
        requires
            old(self).wf(),
        ensures
            final(self).wf(),
            final(self).durable() == old(self).durable(),
            final(self).handles() == old(self).handles(),
            final(self).patterns() == old(self).patterns(),
            match r {
                Ok(v) => v as int == revision_value(old(self).effective_durable()),
                Err(_) => false,
            },
    {
        let state = match self.read_local_state() {
            Ok(s) => s,
            Err(e) => return Err(e),
        };
        match state.revision() {
            Some(v) => Ok(v),
            None => Ok(0),
        }
    }

    /// How many databases the local cache holds, from the fast path.
    pub fn sdk_count(&mut self) -> (r: Result<usize, StashError>)
        requires
            old(self).wf(),
        ensures
            final(self).wf(),
            final(self).durable() == old(self).durable(),
            final(self).handles() == old(self).handles(),
            final(self).patterns() == old(self).patterns(),
            match r {
                Ok(c) => c == old(self).current().sdks.len(),
                Err(_) => false,
            },
    {
        let state = match self.get_local_state() {
            Ok(s) => s,
            Err(e) => return Err(e),
        };
        Ok(state.sdk_count())
    }

    /// Whether the identity is excluded from sync and health accounting
    /// by the configured ignore patterns.
    pub fn sdk_is_ignored(&self, info: &SdkInfo) -> (r: bool)
        ensures
            r == spec_is_ignored(self.patterns(), spec_sdk_id(info@)),
    {
        let id = info.sdk_id();
        let n = self.ignore_patterns.len();
        let mut i: usize = 0;
        proof {
            assert(self.patterns().len() == n);
        }
        while i < n
            invariant
                0 <= i <= n,
                n == self.ignore_patterns@.len(),
                self.patterns().len() == n,
                id@ == spec_sdk_id(info@),
                forall|k: int| 0 <= k < i ==> !glob_match(#[trigger] self.patterns()[k], id@),
            decreases n - i,
        {
            proof {
                assert(self.patterns()[i as int] == self.ignore_patterns@[i as int]@);
            }
            if glob_matches(self.ignore_patterns[i].as_str(), id.as_str()) {
                return true;
            }
            i = i + 1;
        }
        false
    }

    /// All identities the local cache holds, in ascending order.
    pub fn list_sdks(&mut self) -> (r: Result<Vec<SdkInfo>, StashError>)
        requires
            old(self).wf(),
        ensures
            final(self).wf(),
            final(self).durable() == old(self).durable(),
            final(self).handles() == old(self).handles(),
            final(self).patterns() == old(self).patterns(),
            match r {
                Ok(v) => infos_sorted_asc(v@) && infos_distinct(v@) && (forall|k: SdkInfoView|
                    infos_contain(v@, k) == old(self).current().sdks.contains_key(k)),
                Err(_) => false,
            },
    {
        let state = match self.get_local_state() {
            Ok(s) => s,
            Err(e) => return Err(e),
        };
        let entries = state.sdks();
        let n = entries.len();
        let mut infos: Vec<SdkInfo> = Vec::new();
        let mut i: usize = 0;
        while i < n
            invariant
                0 <= i <= n,
                n == entries@.len(),
                infos@.len() == i,
                forall|j: int| 0 <= j < i ==> (#[trigger] infos@[j])@ == entries@[j]@.info,
            decreases n - i,
        {
            infos.push(entries[i].info().clone());
            i = i + 1;
        }
        proof {
            assert(infos_distinct(infos@)) by {
                assert forall|a: int, b: int| 0 <= a < b < infos@.len() implies (
                #[trigger] infos@[a])@ != (#[trigger] infos@[b])@ by {
                    assert(entries@[a]@.info != entries@[b]@.info);
                }
            }
            assert forall|k: SdkInfoView|
                infos_contain(infos@, k) == old(self).current().sdks.contains_key(k) by {
                crate::state::lemma_map_of_contains(entries@, k);
                if infos_contain(infos@, k) {
                    let j = choose|j: int| 0 <= j < infos@.len() && (#[trigger] infos@[j])@ == k;
                    assert(entries@[j]@.info == k);
                }
                if old(self).current().sdks.contains_key(k) {
                    let j = choose|j: int|
                        0 <= j < entries@.len() && (#[trigger] entries@[j])@.info == k;
                    assert(infos@[j]@ == k);
                }
            }
        }
        let sorted = sort_infos_asc(&infos);
        Ok(sorted)
    }
}

/// What a handle lookup for identity `k` does, relating the stash before
/// (`pre`) and after (`post`) the call: a cached handle is served as-is; a
/// known identity gets a handle opened against the recorded content
/// fingerprint, cached for later readers; an unknown identity fails — the
/// filesystem is never probed for files local state does not record.
pub open spec fn memdb_outcome(
    pre: MemDbStash,
    post: MemDbStash,
    k: SdkInfoView,
    r: Result<MemDb, StashError>,
) -> bool {
    match r {
        Ok(h) => h@.info == k && (if pre.handles().contains_key(k) {
            &&& h@ == pre.handles()[k]
            &&& post.handles() == pre.handles()
            &&& post.snapshot() == pre.snapshot()
        } else {
            &&& pre.current().sdks.contains_key(k)
            &&& h@.etag == pre.current().sdks[k].etag
            &&& post.handles() == pre.handles().insert(k, h@)
            &&& post.snapshot() == Some(pre.current())
        }),
        Err(e) => {
            &&& e == StashError::UnknownIdentity
            &&& !pre.handles().contains_key(k)
            &&& !pre.current().sdks.contains_key(k)
            &&& post.handles() == pre.handles()
            &&& post.snapshot() == Some(pre.current())
        },
    }
}

impl MemDbStash {
    /// Looks up the database handle for an identity: a shared clone of the
    /// cached handle when one is present, else — for an identity the local
    /// state knows — a freshly opened handle that is also cached.  Fails
    /// with `UnknownIdentity` for an identity not in local state.
    pub fn get_memdb(&mut self, info: &SdkInfo) -> (r: Result<MemDb, StashError>)
        requires
            old(self).wf(),
        ensures
            final(self).wf(),
            final(self).durable() == old(self).durable(),
            final(self).patterns() == old(self).patterns(),
            memdb_outcome(*old(self), *final(self), info@, r),
    {
        match self.memdbs.get(info) {
            Some(h) => return Ok(h.clone()),
            None => {},
        }
        let state = match self.get_local_state() {
            Ok(s) => s,
            Err(e) => return Err(e),
        };
        match state.get_sdk(info) {
            Some(sdk) => {
                let handle = MemDb::open(info.clone(), String::from_str(sdk.etag()));
                self.memdbs.insert(handle.clone());
                Ok(handle)
            },
            None => Err(StashError::UnknownIdentity),
        }
    }

    /// Checks the local cache against a remote catalog listing without
    /// mutating anything durable.  An unavailable catalog yields a valid
    /// "offline" snapshot with zero counts rather than an error; any
    /// other catalog failure propagates.
    pub fn get_sync_status(&mut self, listing: Result<Vec<RemoteSdk>, CatalogError>) -> (r: Result<
        SyncStatus,
        StashError,
    >)
        requires
            old(self).wf(),
            match listing {
                Ok(ref list) => list@.len() <= u32::MAX,
                Err(_) => true,
            },
        ensures
            final(self).wf(),
            final(self).durable() == old(self).durable(),
            final(self).handles() == old(self).handles(),
            final(self).patterns() == old(self).patterns(),
            final(self).snapshot() == Some(old(self).effective_durable()),
            match listing {
                Err(CatalogError::Unavailable) => match r {
                    Ok(st) => st.wf() && st@ == (SyncStatusView {
                        remote_total: 0,
                        missing: 0,
                        different: 0,
                        revision: (revision_value(old(self).effective_durable())) as u64,
                        offline: true,
                    }),
                    Err(_) => false,
                },
                Err(CatalogError::Other) => r == Err::<SyncStatus, StashError>(StashError::Io),
                Ok(ref list) => match r {
                    Ok(st) => st.wf() && !st@.offline && st@.revision as int == revision_value(
                        old(self).effective_durable(),
                    ) && st@.remote_total as int == spec_considered(
                        map_of(list@),
                        old(self).patterns(),
                    ).len() && st@.missing as int == spec_missing(
                        old(self).effective_durable().sdks,
                        map_of(list@),
                        old(self).patterns(),
                    ).len() && st@.different as int == spec_different(
                        old(self).effective_durable().sdks,
                        map_of(list@),
                        old(self).patterns(),
                    ).len(),
                    Err(_) => false,
                },
            },
    {
        let ghost listing0 = listing;
        let local_state = match self.read_local_state() {
            Ok(s) => s,
            Err(e) => return Err(e),
        };
        let revision: u64 = match local_state.revision() {
            Some(v) => v,
            None => 0,
        };
        let remote_res = self.fetch_remote_state(listing);
        let remote_state = match remote_res {
            Err(StashError::Unavailable) => {
                return Ok(SyncStatus::new(0, 0, 0, revision, true));
            },
            Err(e) => {
                return Err(e);
            },
            Ok(s) => s,
        };
        let ghost snap = *self;
        let ghost lm = local_state@.sdks;
        let ghost rm = remote_state@.sdks;
        let ghost pats = self.patterns();
        let ghost cons = spec_considered(rm, pats);
        let ghost miss = spec_missing(lm, rm, pats);
        let ghost diffs = spec_different(lm, rm, pats);
        let entries = remote_state.sdks();
        let n = entries.len();
        proof {
            lemma_map_of_len(entries@);
            match listing0 {
                Ok(ref list) => {
                    lemma_map_of_len_le(list@);
                },
                Err(_) => {
                    assert(false);
                },
            }
            assert(n <= u32::MAX);
        }
        let mut total: usize = 0;
        let mut missing: usize = 0;
        let mut different: usize = 0;
        let mut i: usize = 0;
        let ghost mut seen: Set<SdkInfoView> = Set::empty();
        proof {
            assert(cons.intersect(seen) =~= Set::<SdkInfoView>::empty());
            assert(miss.intersect(seen) =~= Set::<SdkInfoView>::empty());
            assert(diffs.intersect(seen) =~= Set::<SdkInfoView>::empty());
        }
        while i < n
            invariant
                0 <= i <= n,
                n == entries@.len(),
                n <= u32::MAX,
                *self == snap,
                self.wf(),
                local_state.wf(),
                lm == local_state@.sdks,
                rm == map_of(entries@),
                seq_keys_distinct(entries@),
                pats == self.patterns(),
                cons == spec_considered(rm, pats),
                miss == spec_missing(lm, rm, pats),
                diffs == spec_different(lm, rm, pats),
                seen.finite(),
                forall|k: SdkInfoView|
                    #[trigger] seen.contains(k) == exists|l: int|
                        0 <= l < i && (#[trigger] entries@[l])@.info == k,
                total as nat == cons.intersect(seen).len(),
                missing as nat == miss.intersect(seen).len(),
                different as nat == diffs.intersect(seen).len(),
                missing + different <= total <= i,
            decreases n - i,
        {
            let info_i = entries[i].info();
            let ignored = self.sdk_is_ignored(info_i);
            let ghost k = entries@[i as int]@.info;
            proof {
                if seen.contains(k) {
                    let l = choose|l: int| 0 <= l < i && (#[trigger] entries@[l])@.info == k;
                    assert(entries@[l]@.info != entries@[i as int]@.info);
                }
                assert(!seen.contains(k));
                lemma_map_of_get(entries@, k, i as int);
                assert(rm.contains_key(k) && rm[k] == entries@[i as int]@);
            }
            if !ignored {
                total = total + 1;
                match local_state.get_sdk(info_i) {
                    Some(loc) => {
                        if !loc.equals(&entries[i]) {
                            different = different + 1;
                        }
                    },
                    None => {
                        missing = missing + 1;
                    },
                }
            }
            proof {
                let seen2 = seen.insert(k);
                if !spec_is_ignored(pats, spec_sdk_id(k)) {
                    assert(cons.contains(k));
                    assert(cons.intersect(seen2) =~= cons.intersect(seen).insert(k));
                    assert(!cons.intersect(seen).contains(k));
                    if lm.contains_key(k) {
                        assert(!miss.contains(k));
                        assert(miss.intersect(seen2) =~= miss.intersect(seen));
                        if lm[k] != rm[k] {
                            assert(diffs.contains(k));
                            assert(diffs.intersect(seen2) =~= diffs.intersect(seen).insert(k));
                            assert(!diffs.intersect(seen).contains(k));
                        } else {
                            assert(!diffs.contains(k));
                            assert(diffs.intersect(seen2) =~= diffs.intersect(seen));
                        }
                    } else {
                        assert(miss.contains(k));
                        assert(miss.intersect(seen2) =~= miss.intersect(seen).insert(k));
                        assert(!miss.intersect(seen).contains(k));
                        assert(!diffs.contains(k));
                        assert(diffs.intersect(seen2) =~= diffs.intersect(seen));
                    }
                } else {
                    assert(!cons.contains(k) && !miss.contains(k) && !diffs.contains(k));
                    assert(cons.intersect(seen2) =~= cons.intersect(seen));
                    assert(miss.intersect(seen2) =~= miss.intersect(seen));
                    assert(diffs.intersect(seen2) =~= diffs.intersect(seen));
                }
                seen = seen2;
            }
            i = i + 1;
        }
        proof {
            assert forall|k: SdkInfoView| rm.contains_key(k) implies seen.contains(k) by {
                lemma_map_of_contains(entries@, k);
            }
            assert(cons.intersect(seen) =~= cons);
            assert(miss.intersect(seen) =~= miss);
            assert(diffs.intersect(seen) =~= diffs);
        }
        Ok(SyncStatus::new(total as u32, missing as u32, different as u32, revision, false))
    }

    /// Synchronizes the local stash with a remote catalog listing.
    ///
    /// Remote identities are processed in descending order; a change is
    /// committed durably (revision bumped by one, state persisted) before
    /// the next entry is attempted; entries whose content changed have
    /// their cached handle evicted; local entries gone from the remote
    /// are deleted and evicted; and one final unconditional revision bump
    /// is persisted, so a completed sync is always distinguishable from
    /// an interrupted one.  An unavailable catalog fails the whole sync
    /// with `Unavailable`.  The options only shape progress reporting and
    /// have no effect on the result.
    #[verifier::rlimit(60)]
    pub fn sync(&mut self, listing: Result<Vec<RemoteSdk>, CatalogError>, options: &SyncOptions)
        -> (r: Result<SyncReport, StashError>)
        requires
            old(self).wf(),
            match listing {
                Ok(ref list) => revision_value(old(self).effective_durable()) + list@.len() + 1
                    <= u64::MAX,
                Err(_) => true,
            },
        ensures
            final(self).wf(),
            final(self).patterns() == old(self).patterns(),
            match listing {
                Err(CatalogError::Unavailable) => r == Err::<SyncReport, StashError>(
                    StashError::Unavailable,
                ) && final(self).durable() == old(self).durable() && final(self).handles() == old(
                    self,
                ).handles() && final(self).snapshot() == Some(old(self).effective_durable()),
                Err(CatalogError::Other) => r == Err::<SyncReport, StashError>(StashError::Io)
                    && final(self).durable() == old(self).durable() && final(self).handles()
                    == old(self).handles() && final(self).snapshot() == Some(
                    old(self).effective_durable(),
                ),
                Ok(ref list) => match r {
                    Ok(rep) => ({
                        let lm = old(self).effective_durable().sdks;
                        let rm = map_of(list@);
                        let pats = old(self).patterns();
                        &&& final(self).durable() == Some(
                            SyncStateView {
                                sdks: spec_sync_result(lm, rm, pats),
                                revision: Some(
                                    (revision_value(old(self).effective_durable())
                                        + rep.fetched@.len() + 1) as u64,
                                ),
                            },
                        )
                        &&& final(self).snapshot() == final(self).durable()
                        &&& final(self).handles() == old(self).handles().remove_keys(
                            spec_evicted(lm, rm, pats),
                        )
                        &&& report_exact(rep, lm, rm, pats)
                        // the revision strictly increases on every completed sync
                        &&& revision_value(effective_of(final(self).durable()))
                            > revision_value(old(self).effective_durable())
                    }),
                    Err(_) => false,
                },
            },
    {
        let ghost listing0 = listing;
        let mut local = match self.read_local_state() {
            Ok(s) => s,
            Err(e) => return Err(e),
        };
        let remote = match self.fetch_remote_state(listing) {
            Ok(s) => s,
            Err(e) => return Err(e),
        };
        let ghost lm = local@.sdks;
        let ghost rm = remote@.sdks;
        let ghost pats = self.patterns();
        let ghost rev0 = revision_value(local@);
        let ghost handles0 = self.handles();

        // every remote identity, to be processed in descending order
        let mut infos: Vec<SdkInfo> = Vec::new();
        {
            let entries = remote.sdks();
            let en = entries.len();
            let mut i: usize = 0;
            while i < en
                invariant
                    0 <= i <= en,
                    en == entries@.len(),
                    infos@.len() == i,
                    forall|j: int| 0 <= j < i ==> (#[trigger] infos@[j])@ == entries@[j]@.info,
                decreases en - i,
            {
                infos.push(entries[i].info().clone());
                i = i + 1;
            }
            proof {
                assert(infos_distinct(infos@)) by {
                    assert forall|a: int, b: int| 0 <= a < b < infos@.len() implies (
                    #[trigger] infos@[a])@ != (#[trigger] infos@[b])@ by {
                        assert(entries@[a]@.info != entries@[b]@.info);
                    }
                }
                assert forall|k: SdkInfoView|
                    infos_contain(infos@, k) == rm.contains_key(k) by {
                    lemma_map_of_contains(entries@, k);
                    if infos_contain(infos@, k) {
                        let j = choose|j: int|
                            0 <= j < infos@.len() && (#[trigger] infos@[j])@ == k;
                        assert(entries@[j]@.info == k);
                    }
                    if rm.contains_key(k) {
                        let j = choose|j: int|
                            0 <= j < entries@.len() && (#[trigger] entries@[j])@.info == k;
                        assert(infos@[j]@ == k);
                    }
                }
                lemma_map_of_len(entries@);
                assert(infos@.len() == rm.len());
                match listing0 {
                    Ok(ref list) => {
                        lemma_map_of_len_le(list@);
                        assert(rm.len() <= list@.len());
                    },
                    Err(_) => {
                        assert(false);
                    },
                }
            }
        }
        let sorted = sort_infos_asc(&infos);
        let mut report = SyncReport {
            fetched: Vec::new(),
            deleted: Vec::new(),
            unchanged: Vec::new(),
            ignored: Vec::new(),
        };
        let n = sorted.len();
        let mut pos: usize = n;
        proof {
            assert(rev0 + n + 1 <= u64::MAX);
            assert(suffix_keys(sorted@, n as int) =~= Set::<SdkInfoView>::empty()) by {
                if exists|k: SdkInfoView| suffix_keys(sorted@, n as int).contains(k) {
                    let k = choose|k: SdkInfoView| suffix_keys(sorted@, n as int).contains(k);
                    let l = choose|l: int|
                        n <= l < sorted@.len() && (#[trigger] sorted@[l])@ == k;
                    assert(false);
                }
            }
            assert(local@.sdks =~= spec_partial(lm, rm, pats, suffix_keys(sorted@, n as int)));
            assert(spec_different(lm, rm, pats).intersect(suffix_keys(sorted@, n as int)) =~= Set::<
                SdkInfoView,
            >::empty());
            assert(self.handles() =~= handles0.remove_keys(
                spec_different(lm, rm, pats).intersect(suffix_keys(sorted@, n as int)),
            ));
            assert(spec_changed(lm, rm, pats).intersect(suffix_keys(sorted@, n as int)) =~= Set::<
                SdkInfoView,
            >::empty());
            assert(spec_unchanged_set(lm, rm, pats).intersect(suffix_keys(sorted@, n as int))
                =~= Set::<SdkInfoView>::empty());
            assert(spec_ignored_set(rm, pats).intersect(suffix_keys(sorted@, n as int)) =~= Set::<
                SdkInfoView,
            >::empty());
        }
        while pos > 0
            invariant
                0 <= pos <= n,
                n == sorted@.len(),
                self.wf(),
                local.wf(),
                remote.wf(),
                rm == remote@.sdks,
                infos_distinct(sorted@),
                infos_sorted_asc(sorted@),
                forall|k: SdkInfoView| infos_contain(sorted@, k) == rm.contains_key(k),
                self.patterns() == pats,
                rev0 + n + 1 <= u64::MAX,
                local@.sdks == spec_partial(lm, rm, pats, suffix_keys(sorted@, pos as int)),
                revision_value(local@) == rev0 + report.fetched@.len(),
                report.fetched@.len() <= n - pos,
                self.handles() == handles0.remove_keys(
                    spec_different(lm, rm, pats).intersect(suffix_keys(sorted@, pos as int)),
                ),
                fetched_enum(
                    report.fetched@,
                    spec_changed(lm, rm, pats).intersect(suffix_keys(sorted@, pos as int)),
                    rm,
                ),
                fetched_descending(report.fetched@),
                infos_enumerate(
                    report.unchanged@,
                    spec_unchanged_set(lm, rm, pats).intersect(suffix_keys(sorted@, pos as int)),
                ),
                infos_enumerate(
                    report.ignored@,
                    spec_ignored_set(rm, pats).intersect(suffix_keys(sorted@, pos as int)),
                ),
                report.deleted@.len() == 0,
            decreases pos,
        {
            pos = pos - 1;
            let info = &sorted[pos];
            let ghost k = info@;
            let ghost p_old = suffix_keys(sorted@, pos + 1);
            let ghost p_new = suffix_keys(sorted@, pos as int);
            proof {
                lemma_suffix_insert(sorted@, pos as int);
                assert(infos_contain(sorted@, k));
                assert(rm.contains_key(k));
                assert(p_new.contains(k));
            }
            let ignored = self.sdk_is_ignored(info);
            if ignored {
                let ghost ig0 = report.ignored@;
                report.ignored.push(info.clone());
                proof {
                    assert(spec_ignored_set(rm, pats).contains(k));
                    assert(spec_ignored_set(rm, pats).intersect(p_new) =~= spec_ignored_set(
                        rm,
                        pats,
                    ).intersect(p_old).insert(k));
                    lemma_infos_enum_push(
                        ig0,
                        report.ignored@,
                        spec_ignored_set(rm, pats).intersect(p_old),
                        k,
                    );
                    assert(spec_changed(lm, rm, pats).intersect(p_new) =~= spec_changed(
                        lm,
                        rm,
                        pats,
                    ).intersect(p_old));
                    assert(spec_unchanged_set(lm, rm, pats).intersect(p_new)
                        =~= spec_unchanged_set(lm, rm, pats).intersect(p_old));
                    assert(spec_different(lm, rm, pats).intersect(p_new) =~= spec_different(
                        lm,
                        rm,
                        pats,
                    ).intersect(p_old));
                    assert(spec_partial(lm, rm, pats, p_new) =~= spec_partial(
                        lm,
                        rm,
                        pats,
                        p_old,
                    ));
                }
            } else {
                let sdk = match remote.get_sdk(info) {
                    Some(s) => s.clone(),
                    None => {
                        proof {
                            assert(false);
                        }
                        return Err(StashError::Io);
                    },
                };
                proof {
                    assert(sdk@ == rm[k]);
                }
                let decision: (bool, bool) = match local.get_sdk(info) {
                    Some(loc) => (!loc.equals(&sdk), true),
                    None => (true, false),
                };
                let changed = decision.0;
                let was_present = decision.1;
                if changed {
                    proof {
                        assert(spec_changed(lm, rm, pats).contains(k)) by {
                            assert(local@.sdks == spec_partial(lm, rm, pats, p_old));
                            assert(!p_old.contains(k));
                            if was_present {
                                assert(local@.sdks.contains_key(k) && local@.sdks[k] != rm[k]);
                                assert(lm.contains_key(k) && lm[k] != rm[k]);
                            } else {
                                assert(!local@.sdks.contains_key(k));
                                assert(!lm.contains_key(k));
                            }
                        }
                    }
                    if was_present {
                        self.memdbs.remove(info);
                    }
                    let ghost f0 = report.fetched@;
                    report.fetched.push(sdk.clone());
                    local.update_sdk(&sdk);
                    proof {
                        assert(revision_value(local@) == rev0 + f0.len());
                        assert(rev0 + f0.len() < u64::MAX);
                    }
                    local.bump_revision();
                    self.save_local_state(&local);
                    proof {
                        assert(local@.sdks =~= spec_partial(lm, rm, pats, p_new)) by {
                            assert(local@.sdks == spec_partial(lm, rm, pats, p_old).insert(
                                k,
                                rm[k],
                            ));
                        }
                        assert(spec_changed(lm, rm, pats).intersect(p_new) =~= spec_changed(
                            lm,
                            rm,
                            pats,
                        ).intersect(p_old).insert(k));
                        lemma_fetched_enum_push(
                            f0,
                            report.fetched@,
                            spec_changed(lm, rm, pats).intersect(p_old),
                            k,
                            rm,
                        );
                        // earlier fetched entries carry larger identities:
                        // they sit in the already-processed suffix
                        assert(fetched_descending(report.fetched@)) by {
                            assert forall|a: int, b: int|
                                0 <= a < b < report.fetched@.len() implies crate::sdkinfo::info_lt(
                                (#[trigger] report.fetched@[b])@.info,
                                (#[trigger] report.fetched@[a])@.info,
                            ) by {
                                if b < f0.len() {
                                    assert(report.fetched@[a] == f0[a]);
                                    assert(report.fetched@[b] == f0[b]);
                                } else {
                                    assert(report.fetched@[a] == f0[a]);
                                    assert(report.fetched@[b]@.info == k);
                                    assert(spec_changed(lm, rm, pats).intersect(p_old).contains(
                                        f0[a]@.info,
                                    ));
                                    assert(p_old.contains(f0[a]@.info));
                                    let l = choose|l: int|
                                        pos + 1 <= l < sorted@.len() && (#[trigger] sorted@[l])@
                                            == f0[a]@.info;
                                    assert(crate::sdkinfo::info_lt(
                                        sorted@[pos as int]@,
                                        sorted@[l]@,
                                    ));
                                }
                            }
                        }
                        assert(spec_unchanged_set(lm, rm, pats).intersect(p_new)
                            =~= spec_unchanged_set(lm, rm, pats).intersect(p_old));
                        assert(spec_ignored_set(rm, pats).intersect(p_new) =~= spec_ignored_set(
                            rm,
                            pats,
                        ).intersect(p_old));
                        if was_present && lm.contains_key(k) && lm[k] != rm[k] {
                            assert(spec_different(lm, rm, pats).contains(k));
                            assert(spec_different(lm, rm, pats).intersect(p_new)
                                =~= spec_different(lm, rm, pats).intersect(p_old).insert(k));
                            assert(self.handles() =~= handles0.remove_keys(
                                spec_different(lm, rm, pats).intersect(p_new),
                            ));
                        } else {
                            assert(!spec_different(lm, rm, pats).contains(k));
                            assert(spec_different(lm, rm, pats).intersect(p_new)
                                =~= spec_different(lm, rm, pats).intersect(p_old));
                            assert(self.handles() =~= handles0.remove_keys(
                                spec_different(lm, rm, pats).intersect(p_new),
                            ));
                        }
                    }
                } else {
                    let ghost u0 = report.unchanged@;
                    report.unchanged.push(info.clone());
                    proof {
                        assert(local@.sdks.contains_key(k) && local@.sdks[k] == rm[k]);
                        assert(lm.contains_key(k) && lm[k] == rm[k]);
                        assert(spec_unchanged_set(lm, rm, pats).contains(k));
                        assert(spec_unchanged_set(lm, rm, pats).intersect(p_new)
                            =~= spec_unchanged_set(lm, rm, pats).intersect(p_old).insert(k));
                        lemma_infos_enum_push(
                            u0,
                            report.unchanged@,
                            spec_unchanged_set(lm, rm, pats).intersect(p_old),
                            k,
                        );
                        assert(spec_changed(lm, rm, pats).intersect(p_new) =~= spec_changed(
                            lm,
                            rm,
                            pats,
                        ).intersect(p_old));
                        assert(spec_ignored_set(rm, pats).intersect(p_new) =~= spec_ignored_set(
                            rm,
                            pats,
                        ).intersect(p_old));
                        assert(spec_different(lm, rm, pats).intersect(p_new) =~= spec_different(
                            lm,
                            rm,
                            pats,
                        ).intersect(p_old));
                        assert(spec_partial(lm, rm, pats, p_new) =~= spec_partial(
                            lm,
                            rm,
                            pats,
                            p_old,
                        ));
                    }
                }
            }
        }
        proof {
            assert(suffix_keys(sorted@, 0) =~= rm.dom()) by {
                assert forall|k: SdkInfoView|
                    suffix_keys(sorted@, 0).contains(k) == rm.dom().contains(k) by {
                    if suffix_keys(sorted@, 0).contains(k) {
                        let l = choose|l: int|
                            0 <= l < sorted@.len() && (#[trigger] sorted@[l])@ == k;
                        assert(infos_contain(sorted@, k));
                    }
                    if rm.contains_key(k) {
                        assert(infos_contain(sorted@, k));
                        let l = choose|l: int|
                            0 <= l < sorted@.len() && (#[trigger] sorted@[l])@ == k;
                        assert(suffix_keys(sorted@, 0).contains(k));
                    }
                }
            }
            assert(spec_changed(lm, rm, pats).intersect(rm.dom()) =~= spec_changed(
                lm,
                rm,
                pats,
            ));
            assert(spec_unchanged_set(lm, rm, pats).intersect(rm.dom()) =~= spec_unchanged_set(
                lm,
                rm,
                pats,
            ));
            assert(spec_ignored_set(rm, pats).intersect(rm.dom()) =~= spec_ignored_set(
                rm,
                pats,
            ));
            assert(spec_different(lm, rm, pats).intersect(rm.dom()) =~= spec_different(
                lm,
                rm,
                pats,
            ));
        }
        let ghost lm2 = local@.sdks;

        // whatever is left locally but gone remotely is deleted
        let mut doomed: Vec<SdkInfo> = Vec::new();
        {
            let entries2 = local.sdks();
            let m = entries2.len();
            let mut j: usize = 0;
            proof {
                assert(entry_prefix_keys(entries2@, 0) =~= Set::<SdkInfoView>::empty()) by {
                    if exists|k: SdkInfoView| entry_prefix_keys(entries2@, 0).contains(k) {
                        let k = choose|k: SdkInfoView|
                            entry_prefix_keys(entries2@, 0).contains(k);
                        let l = choose|l: int|
                            0 <= l < 0 && (#[trigger] entries2@[l])@.info == k;
                        assert(false);
                    }
                }
                assert(spec_deleted_set(lm, rm).intersect(entry_prefix_keys(entries2@, 0)) =~= Set::<
                    SdkInfoView,
                >::empty());
            }
            while j < m
                invariant
                    0 <= j <= m,
                    m == entries2@.len(),
                    seq_keys_distinct(entries2@),
                    map_of(entries2@) == lm2,
                    lm2 == spec_partial(lm, rm, pats, rm.dom()),
                    remote.wf(),
                    rm == remote@.sdks,
                    infos_enumerate(
                        doomed@,
                        spec_deleted_set(lm, rm).intersect(entry_prefix_keys(entries2@, j as int)),
                    ),
                decreases m - j,
            {
                let ghost k = entries2@[j as int]@.info;
                proof {
                    lemma_entry_prefix_insert(entries2@, j as int);
                    lemma_map_of_get(entries2@, k, j as int);
                    assert(lm2.contains_key(k));
                }
                match remote.get_sdk(entries2[j].info()) {
                    Some(_) => {
                        proof {
                            assert(rm.contains_key(k));
                            assert(!spec_deleted_set(lm, rm).contains(k));
                            assert(spec_deleted_set(lm, rm).intersect(
                                entry_prefix_keys(entries2@, j + 1),
                            ) =~= spec_deleted_set(lm, rm).intersect(
                                entry_prefix_keys(entries2@, j as int),
                            ));
                        }
                    },
                    None => {
                        let ghost d0 = doomed@;
                        doomed.push(entries2[j].info().clone());
                        proof {
                            assert(!rm.contains_key(k));
                            assert(lm.contains_key(k));
                            assert(spec_deleted_set(lm, rm).contains(k));
                            assert(spec_deleted_set(lm, rm).intersect(
                                entry_prefix_keys(entries2@, j + 1),
                            ) =~= spec_deleted_set(lm, rm).intersect(
                                entry_prefix_keys(entries2@, j as int),
                            ).insert(k));
                            lemma_infos_enum_push(
                                d0,
                                doomed@,
                                spec_deleted_set(lm, rm).intersect(
                                    entry_prefix_keys(entries2@, j as int),
                                ),
                                k,
                            );
                        }
                    },
                }
                j = j + 1;
            }
            proof {
                assert forall|k: SdkInfoView|
                    spec_deleted_set(lm, rm).contains(k) implies entry_prefix_keys(
                    entries2@,
                    m as int,
                ).contains(k) by {
                    assert(lm2.contains_key(k));
                    lemma_map_of_contains(entries2@, k);
                    let l = choose|l: int|
                        0 <= l < entries2@.len() && (#[trigger] entries2@[l])@.info == k;
                    assert(entry_prefix_keys(entries2@, m as int).contains(k));
                }
                assert(spec_deleted_set(lm, rm).intersect(entry_prefix_keys(entries2@, m as int))
                    =~= spec_deleted_set(lm, rm));
            }
        }
        let dn = doomed.len();
        let mut t: usize = 0;
        proof {
            assert(info_prefix_keys(doomed@, 0) =~= Set::<SdkInfoView>::empty()) by {
                if exists|k: SdkInfoView| info_prefix_keys(doomed@, 0).contains(k) {
                    let k = choose|k: SdkInfoView| info_prefix_keys(doomed@, 0).contains(k);
                    let l = choose|l: int| 0 <= l < 0 && (#[trigger] doomed@[l])@ == k;
                    assert(false);
                }
            }
            assert(lm2.remove_keys(info_prefix_keys(doomed@, 0)) =~= lm2);
            assert(handles0.remove_keys(
                spec_different(lm, rm, pats).union(info_prefix_keys(doomed@, 0)),
            ) =~= handles0.remove_keys(spec_different(lm, rm, pats)));
        }
        while t < dn
            invariant
                0 <= t <= dn,
                dn == doomed@.len(),
                self.wf(),
                local.wf(),
                self.patterns() == pats,
                infos_enumerate(doomed@, spec_deleted_set(lm, rm)),
                lm2 == spec_partial(lm, rm, pats, rm.dom()),
                local@.sdks == lm2.remove_keys(info_prefix_keys(doomed@, t as int)),
                revision_value(local@) == rev0 + report.fetched@.len(),
                report.fetched@.len() <= n,
                rev0 + n + 1 <= u64::MAX,
                self.handles() == handles0.remove_keys(
                    spec_different(lm, rm, pats).union(info_prefix_keys(doomed@, t as int)),
                ),
                fetched_enum(report.fetched@, spec_changed(lm, rm, pats), rm),
                fetched_descending(report.fetched@),
                infos_enumerate(report.unchanged@, spec_unchanged_set(lm, rm, pats)),
                infos_enumerate(report.ignored@, spec_ignored_set(rm, pats)),
                report.deleted@.len() == t,
                forall|i: int| 0 <= i < t ==> (#[trigger] report.deleted@[i])@ == doomed@[i]@,
            decreases dn - t,
        {
            let dinfo = &doomed[t];
            let ghost k = dinfo@;
            proof {
                lemma_info_prefix_insert(doomed@, t as int);
            }
            local.remove_sdk(dinfo);
            self.memdbs.remove(dinfo);
            report.deleted.push(dinfo.clone());
            proof {
                assert(local@.sdks =~= lm2.remove_keys(info_prefix_keys(doomed@, t + 1)));
                assert(self.handles() =~= handles0.remove_keys(
                    spec_different(lm, rm, pats).union(info_prefix_keys(doomed@, t + 1)),
                ));
            }
            t = t + 1;
        }
        proof {
            assert(info_prefix_keys(doomed@, dn as int) =~= spec_deleted_set(lm, rm)) by {
                assert forall|k: SdkInfoView|
                    info_prefix_keys(doomed@, dn as int).contains(k) == spec_deleted_set(
                    lm,
                    rm,
                ).contains(k) by {
                    if info_prefix_keys(doomed@, dn as int).contains(k) {
                        let l = choose|l: int|
                            0 <= l < dn && (#[trigger] doomed@[l])@ == k;
                        assert(spec_deleted_set(lm, rm).contains(doomed@[l]@));
                    }
                    if spec_deleted_set(lm, rm).contains(k) {
                        assert(infos_contain(doomed@, k));
                        let l = choose|l: int|
                            0 <= l < doomed@.len() && (#[trigger] doomed@[l])@ == k;
                        assert(info_prefix_keys(doomed@, dn as int).contains(k));
                    }
                }
            }
            assert(local@.sdks =~= spec_sync_result(lm, rm, pats));
            assert(self.handles() =~= handles0.remove_keys(spec_evicted(lm, rm, pats)));
            assert(revision_value(local@) < u64::MAX);
            // the deleted report lists exactly the deleted set
            assert(infos_enumerate(report.deleted@, spec_deleted_set(lm, rm))) by {
                assert forall|i: int|
                    0 <= i < report.deleted@.len() implies spec_deleted_set(lm, rm).contains(
                    (#[trigger] report.deleted@[i])@,
                ) by {
                    assert(report.deleted@[i]@ == doomed@[i]@);
                    assert(spec_deleted_set(lm, rm).contains(doomed@[i]@));
                }
                assert forall|k: SdkInfoView|
                    spec_deleted_set(lm, rm).contains(k) implies infos_contain(
                    report.deleted@,
                    k,
                ) by {
                    let l = choose|l: int|
                        0 <= l < doomed@.len() && (#[trigger] doomed@[l])@ == k;
                    assert(report.deleted@[l]@ == k);
                }
                assert forall|a: int, b: int|
                    0 <= a < b < report.deleted@.len() implies (
                #[trigger] report.deleted@[a])@ != (#[trigger] report.deleted@[b])@ by {
                    assert(report.deleted@[a]@ == doomed@[a]@);
                    assert(report.deleted@[b]@ == doomed@[b]@);
                }
            }
        }
        local.bump_revision();
        self.save_local_state(&local);
        Ok(report)
    }

    /// Scores every identity in local state against a query; see
    /// `fuzzy_match_sdk_id`.  The score of an identity whose distance to
    /// the query is "no match" is the sentinel, which sorts it last.
    fn score_all(state: &SdkSyncState, query: &SdkInfo) -> (r: Vec<ScoredInfo>)
        requires
            state.wf(),
        ensures
            scored_infos_distinct(r@),
            forall|sv: ScoredView|
                scored_contain(r@, sv) == (state@.sdks.contains_key(sv.info) && sv.score
                    == effective_score(query@, sv.info)),
    {
        let entries = state.sdks();
        let n = entries.len();
        let mut scored: Vec<ScoredInfo> = Vec::new();
        let mut i: usize = 0;
        while i < n
            invariant
                0 <= i <= n,
                n == entries@.len(),
                seq_keys_distinct(entries@),
                scored@.len() == i,
                forall|j: int|
                    0 <= j < i ==> (#[trigger] scored@[j])@.info == entries@[j]@.info && scored@[
                        j
                    ]@.score == effective_score(query@, entries@[j]@.info),
            decreases n - i,
        {
            let oinfo = entries[i].info();
            let s: u64 = match oinfo.get_fuzzy_match(query) {
                Some(s) => s,
                None => NO_MATCH_SCORE,
            };
            proof {
                assert(s == effective_score(query@, entries@[i as int]@.info));
            }
            let ghost s0 = scored@;
            scored.push(ScoredInfo { score: s, info: oinfo.clone() });
            proof {
                assert(forall|j: int| 0 <= j < i ==> (#[trigger] scored@[j]) == s0[j]);
                assert(scored@[i as int]@.info == entries@[i as int]@.info);
                assert(scored@[i as int]@.score == effective_score(
                    query@,
                    entries@[i as int]@.info,
                ));
            }
            i = i + 1;
        }
        proof {
            assert(scored_infos_distinct(scored@)) by {
                assert forall|a: int, b: int| 0 <= a < b < scored@.len() implies (
                #[trigger] scored@[a])@.info != (#[trigger] scored@[b])@.info by {
                    assert(entries@[a]@.info != entries@[b]@.info);
                }
            }
            assert forall|sv: ScoredView|
                scored_contain(scored@, sv) == (state@.sdks.contains_key(sv.info) && sv.score
                    == effective_score(query@, sv.info)) by {
                lemma_map_of_contains(entries@, sv.info);
                if scored_contain(scored@, sv) {
                    let j = choose|j: int|
                        0 <= j < scored@.len() && (#[trigger] scored@[j])@ == sv;
                    assert(entries@[j]@.info == sv.info);
                }
                if state@.sdks.contains_key(sv.info) && sv.score == effective_score(
                    query@,
                    sv.info,
                ) {
                    let j = choose|j: int|
                        0 <= j < entries@.len() && (#[trigger] entries@[j])@.info == sv.info;
                    assert(scored@[j]@ == sv);
                }
            }
        }
        scored
    }

    /// Given a textual identity, ranks every identity in local state by
    /// fuzzy distance and returns the closest ten (or fewer), best first.
    /// Ties break deterministically: candidates not greater than the
    /// query first, then descending identity.  Malformed input degrades
    /// gracefully to an empty result.  An identity present in local
    /// state is the first result when queried exactly.
    pub fn fuzzy_match_sdk_id(&mut self, sdk_id: &str) -> (r: Result<Vec<SdkInfo>, StashError>)
        requires
            old(self).wf(),
        ensures
            final(self).wf(),
            final(self).durable() == old(self).durable(),
            final(self).handles() == old(self).handles(),
            final(self).patterns() == old(self).patterns(),
            final(self).snapshot() == Some(old(self).current()),
            match r {
                Ok(v) => match spec_parse_filename(sdk_id@) {
                    None => v@.len() == 0,
                    Some(q) => ({
                        let m = old(self).current().sdks;
                        &&& exists|full: Seq<ScoredView>|
                            ranked_listing(q, m, full) && listed_prefix(v@, full)
                        &&& (m.contains_key(q) ==> v@.len() > 0 && v@[0]@ == q)
                    }),
                },
                Err(_) => false,
            },
    {
        let state = match self.get_local_state() {
            Ok(s) => s,
            Err(e) => return Err(e),
        };
        let query = match SdkInfo::from_filename(sdk_id) {
            Some(qi) => qi,
            None => {
                return Ok(Vec::new());
            },
        };
        let ghost q = query@;
        let ghost m = state@.sdks;
        let scored = Self::score_all(&state, &query);
        let ranked = sort_scored(&query, scored);
        let limit: usize = if ranked.len() < 10 {
            ranked.len()
        } else {
            10
        };
        let mut out: Vec<SdkInfo> = Vec::new();
        let mut i: usize = 0;
        while i < limit
            invariant
                0 <= i <= limit,
                limit <= ranked@.len(),
                out@.len() == i,
                forall|j: int| 0 <= j < i ==> (#[trigger] out@[j])@ == ranked@[j]@.info,
            decreases limit - i,
        {
            let ghost o0 = out@;
            out.push(ranked[i].info.clone());
            proof {
                assert(forall|j: int| 0 <= j < i ==> (#[trigger] out@[j]) == o0[j]);
                assert(out@[i as int]@ == ranked@[i as int]@.info);
            }
            i = i + 1;
        }
        proof {
            let full = Seq::new(ranked@.len(), |j: int| ranked@[j]@);
            assert(scored_views_sorted(q, full)) by {
                assert forall|a: int, b: int| 0 <= a < b < full.len() implies scored_before(
                    q,
                    #[trigger] full[a],
                    #[trigger] full[b],
                ) by {
                    assert(scored_before(q, ranked@[a]@, ranked@[b]@));
                }
            }
            assert forall|sv: ScoredView|
                full.contains(sv) == (m.contains_key(sv.info) && sv.score == effective_score(
                    q,
                    sv.info,
                )) by {
                if full.contains(sv) {
                    let j = choose|j: int| 0 <= j < full.len() && full[j] == sv;
                    assert(ranked@[j]@ == sv);
                    assert(scored_contain(ranked@, sv));
                }
                if m.contains_key(sv.info) && sv.score == effective_score(q, sv.info) {
                    assert(scored_contain(ranked@, sv));
                    let j = choose|j: int|
                        0 <= j < ranked@.len() && (#[trigger] ranked@[j])@ == sv;
                    assert(full[j] == sv);
                }
            }
            assert(ranked_listing(q, m, full));
            assert(listed_prefix(out@, full));
            if m.contains_key(q) {
                let svq = ScoredView { score: effective_score(q, q), info: q };
                lemma_fuzzy_zero(q, q);
                assert(spec_fuzzy_score(q, q) == Some(0u64));
                assert(svq.score == 0);
                assert(full.contains(svq));
                let j = choose|j: int| 0 <= j < full.len() && full[j] == svq;
                assert(full.len() > 0);
                if j > 0 {
                    assert(scored_before(q, full[0], full[j]));
                    assert(full[0].score == 0);
                    assert(full.contains(full[0]));
                    assert(full[0].info != q ==> spec_fuzzy_score(full[0].info, q) != Some(
                        0u64,
                    )) by {
                        lemma_fuzzy_zero(full[0].info, q);
                    }
                    assert(effective_score(q, full[0].info) == 0);
                    assert(spec_fuzzy_score(full[0].info, q) == Some(0u64)) by {
                        assert(NO_MATCH_SCORE != 0);
                    }
                    assert(full[0].info == q);
                    assert(full[0] == svq);
                    assert(scored_before(q, svq, svq));
                    lemma_scored_irreflexive(q, svq);
                    assert(false);
                }
                assert(full[0] == svq);
                assert(out@[0]@ == q);
            }
        }
        Ok(out)
    }

    /// Resolves a textual identifier, then looks the handle up; an
    /// unparsable identifier is a hard error for this exact lookup.
    pub fn get_memdb_from_sdk_id(&mut self, sdk_id: &str) -> (r: Result<MemDb, StashError>)
        requires
            old(self).wf(),
        ensures
            final(self).wf(),
            final(self).durable() == old(self).durable(),
            final(self).patterns() == old(self).patterns(),
            match spec_parse_filename(sdk_id@) {
                Some(q) => memdb_outcome(*old(self), *final(self), q, r),
                None => r == Err::<MemDb, StashError>(StashError::InvalidIdentifier)
                    && final(self).handles() == old(self).handles() && final(self).snapshot()
                    == old(self).snapshot(),
            },
    {
        match SdkInfo::from_filename(sdk_id) {
            Some(q) => self.get_memdb(&q),
            None => Err(StashError::InvalidIdentifier),
        }
    }
}

} // verus!
