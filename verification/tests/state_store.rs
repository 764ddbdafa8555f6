use symbolstash::sdkinfo::SdkInfo;
use symbolstash::state::{RemoteSdk, SdkSyncState};
use symbolstash::status::SyncStatus;
use symbolstash::store::StateStore;

fn info(s: &str) -> SdkInfo {
    SdkInfo::from_filename(s).expect("valid identifier")
}

fn entry(id: &str, etag: &str, size: u64) -> RemoteSdk {
    let i = info(id);
    let filename = i.memdb_filename();
    RemoteSdk::new(filename, i, etag.to_string(), size)
}

#[test]
fn remote_sdk_accessors_and_equality() {
    let e = entry("ios_1.2.3_9A100", "etag-1", 42);
    assert_eq!(e.filename(), "ios_1.2.3_9A100.memdb");
    assert_eq!(e.size(), 42);
    assert_eq!(e.etag(), "etag-1");
    assert_eq!(e.info(), &info("ios_1.2.3_9A100"));
    let same = entry("ios_1.2.3_9A100", "etag-1", 42);
    let changed = entry("ios_1.2.3_9A100", "etag-2", 42);
    assert!(e.equals(&same));
    assert!(!e.equals(&changed)); // the etag takes part in equality
}

#[test]
fn sync_state_insert_lookup_remove() {
    let mut st = SdkSyncState::new();
    assert_eq!(st.sdk_count(), 0);
    assert!(st.revision().is_none());

    let a = entry("ios_1.0.0_A1", "ea", 1);
    let b = entry("ios_2.0.0_B1", "eb", 2);
    st.update_sdk(&a);
    st.update_sdk(&b);
    assert_eq!(st.sdk_count(), 2);
    let got = st.get_sdk(&info("ios_1.0.0_A1")).expect("present");
    assert_eq!(got.etag(), "ea");
    assert!(st.get_sdk(&info("ios_9.9.9_ZZ")).is_none());

    // replacing an entry for the same identity keeps the count
    let a2 = entry("ios_1.0.0_A1", "ea-new", 3);
    st.update_sdk(&a2);
    assert_eq!(st.sdk_count(), 2);
    assert_eq!(
        st.get_sdk(&info("ios_1.0.0_A1")).expect("present").etag(),
        "ea-new"
    );

    st.remove_sdk(&info("ios_1.0.0_A1"));
    assert_eq!(st.sdk_count(), 1);
    assert!(st.get_sdk(&info("ios_1.0.0_A1")).is_none());
}

#[test]
fn revision_bump_counts_fresh_state_as_zero() {
    let mut st = SdkSyncState::new();
    st.bump_revision();
    assert_eq!(st.revision(), Some(1));
    st.bump_revision();
    assert_eq!(st.revision(), Some(2));
}

#[test]
fn temp_write_leaves_prior_state_intact() {
    // the crash point between the temp-file write and the rename: the
    // canonical state is still the previous complete one
    let mut prior = SdkSyncState::new();
    prior.update_sdk(&entry("ios_1.0.0_A1", "ea", 1));
    prior.bump_revision();

    let mut store = StateStore::new(Some(prior));
    let mut next = SdkSyncState::new();
    next.update_sdk(&entry("ios_2.0.0_B1", "eb", 2));
    next.bump_revision();
    next.bump_revision();

    store.write_temp(next);
    let seen = store.read().expect("canonical state still present");
    assert_eq!(seen.revision(), Some(1));
    assert_eq!(seen.sdk_count(), 1);
    assert!(seen.get_sdk(&info("ios_1.0.0_A1")).is_some());

    store.commit_temp();
    let seen = store.read().expect("new state after the rename");
    assert_eq!(seen.revision(), Some(2));
    assert!(seen.get_sdk(&info("ios_2.0.0_B1")).is_some());
    assert!(seen.get_sdk(&info("ios_1.0.0_A1")).is_none());
}

#[test]
fn store_over_absent_file_reads_nothing() {
    let store = StateStore::new(None);
    assert!(store.read().is_none());
}

#[test]
fn health_formula_is_exact() {
    // healthy means 10 * lag < remote_total, offline always healthy
    let s = SyncStatus::new(10, 1, 0, 5, false);
    assert_eq!(s.lag(), 1);
    assert!(!s.is_healthy()); // 10 * 1 < 10 is false: exactly at the edge

    let s = SyncStatus::new(11, 1, 0, 5, false);
    assert!(s.is_healthy()); // 10 * 1 < 11

    let s = SyncStatus::new(11, 0, 1, 5, false);
    assert_eq!(s.lag(), 1); // missing and different both count
    assert!(s.is_healthy());

    let s = SyncStatus::new(0, 0, 0, 0, false);
    assert!(!s.is_healthy()); // an empty remote is never healthy online

    let s = SyncStatus::new(0, 0, 0, 0, true);
    assert!(s.is_offline());
    assert!(s.is_healthy()); // offline is a valid, healthy steady state
    assert_eq!(s.revision(), 0);
}
