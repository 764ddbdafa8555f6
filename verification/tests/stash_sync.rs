use symbolstash::sdkinfo::SdkInfo;
use symbolstash::stash::MemDbStash;
use symbolstash::state::RemoteSdk;
use symbolstash::{CatalogError, StashError, SyncOptions};

fn info(s: &str) -> SdkInfo {
    SdkInfo::from_filename(s).expect("valid identifier")
}

fn entry(id: &str, etag: &str, size: u64) -> RemoteSdk {
    let i = info(id);
    let filename = i.memdb_filename();
    RemoteSdk::new(filename, i, etag.to_string(), size)
}

fn opts() -> SyncOptions {
    SyncOptions::default()
}

#[test]
fn sync_set_diff() {
    // local {A, B}, remote {B, C}: afterwards local is {B, C}, A is
    // deleted, C is fetched, B is untouched
    let a = entry("ios_1.0.0_A1", "ea", 1);
    let b = entry("ios_2.0.0_B1", "eb", 2);
    let c = entry("ios_3.0.0_C1", "ec", 3);

    let mut stash = MemDbStash::new(vec![], None);
    stash
        .sync(Ok(vec![a.clone(), b.clone()]), &opts())
        .expect("first sync");

    let rep = stash
        .sync(Ok(vec![b.clone(), c.clone()]), &opts())
        .expect("second sync");

    assert_eq!(rep.fetched.len(), 1);
    assert_eq!(rep.fetched[0].info(), c.info());
    assert_eq!(rep.deleted.len(), 1);
    assert_eq!(&rep.deleted[0], a.info());
    assert_eq!(rep.unchanged.len(), 1);
    assert_eq!(&rep.unchanged[0], b.info());
    assert_eq!(rep.ignored.len(), 0);

    let listed = stash.list_sdks().expect("list");
    assert_eq!(listed, vec![b.info().clone(), c.info().clone()]);
    assert!(stash.get_memdb(a.info()).is_err());
    assert!(stash.get_memdb(b.info()).is_ok());
}

#[test]
fn sync_processes_in_descending_order() {
    let a = entry("ios_1.0.0_A1", "ea", 1);
    let b = entry("ios_2.0.0_B1", "eb", 2);
    let c = entry("ios_3.0.0_C1", "ec", 3);
    let mut stash = MemDbStash::new(vec![], None);
    let rep = stash
        .sync(Ok(vec![a.clone(), c.clone(), b.clone()]), &opts())
        .expect("sync");
    // later identities are fetched first
    assert_eq!(rep.fetched.len(), 3);
    assert_eq!(rep.fetched[0].info(), c.info());
    assert_eq!(rep.fetched[1].info(), b.info());
    assert_eq!(rep.fetched[2].info(), a.info());
}

#[test]
fn sync_twice_is_idempotent() {
    let a = entry("ios_1.0.0_A1", "ea", 1);
    let b = entry("ios_2.0.0_B1", "eb", 2);
    let mut stash = MemDbStash::new(vec![], None);

    let rep1 = stash
        .sync(Ok(vec![a.clone(), b.clone()]), &opts())
        .expect("first sync");
    assert_eq!(rep1.fetched.len(), 2);
    let rev1 = stash.get_revision().expect("revision");

    let rep2 = stash
        .sync(Ok(vec![a.clone(), b.clone()]), &opts())
        .expect("second sync");
    assert_eq!(rep2.fetched.len(), 0);
    assert_eq!(rep2.deleted.len(), 0);
    assert_eq!(rep2.unchanged.len(), 2);
    let rev2 = stash.get_revision().expect("revision");

    // exactly one increment on the unchanged run: the final bump
    assert_eq!(rev2, rev1 + 1);

    let status = stash
        .get_sync_status(Ok(vec![a.clone(), b.clone()]))
        .expect("status");
    assert!(status.is_healthy());
    assert_eq!(status.lag(), 0);
}

#[test]
fn revision_strictly_increases_across_syncs() {
    let a = entry("ios_1.0.0_A1", "ea", 1);
    let b = entry("ios_2.0.0_B1", "eb", 2);
    let mut stash = MemDbStash::new(vec![], None);
    assert_eq!(stash.get_revision().expect("revision"), 0);

    let mut last = 0u64;
    let catalogs = vec![
        vec![a.clone()],
        vec![a.clone(), b.clone()],
        vec![a.clone(), b.clone()],
        vec![b.clone()],
        vec![],
    ];
    for catalog in catalogs {
        stash.sync(Ok(catalog), &opts()).expect("sync");
        let rev = stash.get_revision().expect("revision");
        assert!(rev > last);
        last = rev;
    }
}

#[test]
fn sync_counts_revision_per_change_plus_final_bump() {
    let a = entry("ios_1.0.0_A1", "ea", 1);
    let b = entry("ios_2.0.0_B1", "eb", 2);
    let mut stash = MemDbStash::new(vec![], None);
    stash.sync(Ok(vec![a.clone(), b.clone()]), &opts()).expect("sync");
    // two fetched changes and one final bump
    assert_eq!(stash.get_revision().expect("revision"), 3);
}

#[test]
fn offline_degradation() {
    let a = entry("ios_1.0.0_A1", "ea", 1);
    let mut stash = MemDbStash::new(vec![], None);
    stash.sync(Ok(vec![a.clone()]), &opts()).expect("sync");

    let status = stash
        .get_sync_status(Err(CatalogError::Unavailable))
        .expect("offline is a valid status");
    assert!(status.is_offline());
    assert!(status.is_healthy());
    assert_eq!(status.lag(), 0);
    assert_eq!(status.revision(), 2);

    let r = stash.sync(Err(CatalogError::Unavailable), &opts());
    assert_eq!(r.err(), Some(StashError::Unavailable));
    // the failed sync committed nothing
    assert_eq!(stash.get_revision().expect("revision"), 2);
}

#[test]
fn fatal_catalog_errors_propagate() {
    let mut stash = MemDbStash::new(vec![], None);
    assert_eq!(
        stash.sync(Err(CatalogError::Other), &opts()).err(),
        Some(StashError::Io)
    );
    assert_eq!(
        stash.get_sync_status(Err(CatalogError::Other)).err(),
        Some(StashError::Io)
    );
}

#[test]
fn ignored_identities_are_not_fetched_or_counted() {
    let d = entry("ios_9.0.0_X1", "ed", 4);
    let keep = entry("tvos_1.0.0_K1", "ek", 5);
    let mut stash = MemDbStash::new(vec!["ios_9*".to_string()], None);

    assert!(stash.sdk_is_ignored(d.info()));
    assert!(!stash.sdk_is_ignored(keep.info()));

    let rep = stash
        .sync(Ok(vec![d.clone(), keep.clone()]), &opts())
        .expect("sync");
    assert_eq!(rep.ignored.len(), 1);
    assert_eq!(&rep.ignored[0], d.info());
    assert_eq!(rep.fetched.len(), 1);
    assert_eq!(rep.fetched[0].info(), keep.info());
    assert_eq!(stash.sdk_count().expect("count"), 1);

    let status = stash
        .get_sync_status(Ok(vec![d.clone(), keep.clone()]))
        .expect("status");
    assert_eq!(status.remote_total(), 1);
    assert_eq!(status.missing(), 0);
    assert_eq!(status.different(), 0);
}

#[test]
fn ignored_local_entry_survives_sync() {
    // an ignored identity that is still published remotely is neither
    // re-fetched nor deleted, even when its remote content changed
    let d = entry("ios_9.0.0_X1", "ed", 4);
    let mut feeder = MemDbStash::new(vec![], None);
    feeder.sync(Ok(vec![d.clone()]), &opts()).expect("seed sync");
    let seeded = feeder.get_local_state().expect("state");

    let mut stash = MemDbStash::new(vec!["ios_9*".to_string()], Some(seeded));
    let d_changed = entry("ios_9.0.0_X1", "ed-new", 4);
    let rep = stash
        .sync(Ok(vec![d_changed.clone()]), &opts())
        .expect("sync");
    assert_eq!(rep.ignored.len(), 1);
    assert_eq!(rep.fetched.len(), 0);
    assert_eq!(rep.deleted.len(), 0);
    // the local entry still carries the old fingerprint
    let h = stash.get_memdb(d.info()).expect("handle");
    assert_eq!(h.etag(), "ed");
}

#[test]
fn status_counts_missing_and_different() {
    let a_old = entry("ios_1.0.0_A1", "ea-old", 1);
    let a_new = entry("ios_1.0.0_A1", "ea-new", 1);
    let b = entry("ios_2.0.0_B1", "eb", 2);
    let c = entry("ios_3.0.0_C1", "ec", 3);

    let mut stash = MemDbStash::new(vec![], None);
    stash
        .sync(Ok(vec![a_old.clone(), b.clone()]), &opts())
        .expect("seed sync");

    // remote now carries a changed A, drops B, and adds C
    let status = stash
        .get_sync_status(Ok(vec![a_new.clone(), c.clone()]))
        .expect("status");
    assert!(!status.is_offline());
    assert_eq!(status.remote_total(), 2);
    assert_eq!(status.different(), 1); // A changed its etag
    assert_eq!(status.missing(), 1); // C has no local counterpart
    assert_eq!(status.lag(), 2);
    assert!(!status.is_healthy()); // 10 * 2 < 2 fails
    assert_eq!(status.revision(), 3);
}

#[test]
fn empty_catalog_empties_the_stash() {
    let a = entry("ios_1.0.0_A1", "ea", 1);
    let mut stash = MemDbStash::new(vec![], None);
    stash.sync(Ok(vec![a.clone()]), &opts()).expect("sync");
    let rep = stash.sync(Ok(vec![]), &opts()).expect("empty sync");
    assert_eq!(rep.deleted.len(), 1);
    assert_eq!(stash.sdk_count().expect("count"), 0);
}

#[test]
fn duplicate_catalog_entries_last_wins() {
    let old = entry("ios_1.0.0_A1", "e-old", 1);
    let new = entry("ios_1.0.0_A1", "e-new", 1);
    let mut stash = MemDbStash::new(vec![], None);
    stash.sync(Ok(vec![old, new]), &opts()).expect("sync");
    let h = stash.get_memdb(&info("ios_1.0.0_A1")).expect("handle");
    assert_eq!(h.etag(), "e-new");
}
