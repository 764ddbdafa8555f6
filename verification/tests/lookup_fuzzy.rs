use symbolstash::sdkinfo::SdkInfo;
use symbolstash::stash::MemDbStash;
use symbolstash::state::RemoteSdk;
use symbolstash::{StashError, SyncOptions};

fn info(s: &str) -> SdkInfo {
    SdkInfo::from_filename(s).expect("valid identifier")
}

fn entry(id: &str, etag: &str, size: u64) -> RemoteSdk {
    let i = info(id);
    let filename = i.memdb_filename();
    RemoteSdk::new(filename, i, etag.to_string(), size)
}

fn opts() -> SyncOptions {
    SyncOptions::default()
}

fn stash_with(entries: Vec<RemoteSdk>) -> MemDbStash {
    let mut stash = MemDbStash::new(vec![], None);
    stash.sync(Ok(entries), &opts()).expect("sync");
    stash
}

#[test]
fn get_memdb_serves_known_identities_only() {
    let b = entry("ios_2.0.0_B1", "eb", 2);
    let mut stash = stash_with(vec![b.clone()]);

    let h = stash.get_memdb(b.info()).expect("known identity");
    assert_eq!(h.info(), b.info());
    assert_eq!(h.etag(), "eb");

    let r = stash.get_memdb(&info("ios_9.9.9_ZZ"));
    assert_eq!(r.err(), Some(StashError::UnknownIdentity));
}

#[test]
fn get_memdb_from_sdk_id_resolves_text() {
    let b = entry("ios_2.0.0_B1", "eb", 2);
    let mut stash = stash_with(vec![b.clone()]);

    let h = stash.get_memdb_from_sdk_id("ios_2.0.0_B1").expect("known");
    assert_eq!(h.etag(), "eb");

    let r = stash.get_memdb_from_sdk_id("not a valid id");
    assert_eq!(r.err(), Some(StashError::InvalidIdentifier));

    let r = stash.get_memdb_from_sdk_id("ios_9.9.9_ZZ");
    assert_eq!(r.err(), Some(StashError::UnknownIdentity));
}

#[test]
fn changed_entry_serves_fresh_handle_after_sync() {
    // cache coherence: a handle obtained after the sync that replaced an
    // entry carries the new content fingerprint, never the stale one
    let b = entry("ios_2.0.0_B1", "eb", 2);
    let mut stash = stash_with(vec![b.clone()]);

    let h1 = stash.get_memdb(b.info()).expect("handle");
    assert_eq!(h1.etag(), "eb");

    let b2 = entry("ios_2.0.0_B1", "eb-new", 2);
    stash.sync(Ok(vec![b2.clone()]), &opts()).expect("resync");

    let h2 = stash.get_memdb(b.info()).expect("handle again");
    assert_eq!(h2.etag(), "eb-new");
}

#[test]
fn unchanged_entry_keeps_serving_its_handle() {
    let b = entry("ios_2.0.0_B1", "eb", 2);
    let c = entry("ios_3.0.0_C1", "ec", 3);
    let mut stash = stash_with(vec![b.clone()]);
    let h1 = stash.get_memdb(b.info()).expect("handle");
    stash
        .sync(Ok(vec![b.clone(), c.clone()]), &opts())
        .expect("resync");
    let h2 = stash.get_memdb(b.info()).expect("handle again");
    assert_eq!(h1.etag(), h2.etag());
}

#[test]
fn fuzzy_exact_match_comes_first() {
    let mut stash = stash_with(vec![
        entry("ios_2.0.0_B1", "e1", 1),
        entry("ios_2.0.1_B1", "e2", 1),
        entry("ios_1.9.9_B1", "e3", 1),
        entry("tvos_2.0.0_B1", "e4", 1),
    ]);
    let matches = stash.fuzzy_match_sdk_id("ios_2.0.0_B1").expect("fuzzy");
    assert!(!matches.is_empty());
    assert_eq!(matches[0], info("ios_2.0.0_B1"));
}

#[test]
fn fuzzy_is_deterministic_across_calls() {
    let mut stash = stash_with(vec![
        entry("ios_2.0.0_B1", "e1", 1),
        entry("ios_2.0.1_B1", "e2", 1),
        entry("ios_2.1.0_B1", "e3", 1),
        entry("tvos_2.0.0_B1", "e4", 1),
        entry("ios_3.0.0_B1", "e5", 1),
    ]);
    let first = stash.fuzzy_match_sdk_id("ios_2.0.0_B1").expect("fuzzy");
    let second = stash.fuzzy_match_sdk_id("ios_2.0.0_B1").expect("fuzzy");
    assert_eq!(first, second);
}

#[test]
fn fuzzy_prefers_not_newer_on_score_ties() {
    // both candidates are one patch level away; the one not greater than
    // the query wins the tie
    let mut stash = stash_with(vec![
        entry("ios_2.0.6_B1", "e1", 1),
        entry("ios_2.0.4_B1", "e2", 1),
    ]);
    let matches = stash.fuzzy_match_sdk_id("ios_2.0.5_B1").expect("fuzzy");
    assert_eq!(matches.len(), 2);
    assert_eq!(matches[0], info("ios_2.0.4_B1"));
    assert_eq!(matches[1], info("ios_2.0.6_B1"));
}

#[test]
fn fuzzy_sorts_unmatched_names_last() {
    let mut stash = stash_with(vec![
        entry("tvos_2.0.0_B1", "e1", 1),
        entry("ios_9.9.9_B1", "e2", 1),
    ]);
    let matches = stash.fuzzy_match_sdk_id("ios_2.0.0_B1").expect("fuzzy");
    assert_eq!(matches.len(), 2);
    // a far ios version still beats a name that cannot match at all
    assert_eq!(matches[0], info("ios_9.9.9_B1"));
    assert_eq!(matches[1], info("tvos_2.0.0_B1"));
}

#[test]
fn fuzzy_returns_at_most_ten() {
    let mut catalog = Vec::new();
    for minor in 0..12u32 {
        let id = format!("ios_2.{}.0_B1", minor);
        catalog.push(entry(&id, "e", 1));
    }
    let mut stash = stash_with(catalog);
    let matches = stash.fuzzy_match_sdk_id("ios_2.0.0_B1").expect("fuzzy");
    assert_eq!(matches.len(), 10);
}

#[test]
fn fuzzy_degrades_gracefully_on_malformed_input() {
    let mut stash = stash_with(vec![entry("ios_2.0.0_B1", "e1", 1)]);
    let matches = stash.fuzzy_match_sdk_id("!!not-an-id!!").expect("no error");
    assert!(matches.is_empty());
}
