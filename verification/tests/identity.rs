use symbolstash::sdkinfo::SdkInfo;
use symbolstash::text::glob_matches;

fn info(s: &str) -> SdkInfo {
    SdkInfo::from_filename(s).expect("valid identifier")
}

#[test]
fn parse_canonical_identifier() {
    let i = info("ios_10.3.1_14E8301");
    assert_eq!(i.name(), "ios");
    assert_eq!(i.version_major(), 10);
    assert_eq!(i.version_minor(), 3);
    assert_eq!(i.version_patch(), 1);
    assert_eq!(i.build(), "14E8301");
}

#[test]
fn render_sdk_id_and_filename() {
    let i = info("ios_10.3.1_14E8301");
    assert_eq!(i.sdk_id(), "ios_10.3.1_14E8301");
    assert_eq!(i.memdb_filename(), "ios_10.3.1_14E8301.memdb");
}

#[test]
fn parse_accepts_memdb_extension() {
    let i = SdkInfo::from_filename("ios_10.3.1_14E8301.memdb").expect("filename parses");
    assert_eq!(i.sdk_id(), "ios_10.3.1_14E8301");
}

#[test]
fn parse_rejects_malformed_identifiers() {
    assert!(SdkInfo::from_filename("").is_none());
    assert!(SdkInfo::from_filename("ios").is_none());
    assert!(SdkInfo::from_filename("ios_10.3_14E").is_none());
    assert!(SdkInfo::from_filename("ios_10.3.1").is_none());
    assert!(SdkInfo::from_filename("ios_10.3.1_").is_none());
    assert!(SdkInfo::from_filename("_10.3.1_14E").is_none());
    assert!(SdkInfo::from_filename("ios_01.3.1_14E").is_none());
    assert!(SdkInfo::from_filename("ios_1.0.0_b_c").is_none());
    assert!(SdkInfo::from_filename("i os_1.0.0_b").is_none());
    assert!(SdkInfo::from_filename("ios_1.0.x_b").is_none());
}

#[test]
fn parse_rejects_oversized_version_numbers() {
    // one past u32::MAX does not fit
    assert!(SdkInfo::from_filename("ios_4294967296.0.0_b").is_none());
    // u32::MAX itself does
    let i = SdkInfo::from_filename("ios_4294967295.0.0_b").expect("fits in u32");
    assert_eq!(i.version_major(), u32::MAX);
}

#[test]
fn identity_round_trip_through_new() {
    let i = SdkInfo::new("tvos".to_string(), 9, 2, 0, "13C75".to_string());
    assert_eq!(i.sdk_id(), "tvos_9.2.0_13C75");
    let back = SdkInfo::from_filename(&i.sdk_id()).expect("round trip");
    assert_eq!(back, i);
}

#[test]
fn identity_total_order() {
    let a = info("ios_1.0.0_A");
    let b = info("ios_2.0.0_A");
    let c = info("tvos_1.0.0_A");
    let d = info("ios_1.0.0_B");
    assert!(a.lt(&b));
    assert!(!b.lt(&a));
    assert!(b.lt(&c)); // names order first
    assert!(a.lt(&d)); // build breaks the final tie
    assert!(!a.lt(&a));
}

#[test]
fn fuzzy_score_exact_and_graded() {
    let base = info("ios_10.3.1_14E8301");
    assert_eq!(base.get_fuzzy_match(&base), Some(0));
    // one patch level away
    assert_eq!(info("ios_10.3.2_14E8301").get_fuzzy_match(&base), Some(100));
    // two minor versions away
    assert_eq!(info("ios_10.5.1_14E8301").get_fuzzy_match(&base), Some(20000));
    // one major version away
    assert_eq!(info("ios_11.3.1_14E8301").get_fuzzy_match(&base), Some(1000000));
    // only the build differs
    assert_eq!(info("ios_10.3.1_14E8888").get_fuzzy_match(&base), Some(1));
    // a different name never matches
    assert_eq!(info("tvos_10.3.1_14E8301").get_fuzzy_match(&base), None);
    // component distances are capped
    assert_eq!(
        info("ios_250.3.1_14E8301").get_fuzzy_match(&base),
        Some(99_000_000)
    );
}

#[test]
fn glob_pattern_matching() {
    assert!(glob_matches("*", "anything"));
    assert!(glob_matches("ios_*", "ios_10.3.1_14E8301"));
    assert!(!glob_matches("ios_*", "tvos_10.3.1_14E8301"));
    assert!(glob_matches("a*b", "ab"));
    assert!(glob_matches("a*b", "axxxb"));
    assert!(!glob_matches("a*b", "axc"));
    assert!(glob_matches("", ""));
    assert!(!glob_matches("", "x"));
    assert!(glob_matches("*_9.0.0_*", "ios_9.0.0_13A340"));
}
