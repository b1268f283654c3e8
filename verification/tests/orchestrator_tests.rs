use bob::buildinfo::{BuildInfo, Project, hash_to_hex, hex_to_hash, plan_project};
use bob::hashing::{FileRecord, dirhasher};

fn ledger_with(name: &str, hash: u64, date: i64) -> BuildInfo {
    let mut info = BuildInfo::new();
    info.record_entry(Project { name: name.as_bytes().to_vec(), hash, build_date: date });
    info
}

#[test]
fn first_build_has_no_previous_entry() {
    // nothing recorded yet: the driver must run
    assert!(plan_project(None, false, b"proj", 42).is_none());
    assert!(plan_project(None, true, b"proj", 42).is_none());
}

#[test]
fn incremental_skip_preserves_build_date() {
    let info = ledger_with("proj", 42, 1700000000);
    let reused = plan_project(Some(&info), true, b"proj", 42).expect("must skip");
    assert_eq!(reused.name, b"proj".to_vec());
    assert_eq!(reused.hash, 42);
    assert_eq!(reused.build_date, 1700000000);
}

#[test]
fn changed_hash_forces_rebuild() {
    let info = ledger_with("proj", 42, 1700000000);
    assert!(plan_project(Some(&info), true, b"proj", 43).is_none());
}

#[test]
fn missing_subdirectory_forces_rebuild() {
    // a stale ledger without the output subdirectory counts for nothing
    let info = ledger_with("proj", 42, 1700000000);
    assert!(plan_project(Some(&info), false, b"proj", 42).is_none());
}

#[test]
fn unknown_project_forces_rebuild() {
    let info = ledger_with("proj", 42, 1700000000);
    assert!(plan_project(Some(&info), true, b"other", 42).is_none());
}

#[test]
fn ledger_accumulates_in_order() {
    let mut info = BuildInfo::new();
    info.record_entry(Project { name: b"a".to_vec(), hash: 1, build_date: 10 });
    info.record_entry(Project { name: b"b".to_vec(), hash: 2, build_date: 20 });
    assert_eq!(info.projects.len(), 2);
    assert_eq!(info.projects[0].name, b"a".to_vec());
    assert_eq!(info.projects[1].name, b"b".to_vec());
    assert!(info.check_wf());
}

#[test]
fn ledger_wf_rejects_duplicates() {
    let info = BuildInfo {
        projects: vec![
            Project { name: b"a".to_vec(), hash: 1, build_date: 10 },
            Project { name: b"a".to_vec(), hash: 2, build_date: 20 },
        ],
    };
    assert!(!info.check_wf());
}

#[test]
fn hex_encoding_is_sixteen_lowercase_digits() {
    assert_eq!(hash_to_hex(0x0123456789abcdef), b"0123456789abcdef".to_vec());
    assert_eq!(hash_to_hex(0), b"0000000000000000".to_vec());
    assert_eq!(hash_to_hex(u64::MAX), b"ffffffffffffffff".to_vec());
}

#[test]
fn hex_round_trip_concrete() {
    for v in [0u64, 1, 0xdead_beef_0bad_f00d, u64::MAX] {
        assert_eq!(hex_to_hash(&hash_to_hex(v)), Some(v));
    }
}

#[test]
fn hex_parse_rejects_bad_input() {
    assert_eq!(hex_to_hash(b"123"), None);
    assert_eq!(hex_to_hash(b"0123456789abcdeg"), None);
    assert_eq!(hex_to_hash(b"0123456789abcdef0"), None);
    assert_eq!(hex_to_hash(b"0123456789ABCDEF"), Some(0x0123456789abcdef));
}

#[test]
fn incremental_build_cycle() {
    let fingerprint = |content: &[u8]| {
        dirhasher(&vec![FileRecord { rel_path: b"a.txt".to_vec(), content: content.to_vec() }])
    };
    // first build: nothing recorded, the driver must run
    let h1 = fingerprint(b"hello");
    assert!(plan_project(None, false, b"proj", h1).is_none());
    let mut ledger = BuildInfo::new();
    ledger.record_entry(Project { name: b"proj".to_vec(), hash: h1, build_date: 111 });

    // second run, unchanged source: skipped, build date preserved
    let h2 = fingerprint(b"hello");
    assert_eq!(h1, h2);
    let reused = plan_project(Some(&ledger), true, b"proj", h2).expect("must reuse");
    assert_eq!(reused.build_date, 111);

    // third run, edited source: fingerprint changes, rebuild
    let h3 = fingerprint(b"world");
    assert_ne!(h1, h3);
    assert!(plan_project(Some(&ledger), true, b"proj", h3).is_none());
}
