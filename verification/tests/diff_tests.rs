use bob::apply::ApplyError;
use bob::codec::DiffError;
use bob::diff::{DataState, DirDiff, DirDiffEntry};
use bob::tree::{Tree, TreeEntry};

fn dir(path: &str) -> TreeEntry {
    TreeEntry::Dir { path: path.as_bytes().to_vec() }
}

fn file(path: &str, data: &[u8]) -> TreeEntry {
    TreeEntry::File { path: path.as_bytes().to_vec(), data: data.to_vec(), executable: false }
}

fn xfile(path: &str, data: &[u8]) -> TreeEntry {
    TreeEntry::File { path: path.as_bytes().to_vec(), data: data.to_vec(), executable: true }
}

fn tree(entries: Vec<TreeEntry>) -> Tree {
    let t = Tree { entries };
    assert!(t.check_wf(), "test tree must be well-formed");
    t
}

fn entry_tuple(e: &TreeEntry) -> (Vec<u8>, Option<(Vec<u8>, bool)>) {
    match e {
        TreeEntry::Dir { path } => (path.clone(), None),
        TreeEntry::File { path, data, executable } => {
            (path.clone(), Some((data.clone(), *executable)))
        }
    }
}

/// Compare two trees as path -> node maps.
fn same_content(a: &Tree, b: &Tree) -> bool {
    let mut am: Vec<_> = a.entries.iter().map(entry_tuple).collect();
    let mut bm: Vec<_> = b.entries.iter().map(entry_tuple).collect();
    am.sort();
    bm.sort();
    am == bm
}

/// A small deterministic byte generator for test payloads.
fn pseudo_random_bytes(len: usize, seed: u64) -> Vec<u8> {
    let mut state = seed;
    let mut out = Vec::with_capacity(len);
    for _ in 0..len {
        state = state.wrapping_mul(6364136223846793005).wrapping_add(1442695040888963407);
        out.push((state >> 33) as u8);
    }
    out
}

#[test]
fn identity_diff_is_noop() {
    let x = tree(vec![dir("d"), file("d/a.txt", b"hello"), xfile("run", b"#!bin")]);
    let clone_x = tree(vec![dir("d"), file("d/a.txt", b"hello"), xfile("run", b"#!bin")]);
    let d = DirDiff::new(&x, &x);
    for e in &d.entries {
        match e {
            DirDiffEntry::File { state, .. } => {
                assert!(matches!(state, DataState::Identical));
            }
            DirDiffEntry::Dir(_) => {}
        }
    }
    let (result, skipped) = d.apply_to(&clone_x, true).expect("identity apply fails");
    assert!(skipped.is_empty());
    assert!(same_content(&result, &x));
}

#[test]
fn diff_patch_path_round_trip() {
    // a sizeable binary, sixteen bytes flipped in the new tree
    let old_data = pseudo_random_bytes(1 << 20, 7);
    let mut new_data = old_data.clone();
    for k in 0..16 {
        let idx = k * 65536 + 13;
        new_data[idx] ^= 0xff;
    }
    let a = tree(vec![file("foo.bin", &old_data)]);
    let b = tree(vec![file("foo.bin", &new_data)]);
    let d = DirDiff::new(&a, &b);
    assert_eq!(d.entries.len(), 1);
    match &d.entries[0] {
        DirDiffEntry::File { state, .. } => {
            assert!(matches!(state, DataState::Patch(_)), "expected a patch entry");
        }
        _ => panic!("expected a file entry"),
    }
    let ser = d.ser();
    assert_eq!(&ser[0..7], b"BOBDIFF");
    assert_eq!(ser[7], 2);
    let d2 = DirDiff::deser(&ser).expect("deser fails");
    let (result, skipped) = d2.apply_to(&a, true).expect("apply fails");
    assert!(skipped.is_empty());
    assert!(same_content(&result, &b));
}

#[test]
fn diff_raw_path_for_new_file() {
    let a = tree(vec![file("keep.txt", b"same")]);
    let b = tree(vec![file("keep.txt", b"same"), file("new.txt", b"x")]);
    let d = DirDiff::new(&a, &b);
    let mut saw_raw = false;
    for e in &d.entries {
        if let DirDiffEntry::File { path, state, .. } = e {
            if path == b"new.txt" {
                match state {
                    DataState::Raw(data) => {
                        assert_eq!(data, b"x");
                        saw_raw = true;
                    }
                    _ => panic!("new.txt must be a raw entry"),
                }
            }
        }
    }
    assert!(saw_raw);
    let (result, skipped) = d.apply_to(&a, true).expect("apply fails");
    assert!(skipped.is_empty());
    assert!(same_content(&result, &b));
}

#[test]
fn delete_policy_governs_removals() {
    let a = tree(vec![file("gone.txt", b"bye"), file("stay.txt", b"hi")]);
    let b = tree(vec![file("stay.txt", b"hi")]);
    let d = DirDiff::new(&a, &b);
    let (with_delete, _) = d.apply_to(&a, true).expect("apply fails");
    assert!(same_content(&with_delete, &b));
    let (without_delete, _) = d.apply_to(&a, false).expect("apply fails");
    assert!(same_content(&without_delete, &a));
}

#[test]
fn removed_directory_subtree() {
    let a = tree(vec![dir("sub"), file("sub/inner.txt", b"data"), file("top.txt", b"t")]);
    let b = tree(vec![file("top.txt", b"t")]);
    let d = DirDiff::new(&a, &b);
    let (result, skipped) = d.apply_to(&a, true).expect("apply fails");
    assert!(skipped.is_empty());
    assert!(same_content(&result, &b));
}

#[test]
fn created_directory_chain() {
    let a = tree(vec![file("top.txt", b"t")]);
    let b = tree(vec![
        dir("x"),
        dir("x/y"),
        file("x/y/deep.txt", b"deep"),
        file("top.txt", b"t"),
    ]);
    let d = DirDiff::new(&a, &b);
    let (result, skipped) = d.apply_to(&a, true).expect("apply fails");
    assert!(skipped.is_empty());
    assert!(same_content(&result, &b));
}

#[test]
fn executable_bit_follows_new_tree() {
    let a = tree(vec![file("tool", b"bits")]);
    let b = tree(vec![xfile("tool", b"bits")]);
    let d = DirDiff::new(&a, &b);
    let (result, skipped) = d.apply_to(&a, true).expect("apply fails");
    assert!(skipped.is_empty());
    assert!(same_content(&result, &b));
}

#[test]
fn missing_preimage_is_reported_and_skipped() {
    // a delta whose identical entry has no file on the target tree
    let d = DirDiff {
        entries: vec![
            DirDiffEntry::File {
                path: b"absent.txt".to_vec(),
                state: DataState::Identical,
                flags: None,
            },
            DirDiffEntry::File { path: b"made.txt".to_vec(), state: DataState::Raw(b"m".to_vec()), flags: None },
        ],
    };
    let target = tree(vec![]);
    let (result, skipped) = d.apply_to(&target, true).expect("apply fails");
    assert_eq!(skipped, vec![b"absent.txt".to_vec()]);
    assert!(same_content(&result, &tree(vec![file("made.txt", b"m")])));
}

#[test]
fn corrupt_patch_aborts_apply() {
    let d = DirDiff {
        entries: vec![DirDiffEntry::File {
            path: b"a.bin".to_vec(),
            state: DataState::Patch(b"not a real patch".to_vec()),
            flags: None,
        }],
    };
    let target = tree(vec![file("a.bin", b"content")]);
    match d.apply_to(&target, true) {
        Err(ApplyError::PatchFailed) => {}
        _ => panic!("expected a patch failure"),
    }
}

#[test]
fn deser_rejects_traversal_paths() {
    // a delta that names `..` cannot come back out of the codec
    let d = DirDiff {
        entries: vec![DirDiffEntry::File {
            path: b"../evil".to_vec(),
            state: DataState::Raw(b"x".to_vec()),
            flags: None,
        }],
    };
    let ser = d.ser();
    match DirDiff::deser(&ser) {
        Err(DiffError::Malformed) => {}
        _ => panic!("expected rejection of a non-normalized path"),
    }
}
