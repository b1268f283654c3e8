use bob::codec::DiffError;
use bob::diff::{DataState, DirDiff, DirDiffEntry, FileFlags};

fn three_entry_diff() -> DirDiff {
    DirDiff {
        entries: vec![
            DirDiffEntry::Dir(b"sub".to_vec()),
            DirDiffEntry::File {
                path: b"sub/a.bin".to_vec(),
                state: DataState::Raw(vec![0, 1, 2, 250]),
                flags: Some(FileFlags { executable: true }),
            },
            DirDiffEntry::File {
                path: b"b.txt".to_vec(),
                state: DataState::Identical,
                flags: Some(FileFlags { executable: false }),
            },
            DirDiffEntry::File {
                path: b"c.txt".to_vec(),
                state: DataState::Patch(vec![9, 9, 9]),
                flags: None,
            },
        ],
    }
}

fn entries_equal(a: &DirDiff, b: &DirDiff) -> bool {
    if a.entries.len() != b.entries.len() {
        return false;
    }
    for (x, y) in a.entries.iter().zip(b.entries.iter()) {
        let same = match (x, y) {
            (DirDiffEntry::Dir(p), DirDiffEntry::Dir(q)) => p == q,
            (
                DirDiffEntry::File { path: p1, state: s1, flags: f1 },
                DirDiffEntry::File { path: p2, state: s2, flags: f2 },
            ) => {
                let states = match (s1, s2) {
                    (DataState::Identical, DataState::Identical) => true,
                    (DataState::Raw(a), DataState::Raw(b)) => a == b,
                    (DataState::Patch(a), DataState::Patch(b)) => a == b,
                    _ => false,
                };
                let flags = match (f1, f2) {
                    (None, None) => true,
                    (Some(a), Some(b)) => a.executable == b.executable,
                    _ => false,
                };
                p1 == p2 && states && flags
            }
            _ => false,
        };
        if !same {
            return false;
        }
    }
    true
}

#[test]
fn codec_round_trip_all_entry_kinds() {
    let d = three_entry_diff();
    let ser = d.ser();
    assert_eq!(&ser[0..7], b"BOBDIFF");
    assert_eq!(ser[7], 2);
    let back = DirDiff::deser(&ser).expect("round trip fails");
    assert!(entries_equal(&d, &back));
}

#[test]
fn codec_round_trip_empty_diff() {
    let d = DirDiff { entries: vec![] };
    let back = DirDiff::deser(&d.ser()).expect("round trip fails");
    assert!(back.entries.is_empty());
}

#[test]
fn deser_rejects_bad_magic() {
    let mut ser = three_entry_diff().ser();
    ser[0] = b'X';
    assert_eq!(DirDiff::deser(&ser), Err(DiffError::InvalidMagic));
    assert_eq!(DirDiff::deser(b"short"), Err(DiffError::InvalidMagic));
    assert_eq!(DirDiff::deser(b""), Err(DiffError::InvalidMagic));
}

#[test]
fn deser_rejects_wrong_version() {
    let mut ser = three_entry_diff().ser();
    ser[7] = 1;
    assert_eq!(DirDiff::deser(&ser), Err(DiffError::VersionMismatch));
    assert_eq!(DirDiff::deser(b"BOBDIFF"), Err(DiffError::VersionMismatch));
}

#[test]
fn deser_rejects_garbage_payload() {
    let mut ser = b"BOBDIFF".to_vec();
    ser.push(2);
    ser.extend_from_slice(b"this is not zstd");
    assert_eq!(DirDiff::deser(&ser), Err(DiffError::Decompression));
}

#[test]
fn deser_rejects_malformed_entries() {
    // a valid frame whose plaintext is not an entry sequence
    let mut ser = b"BOBDIFF".to_vec();
    ser.push(2);
    let frame = zstd::encode_all(&b"ZZZZZZZZZZ"[..], 9).unwrap();
    ser.extend_from_slice(&frame);
    assert_eq!(DirDiff::deser(&ser), Err(DiffError::Malformed));
}

#[test]
fn deser_rejects_duplicate_entries() {
    let d = DirDiff {
        entries: vec![
            DirDiffEntry::Dir(b"same".to_vec()),
            DirDiffEntry::Dir(b"same".to_vec()),
        ],
    };
    assert_eq!(DirDiff::deser(&d.ser()), Err(DiffError::Malformed));
}
