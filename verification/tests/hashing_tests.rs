use bob::hashing::{FileRecord, dirhasher};

fn record(path: &str, content: &[u8]) -> FileRecord {
    FileRecord { rel_path: path.as_bytes().to_vec(), content: content.to_vec() }
}

#[test]
fn hash_deterministic_across_runs() {
    let files = vec![record("a.txt", b"hello"), record("sub/b.txt", b"world")];
    let again = vec![record("a.txt", b"hello"), record("sub/b.txt", b"world")];
    assert_eq!(dirhasher(&files), dirhasher(&again));
}

#[test]
fn hash_order_invariant() {
    let one_order = vec![record("a.txt", b"hello"), record("sub/b.txt", b"world"), record("z", b"")];
    let other_order = vec![record("z", b""), record("sub/b.txt", b"world"), record("a.txt", b"hello")];
    assert_eq!(dirhasher(&one_order), dirhasher(&other_order));
}

#[test]
fn hash_sensitive_to_content() {
    let base = vec![record("a.txt", b"hello")];
    let flipped = vec![record("a.txt", b"hellp")];
    assert_ne!(dirhasher(&base), dirhasher(&flipped));
}

#[test]
fn hash_sensitive_to_path() {
    let base = vec![record("a.txt", b"hello")];
    let moved = vec![record("b.txt", b"hello")];
    assert_ne!(dirhasher(&base), dirhasher(&moved));
}

#[test]
fn hash_sensitive_to_file_set() {
    let base = vec![record("a.txt", b"hello")];
    let more = vec![record("a.txt", b"hello"), record("b.txt", b"")];
    assert_ne!(dirhasher(&base), dirhasher(&more));
    let none: Vec<FileRecord> = vec![];
    assert_ne!(dirhasher(&base), dirhasher(&none));
}
