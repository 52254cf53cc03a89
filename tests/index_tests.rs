use rit::error::RitError;
use rit::index::{is_hash_text, normalize_path, parse_index_line, read_index, Index, IndexEntry};
use rit::mode::{mode_from_permissions, FileMode};
use rit::object::ObjectStore;

const H1: &str = "ce013625030ba8dba906f756967f9e9ca394464a";
const H2: &str = "e69de29bb2d1d6434b8b29ae775ad8c2e48c5391";

fn entry(mode: FileMode, h: &str, p: &str) -> IndexEntry {
    IndexEntry { mode, sha1: h.as_bytes().to_vec(), path: p.as_bytes().to_vec() }
}

#[test]
fn mode_text_and_parse() {
    assert_eq!(FileMode::Regular.text(), b"100644".to_vec());
    assert_eq!(FileMode::Executable.text(), b"100755".to_vec());
    assert_eq!(FileMode::Symlink.text(), b"120000".to_vec());
    assert_eq!(FileMode::Directory.text(), b"40000".to_vec());
    assert_eq!(FileMode::parse(b"100755"), Some(FileMode::Executable));
    assert_eq!(FileMode::parse(b"40000"), Some(FileMode::Directory));
    assert_eq!(FileMode::parse(b"100666"), None);
}

#[test]
fn mode_from_permission_bits() {
    assert_eq!(mode_from_permissions(0o644), FileMode::Regular);
    assert_eq!(mode_from_permissions(0o755), FileMode::Executable);
    assert_eq!(mode_from_permissions(0o100), FileMode::Executable);
}

#[test]
fn index_lines_three_fields_and_legacy() {
    let line = format!("100755 {} src/run.sh", H1);
    assert_eq!(
        parse_index_line(line.as_bytes()),
        Some(entry(FileMode::Executable, H1, "src/run.sh"))
    );
    let legacy = format!("{} docs/a b.txt", H2);
    assert_eq!(
        parse_index_line(legacy.as_bytes()),
        Some(entry(FileMode::Regular, H2, "docs/a b.txt"))
    );
    assert_eq!(parse_index_line(b"garbage"), None);
    assert_eq!(parse_index_line(format!("100644 {}", H1).as_bytes()), None);
    assert_eq!(parse_index_line(b"100644 nothex path"), None);
    assert!(is_hash_text(H1.as_bytes()));
    assert!(!is_hash_text(b"abc"));
}

#[test]
fn read_index_skips_malformed_and_replaces_duplicates() {
    let text = format!(
        "100644 {h1} a.txt\nnot a line\n\n{h2} b.txt\n100755 {h2} a.txt\n",
        h1 = H1,
        h2 = H2
    );
    let (idx, skipped) = read_index(text.as_bytes());
    assert_eq!(skipped, 1);
    assert_eq!(
        idx.entries(),
        &vec![entry(FileMode::Regular, H2, "b.txt"), entry(FileMode::Executable, H2, "a.txt")]
    );
    let again = idx.to_text();
    assert_eq!(again, format!("100644 {h2} b.txt\n100755 {h2} a.txt\n", h2 = H2).into_bytes());
}

#[test]
fn upsert_and_remove() {
    let mut idx = Index::new();
    assert!(idx.is_empty());
    idx.upsert(entry(FileMode::Regular, H1, "x"));
    idx.upsert(entry(FileMode::Regular, H1, "y"));
    idx.upsert(entry(FileMode::Regular, H2, "x"));
    assert_eq!(
        idx.entries(),
        &vec![entry(FileMode::Regular, H1, "y"), entry(FileMode::Regular, H2, "x")]
    );
    assert_eq!(idx.remove(b"nope"), Err(RitError::NotFound));
    assert_eq!(idx.remove(b"y"), Ok(()));
    assert_eq!(idx.entries(), &vec![entry(FileMode::Regular, H2, "x")]);
    assert_eq!(idx.position(b"x"), Some(0));
}

#[test]
fn stage_file_skips_unchanged() {
    let mut store = ObjectStore::new();
    let mut idx = Index::new();
    assert!(idx.stage_file(&mut store, b"hello.txt", FileMode::Regular, b"hello\n"));
    assert_eq!(idx.entries(), &vec![entry(FileMode::Regular, H1, "hello.txt")]);
    assert_eq!(store.len(), 1);
    assert!(!idx.stage_file(&mut store, b"hello.txt", FileMode::Regular, b"hello\n"));
    assert!(idx.stage_file(&mut store, b"hello.txt", FileMode::Executable, b"hello\n"));
    assert_eq!(store.len(), 1);
    assert!(idx.stage_file(&mut store, b"hello.txt", FileMode::Executable, b""));
    assert_eq!(store.len(), 2);
    assert_eq!(idx.entries(), &vec![entry(FileMode::Executable, H2, "hello.txt")]);
}

#[test]
fn dirty_paths_and_check_clean() {
    let mut store = ObjectStore::new();
    let mut idx = Index::new();
    idx.stage_file(&mut store, b"a", FileMode::Regular, b"one");
    idx.stage_file(&mut store, b"b", FileMode::Regular, b"two");
    idx.stage_file(&mut store, b"c", FileMode::Regular, b"three");
    let working = vec![Some(b"one".to_vec()), Some(b"TWO".to_vec()), None];
    assert_eq!(idx.dirty_paths(&working), vec![b"b".to_vec()]);
    assert_eq!(idx.check_clean(&working), Err(RitError::Dirty { paths: vec![b"b".to_vec()] }));
    let clean = vec![Some(b"one".to_vec()), Some(b"two".to_vec()), None];
    assert_eq!(idx.check_clean(&clean), Ok(()));
}

#[test]
fn untracked_and_normalized_paths() {
    let mut idx = Index::new();
    idx.upsert(entry(FileMode::Regular, H1, "a"));
    let files = vec![b"a".to_vec(), b"b".to_vec(), b"dir/c".to_vec()];
    assert_eq!(idx.untracked(&files), vec![b"b".to_vec(), b"dir/c".to_vec()]);
    assert_eq!(normalize_path(b"././src/x"), b"src/x".to_vec());
    assert_eq!(normalize_path(b"src/./x"), b"src/./x".to_vec());
}
