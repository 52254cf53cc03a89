use rit::codec::from_hex;
use rit::commit::{build_commit_content, parent_lines_of, parents_of, tree_line_of, tree_of};
use rit::config::{parse_config, run, Config, ConfigAction};
use rit::diff::{diff_lines, render_chunks, ChunkKind};
use rit::error::RitError;
use rit::ignore::{is_ignored, parse_ignore, pattern_ignores};
use rit::index::IndexEntry;
use rit::log::{commit_message, first_parent_chain};
use rit::merge::{find_common_ancestor, history_of, merge_entry_of, merge_trees};
use rit::mode::FileMode;
use rit::object::{store_object, ObjectKind, ObjectStore};
use rit::refs::{branch_ref_path, head_text_for_branch, parse_head, short_hash, Head};
use rit::tree::{list_tree, parse_tree, read_tree_entries, tree_content, write_tree, FlatEntry, TreeItem};

const H1: &str = "ce013625030ba8dba906f756967f9e9ca394464a";

fn raw(h: &str) -> Vec<u8> {
    from_hex(h.as_bytes()).unwrap()
}

fn entry(p: &str, h: &str) -> IndexEntry {
    IndexEntry { mode: FileMode::Regular, sha1: h.as_bytes().to_vec(), path: p.as_bytes().to_vec() }
}

fn commit_with(store: &mut ObjectStore, parents: &[&Vec<u8>], msg: &str) -> Vec<u8> {
    let mut text = format!("tree {}\n", H1);
    for p in parents {
        text.push_str(&format!("parent {}\n", rit::codec::to_hex(p)));
    }
    text.push_str("author A <a@b> 1 +0000\n\n");
    text.push_str(msg);
    store_object(store, ObjectKind::Commit, text.as_bytes())
}

#[test]
fn single_file_tree_matches_known_hash() {
    let mut store = ObjectStore::new();
    let id = write_tree(&mut store, &vec![entry("hello.txt", H1)]).unwrap();
    assert_eq!(rit::codec::to_hex(&id), "aaa96ced2d9a1c8e72c56b253a0e2fe78393feb7");
}

#[test]
fn tree_items_sorted_by_name() {
    let items = vec![
        TreeItem { mode: FileMode::Regular, name: b"zeta".to_vec(), id: vec![1; 20] },
        TreeItem { mode: FileMode::Directory, name: b"alpha".to_vec(), id: vec![2; 20] },
        TreeItem { mode: FileMode::Regular, name: b"Beta".to_vec(), id: vec![3; 20] },
    ];
    let content = tree_content(items);
    let parsed = parse_tree(&content).unwrap();
    let names: Vec<Vec<u8>> = parsed.iter().map(|t| t.name.clone()).collect();
    assert_eq!(names, vec![b"Beta".to_vec(), b"alpha".to_vec(), b"zeta".to_vec()]);
    assert_eq!(&content[..11], b"100644 Beta");
}

#[test]
fn write_tree_rejects_bad_hash() {
    let mut store = ObjectStore::new();
    let r = write_tree(&mut store, &vec![entry("a", "not-a-hash")]);
    assert_eq!(r, Err(RitError::InvalidData));
    assert_eq!(store.len(), 0);
}

#[test]
fn nested_tree_flattens_back() {
    let mut store = ObjectStore::new();
    let es = vec![entry("b/c/d.txt", H1), entry("a.txt", H1), entry("b/e.txt", H1)];
    let root = write_tree(&mut store, &es).unwrap();
    assert_eq!(store.len(), 3);
    let flat = read_tree_entries(&store, &root).unwrap();
    let paths: Vec<Vec<u8>> = flat.iter().map(|f| f.path.clone()).collect();
    assert_eq!(paths, vec![b"a.txt".to_vec(), b"b/c/d.txt".to_vec(), b"b/e.txt".to_vec()]);
    assert!(flat.iter().all(|f| f.id == raw(H1) && f.mode == FileMode::Regular));
    let listed = list_tree(&store, &root).unwrap();
    assert_eq!(listed.len(), 2);
    assert_eq!(listed[1].mode, FileMode::Directory);
}

#[test]
fn malformed_tree_content_is_invalid() {
    assert_eq!(parse_tree(b"100644 name"), Err(RitError::InvalidData));
    assert_eq!(parse_tree(b"100644 name\0short"), Err(RitError::InvalidData));
    let mut bad_mode = b"777 name\0".to_vec();
    bad_mode.extend_from_slice(&[0u8; 20]);
    assert_eq!(parse_tree(&bad_mode), Err(RitError::InvalidData));
    assert_eq!(parse_tree(b""), Ok(vec![]));
}

#[test]
fn commit_content_layout() {
    let mut config = Config::new();
    config.set(b"user.name", b"Ada");
    let parents = vec![b"pa".to_vec(), b"pb".to_vec()];
    let c = build_commit_content(b"t0", &parents, b"hello", &config, 42);
    let expected = "tree t0\nparent pa\nparent pb\nauthor Ada <user@example.com> 42 +0530\ncommitter Ada <user@example.com> 42 +0530\n\nhello";
    assert_eq!(String::from_utf8(c).unwrap(), expected);
    let root = build_commit_content(b"t0", &Vec::new(), b"m", &Config::new(), 0);
    assert!(String::from_utf8(root).unwrap().starts_with("tree t0\nauthor User <user@example.com> 0 +0530\n"));
}

#[test]
fn commit_header_parsing() {
    let text = b"tree abc\nparent pa\nparent pb\nauthor x\n\nparent not-a-header";
    assert_eq!(parent_lines_of(text), vec![b"pa".to_vec(), b"pb".to_vec()]);
    assert_eq!(tree_line_of(text), Some(b"abc".to_vec()));
    assert_eq!(tree_line_of(b"author x\n\ntree abc"), None);
}

#[test]
fn parents_and_tree_of_stored_commit() {
    let mut store = ObjectStore::new();
    let root = commit_with(&mut store, &[], "root");
    let child = commit_with(&mut store, &[&root], "child");
    assert_eq!(parents_of(&store, &child), Ok(vec![root.clone()]));
    assert_eq!(parents_of(&store, &root), Ok(vec![]));
    assert_eq!(tree_of(&store, &child), Ok(raw(H1)));
    assert_eq!(parents_of(&store, b"missing"), Err(RitError::NotFound));
    let blob = store_object(&mut store, ObjectKind::Blob, b"no tree line");
    assert_eq!(tree_of(&store, &blob), Err(RitError::InvalidData));
}

#[test]
fn merge_base_search() {
    let mut store = ObjectStore::new();
    let a = commit_with(&mut store, &[], "a");
    let b = commit_with(&mut store, &[&a], "b");
    let c = commit_with(&mut store, &[&b], "c");
    let d = commit_with(&mut store, &[&b], "d");
    let e = commit_with(&mut store, &[&c, &d], "e");
    assert_eq!(find_common_ancestor(&store, &c, &d), Ok(Some(b.clone())));
    assert_eq!(find_common_ancestor(&store, &e, &d), Ok(Some(d.clone())));
    assert_eq!(find_common_ancestor(&store, &a, &e), Ok(Some(a.clone())));
    let hist = history_of(&store, &e).unwrap();
    assert_eq!(hist, vec![e.clone(), c.clone(), d.clone(), b.clone(), a.clone()]);
    let lone = commit_with(&mut store, &[], "lone");
    assert_eq!(find_common_ancestor(&store, &lone, &e), Ok(None));
    let broken = commit_with(&mut store, &[&vec![9u8; 20]], "dangling");
    assert_eq!(find_common_ancestor(&store, &broken, &a), Err(RitError::NotFound));
}

#[test]
fn first_parent_log_and_message() {
    let mut store = ObjectStore::new();
    let a = commit_with(&mut store, &[], "first");
    let b = commit_with(&mut store, &[&a], "second");
    let side = commit_with(&mut store, &[], "side");
    let m = commit_with(&mut store, &[&b, &side], "merge");
    assert_eq!(first_parent_chain(&store, &m), Ok(vec![m.clone(), b.clone(), a.clone()]));
    assert_eq!(commit_message(b"tree x\nauthor y\n\nthe message\n"), b"the message\n".to_vec());
    assert_eq!(commit_message(b"no blank line"), Vec::<u8>::new());
}

fn side(mode: FileMode, id: u8) -> Option<(FileMode, Vec<u8>)> {
    Some((mode, vec![id; 20]))
}

#[test]
fn merge_entry_table() {
    let r = FileMode::Regular;
    assert_eq!(merge_entry_of(side(r, 1), side(r, 1), side(r, 1)), Some(side(r, 1)));
    assert_eq!(merge_entry_of(None, side(r, 2), None), Some(side(r, 2)));
    assert_eq!(merge_entry_of(None, None, side(r, 3)), Some(side(r, 3)));
    assert_eq!(merge_entry_of(side(r, 1), side(r, 2), side(r, 1)), Some(side(r, 2)));
    assert_eq!(merge_entry_of(side(r, 1), side(r, 1), side(r, 3)), Some(side(r, 3)));
    assert_eq!(merge_entry_of(side(r, 1), None, side(r, 1)), Some(None));
    assert_eq!(merge_entry_of(side(r, 1), side(r, 1), None), Some(None));
    assert_eq!(merge_entry_of(None, side(r, 4), side(r, 4)), Some(side(r, 4)));
    assert_eq!(merge_entry_of(side(r, 1), side(r, 2), side(r, 3)), None);
    assert_eq!(merge_entry_of(None, side(r, 2), side(r, 3)), None);
    assert_eq!(merge_entry_of(side(r, 1), side(r, 2), None), None);
    assert_eq!(merge_entry_of(side(r, 1), None, side(r, 3)), None);
    assert_eq!(merge_entry_of(side(r, 1), side(r, 2), side(FileMode::Executable, 2)), None);
    assert_eq!(merge_entry_of(side(r, 1), None, None), Some(None));
}

fn flat(p: &str, id: u8) -> FlatEntry {
    FlatEntry { path: p.as_bytes().to_vec(), mode: FileMode::Regular, id: vec![id; 20] }
}

#[test]
fn merge_trees_reconciles_and_lists_conflicts() {
    let a = vec![flat("keep", 1), flat("gone", 2), flat("edit", 3)];
    let r = vec![flat("keep", 1), flat("edit", 4), flat("new", 5)];
    let g = vec![flat("keep", 1), flat("gone", 2), flat("edit", 3), flat("theirs", 6)];
    let merged = merge_trees(&a, &r, &g).unwrap();
    let paths: Vec<Vec<u8>> = merged.iter().map(|e| e.path.clone()).collect();
    assert_eq!(paths, vec![b"edit".to_vec(), b"keep".to_vec(), b"new".to_vec(), b"theirs".to_vec()]);
    assert_eq!(merged[0].sha1, rit::codec::to_hex(&[4u8; 20]).into_bytes());
    let g2 = vec![flat("keep", 1), flat("edit", 7), flat("new", 8)];
    let err = merge_trees(&a, &r, &g2);
    assert_eq!(err, Err(RitError::Conflict { paths: vec![b"edit".to_vec(), b"new".to_vec()] }));
}

#[test]
fn config_sections_and_run() {
    let text = b"[user]\n  name = Ada Lovelace \n  email=ada@example.com\nstray line\n[core]\nbare = no\n";
    let c = parse_config(text);
    assert_eq!(c.get(b"user.name"), Some(b"Ada Lovelace".to_vec()));
    assert_eq!(c.get(b"user.email"), Some(b"ada@example.com".to_vec()));
    assert_eq!(c.get(b"core.bare"), Some(b"no".to_vec()));
    assert_eq!(c.get(b"user.missing"), None);
    assert_eq!(run(text, b"user.name", None), ConfigAction::Print(Some(b"Ada Lovelace".to_vec())));
    assert_eq!(
        run(text, b"user.email", Some(b"x@y")),
        ConfigAction::Write(b"[user]\n  name = Ada Lovelace\n  email = x@y\n".to_vec())
    );
    assert_eq!(run(b"", b"user.name", Some(b"Bo")), ConfigAction::Write(b"[user]\n  name = Bo\n".to_vec()));
}

#[test]
fn head_forms() {
    let h = parse_head(b"ref: refs/heads/main\n");
    assert_eq!(h, Head::Symbolic(b"refs/heads/main".to_vec()));
    assert_eq!(h.current_branch(), Some(b"main".to_vec()));
    assert_eq!(h.head_commit(Some(b"abc\n")), Some(b"abc".to_vec()));
    assert_eq!(h.head_commit(Some(b"  \n")), None);
    assert_eq!(h.head_commit(None), None);
    let d = parse_head(b" 0123456789abcdef \n");
    assert_eq!(d, Head::Detached(b"0123456789abcdef".to_vec()));
    assert_eq!(d.current_branch(), None);
    assert_eq!(d.head_commit(None), Some(b"0123456789abcdef".to_vec()));
    assert_eq!(head_text_for_branch(b"dev"), b"ref: refs/heads/dev".to_vec());
    assert_eq!(branch_ref_path(b"dev"), b"refs/heads/dev".to_vec());
    assert_eq!(short_hash(b"0123456789"), b"0123456".to_vec());
    assert_eq!(short_hash(b"01"), b"01".to_vec());
}

#[test]
fn ignore_rules() {
    let pats = parse_ignore("# comment\n\n target/ \n*.log\nsecret.txt\r\n");
    assert_eq!(pats, vec!["target/".to_string(), "*.log".to_string(), "secret.txt".to_string()]);
    assert!(is_ignored(".rit", ".rit", &pats));
    assert!(is_ignored(".rit/objects", "objects", &pats));
    assert!(!is_ignored(".ritual", ".ritual", &pats));
    assert!(is_ignored("target", "target", &pats));
    assert!(is_ignored("./target/debug/x", "x", &pats));
    assert!(!is_ignored("targets/x", "x", &pats));
    assert!(is_ignored("logs/app.log", "app.log", &pats));
    assert!(is_ignored("secret.txt", "secret.txt", &pats));
    assert!(!is_ignored("src/secret.txt", "secret.txt", &pats));
    assert!(!is_ignored("src/main.rs", "main.rs", &pats));
    assert!(pattern_ignores("  *.rs  ", "src/main.rs", "main.rs"));
    assert!(!pattern_ignores("[", "x", "x"));
}

#[test]
fn ls_tree_of_a_commit_lists_its_root_tree() {
    let mut store = ObjectStore::new();
    let blob = store_object(&mut store, ObjectKind::Blob, b"hello\n");
    assert_eq!(rit::codec::to_hex(&blob), H1);
    let root = write_tree(&mut store, &vec![entry("hello.txt", H1)]).unwrap();
    let text = format!("tree {}\nauthor A <a@b> 1 +0000\n\nm", rit::codec::to_hex(&root));
    let c = store_object(&mut store, ObjectKind::Commit, text.as_bytes());
    let from_commit = list_tree(&store, &c).unwrap();
    let from_tree = list_tree(&store, &root).unwrap();
    assert_eq!(from_commit, from_tree);
    assert_eq!(from_tree[0].name, b"hello.txt".to_vec());
    assert_eq!(list_tree(&store, b"nope"), Err(RitError::NotFound));
    let files = rit::tree::restore_tree(&store, &root).unwrap();
    assert_eq!(files, vec![(b"hello.txt".to_vec(), b"hello\n".to_vec())]);
    let empty = ObjectStore::new();
    assert_eq!(rit::tree::restore_tree(&empty, &root), Err(RitError::NotFound));
}

#[test]
fn chunks_render_as_tagged_lines() {
    let chunks = vec![
        (ChunkKind::Equal, "a\nb\n".to_string()),
        (ChunkKind::Delete, "old\r\n".to_string()),
        (ChunkKind::Insert, "new".to_string()),
        (ChunkKind::Equal, "".to_string()),
    ];
    assert_eq!(
        render_chunks(&chunks),
        vec![
            (ChunkKind::Equal, "a".to_string()),
            (ChunkKind::Equal, "b".to_string()),
            (ChunkKind::Delete, "old".to_string()),
            (ChunkKind::Insert, "new".to_string()),
        ]
    );
}

#[test]
fn diff_lines_mark_changes() {
    let lines = diff_lines("same\nold line\n", "same\nnew line\n");
    assert!(lines.contains(&(ChunkKind::Equal, "same".to_string())));
    assert!(lines.iter().any(|(k, _)| *k == ChunkKind::Delete));
    assert!(lines.iter().any(|(k, _)| *k == ChunkKind::Insert));
    assert_eq!(diff_lines("x\n", "x\n"), vec![(ChunkKind::Equal, "x".to_string())]);
}

#[test]
fn empty_tree_is_stored_and_reads_back_empty() {
    let mut store = ObjectStore::new();
    let id = write_tree(&mut store, &vec![]).unwrap();
    assert_eq!(rit::codec::to_hex(&id), "4b825dc642cb6eb9a060e54bf8d69288fbee4904");
    assert_eq!(rit::object::read_object(&store, &id), Ok(vec![]));
    assert_eq!(store.len(), 1);
}

#[test]
fn missing_and_malformed_trees_are_told_apart() {
    let mut store = ObjectStore::new();
    assert_eq!(read_tree_entries(&store, &[5u8; 20]), Err(RitError::NotFound));
    let bad = store_object(&mut store, ObjectKind::Tree, b"100644 truncated\0abc");
    assert_eq!(read_tree_entries(&store, &bad), Err(RitError::InvalidData));
    assert_eq!(list_tree(&store, &bad), Err(RitError::InvalidData));
    let dangling = write_tree(&mut store, &vec![entry("d/f", H1)]).unwrap();
    assert_eq!(rit::tree::restore_tree(&store, &dangling), Err(RitError::NotFound));
}

#[test]
fn mode_only_change_on_both_sides_conflicts() {
    let a = vec![flat("f", 1)];
    let r = vec![FlatEntry { path: b"f".to_vec(), mode: FileMode::Executable, id: vec![2; 20] }];
    let g = vec![FlatEntry { path: b"f".to_vec(), mode: FileMode::Symlink, id: vec![2; 20] }];
    assert_eq!(merge_trees(&a, &r, &g), Err(RitError::Conflict { paths: vec![b"f".to_vec()] }));
}

#[test]
fn same_change_on_both_sides_merges_cleanly() {
    let r = FileMode::Regular;
    assert_eq!(merge_entry_of(side(r, 1), side(r, 2), side(r, 2)), Some(side(r, 2)));
    let a = vec![flat("x", 1), flat("y", 7)];
    let both = vec![flat("x", 2), flat("y", 7)];
    let merged = merge_trees(&a, &both, &both).unwrap();
    assert_eq!(merged.len(), 2);
    assert_eq!(merged[0].path, b"x".to_vec());
    assert_eq!(merged[0].sha1, rit::codec::to_hex(&[2u8; 20]).into_bytes());
}

#[test]
fn ignore_patterns_trim_unicode_whitespace() {
    let pats = parse_ignore("\u{A0}build.log\u{3000}\n");
    assert_eq!(pats, vec!["build.log".to_string()]);
    assert!(is_ignored("build.log", "build.log", &pats));
}
