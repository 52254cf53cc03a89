use rit::checkout::plan_checkout;
use rit::codec::to_hex;
use rit::commit::commit_index;
use rit::config::Config;
use rit::error::RitError;
use rit::index::Index;
use rit::merge::{merge_commits, MergeOutcome};
use rit::mode::FileMode;
use rit::object::ObjectStore;
use rit::tree::write_tree;

/// A repository held in memory: objects, index, branches and working files.
struct Repo {
    store: ObjectStore,
    index: Index,
    branches: Vec<(String, Vec<u8>)>,
    head: String,
    working: Vec<(Vec<u8>, Vec<u8>)>,
    clock: u64,
}

impl Repo {
    fn init() -> Repo {
        Repo {
            store: ObjectStore::new(),
            index: Index::new(),
            branches: Vec::new(),
            head: "main".to_string(),
            working: Vec::new(),
            clock: 1_700_000_000,
        }
    }

    fn write(&mut self, path: &str, content: &str) {
        let p = path.as_bytes().to_vec();
        self.working.retain(|(q, _)| *q != p);
        self.working.push((p, content.as_bytes().to_vec()));
    }

    fn add(&mut self, path: &str) {
        let content = self
            .working
            .iter()
            .find(|(q, _)| q.as_slice() == path.as_bytes())
            .map(|(_, c)| c.clone())
            .unwrap();
        self.index.stage_file(&mut self.store, path.as_bytes(), FileMode::Regular, &content);
    }

    fn tip(&self, branch: &str) -> Option<Vec<u8>> {
        self.branches.iter().find(|(b, _)| b == branch).map(|(_, t)| t.clone())
    }

    fn set_tip(&mut self, branch: &str, id: Vec<u8>) {
        self.branches.retain(|(b, _)| b != branch);
        self.branches.push((branch.to_string(), id));
    }

    fn commit(&mut self, message: &str) -> Vec<u8> {
        let parents: Vec<Vec<u8>> = self.tip(&self.head.clone()).into_iter().collect();
        self.clock += 1;
        let id = commit_index(
            &mut self.store,
            &self.index,
            &parents,
            message.as_bytes(),
            &Config::new(),
            self.clock,
        )
        .unwrap()
        .unwrap();
        let head = self.head.clone();
        self.set_tip(&head, id.clone());
        id
    }

    fn branch(&mut self, name: &str) {
        let t = self.tip(&self.head.clone()).unwrap();
        self.set_tip(name, t);
    }

    fn working_for_index(&self) -> Vec<Option<Vec<u8>>> {
        self.index
            .entries()
            .iter()
            .map(|e| self.working.iter().find(|(p, _)| *p == e.path).map(|(_, c)| c.clone()))
            .collect()
    }

    fn checkout(&mut self, branch: &str) -> Result<(), RitError> {
        let tip_hex = to_hex(&self.tip(branch).unwrap());
        let working = self.working_for_index();
        let plan = plan_checkout(
            &self.store,
            &self.index,
            &working,
            branch.as_bytes(),
            Some(tip_hex.as_bytes()),
        )?;
        self.head = branch.to_string();
        self.working = plan.files;
        Ok(())
    }

    fn file(&self, path: &str) -> Option<String> {
        self.working
            .iter()
            .find(|(p, _)| p.as_slice() == path.as_bytes())
            .map(|(_, c)| String::from_utf8(c.clone()).unwrap())
    }
}

#[test]
fn tree_hash_independent_of_staging_order() {
    let orders = [["a", "b", "c"], ["c", "a", "b"], ["b", "c", "a"]];
    let mut hashes = Vec::new();
    for order in orders.iter() {
        let mut repo = Repo::init();
        for name in order.iter() {
            repo.write(name, &format!("content of {}", name));
            repo.add(name);
        }
        let tree = write_tree(&mut repo.store, repo.index.entries()).unwrap();
        hashes.push(tree);
    }
    assert_eq!(hashes[0], hashes[1]);
    assert_eq!(hashes[1], hashes[2]);
}

#[test]
fn nested_tree_hash_independent_of_staging_order() {
    let paths = ["src/lib.rs", "README", "src/util/mod.rs", "docs/guide.md", "src/main.rs"];
    let mut first = None;
    for rot in 0..paths.len() {
        let mut repo = Repo::init();
        for k in 0..paths.len() {
            let p = paths[(k + rot) % paths.len()];
            repo.write(p, p);
            repo.add(p);
        }
        let tree = write_tree(&mut repo.store, repo.index.entries()).unwrap();
        match &first {
            None => first = Some(tree),
            Some(t) => assert_eq!(t, &tree),
        }
    }
}

#[test]
fn checkout_after_commit_reproduces_files() {
    let mut repo = Repo::init();
    repo.write("top.txt", "top\n");
    repo.write("dir/inner.txt", "inner\n");
    repo.write("dir/deeper/leaf.bin", "\u{0}\u{1}binary");
    for p in ["top.txt", "dir/inner.txt", "dir/deeper/leaf.bin"].iter() {
        repo.add(p);
    }
    repo.commit("snapshot");
    repo.working.clear();
    repo.index = Index::new();
    repo.checkout("main").unwrap();
    assert_eq!(repo.file("top.txt").as_deref(), Some("top\n"));
    assert_eq!(repo.file("dir/inner.txt").as_deref(), Some("inner\n"));
    assert_eq!(repo.file("dir/deeper/leaf.bin").as_deref(), Some("\u{0}\u{1}binary"));
    assert_eq!(repo.working.len(), 3);
}

#[test]
fn fast_forward_moves_ref_without_commit() {
    let mut repo = Repo::init();
    repo.write("f", "1");
    repo.add("f");
    let c1 = repo.commit("c1");
    repo.branch("feature");
    repo.checkout("feature").unwrap();
    repo.write("f", "2");
    repo.add("f");
    let c2 = repo.commit("c2");
    let objects_before = repo.store.len();
    let out = merge_commits(&mut repo.store, &c1, &c2, b"merge", &Config::new(), 1).unwrap();
    assert_eq!(out, MergeOutcome::FastForward(c2.clone()));
    assert_eq!(repo.store.len(), objects_before);
    let back = merge_commits(&mut repo.store, &c2, &c1, b"merge", &Config::new(), 1).unwrap();
    assert_eq!(back, MergeOutcome::UpToDate);
}

#[test]
fn diverged_branches_merge_cleanly() {
    let mut repo = Repo::init();
    repo.write("shared", "base");
    repo.write("mine", "m");
    repo.add("shared");
    repo.add("mine");
    repo.commit("base");
    repo.branch("feature");
    repo.checkout("feature").unwrap();
    repo.write("theirs", "t");
    repo.add("theirs");
    let giver = repo.commit("feature work");
    repo.checkout("main").unwrap();
    repo.write("mine", "m2");
    repo.add("mine");
    let receiver = repo.commit("main work");
    let out = merge_commits(&mut repo.store, &receiver, &giver, b"Merge branch 'feature' into main", &Config::new(), 9)
        .unwrap();
    let id = match out {
        MergeOutcome::Merged(id) => id,
        other => panic!("unexpected {:?}", other),
    };
    let parents = rit::commit::parents_of(&repo.store, &id).unwrap();
    assert_eq!(parents, vec![receiver, giver]);
    let tree = rit::commit::tree_of(&repo.store, &id).unwrap();
    let files = rit::tree::restore_tree(&repo.store, &tree).unwrap();
    let mut names: Vec<(String, String)> = files
        .into_iter()
        .map(|(p, c)| (String::from_utf8(p).unwrap(), String::from_utf8(c).unwrap()))
        .collect();
    names.sort();
    assert_eq!(
        names,
        vec![
            ("mine".to_string(), "m2".to_string()),
            ("shared".to_string(), "base".to_string()),
            ("theirs".to_string(), "t".to_string()),
        ]
    );
}

#[test]
fn both_sides_changed_is_a_conflict() {
    let mut repo = Repo::init();
    repo.write("p", "base");
    repo.write("q", "same");
    repo.add("p");
    repo.add("q");
    repo.commit("base");
    repo.branch("other");
    repo.checkout("other").unwrap();
    repo.write("p", "theirs");
    repo.add("p");
    let giver = repo.commit("theirs");
    repo.checkout("main").unwrap();
    repo.write("p", "ours");
    repo.add("p");
    let receiver = repo.commit("ours");
    let before = repo.store.len();
    let r = merge_commits(&mut repo.store, &receiver, &giver, b"m", &Config::new(), 3);
    assert_eq!(r, Err(RitError::Conflict { paths: vec![b"p".to_vec()] }));
    assert_eq!(repo.store.len(), before);
    assert_eq!(repo.tip("main"), Some(receiver));
    assert_eq!(repo.tip("other"), Some(giver));
}

#[test]
fn dirty_checkout_is_refused() {
    let mut repo = Repo::init();
    repo.write("tracked", "v1");
    repo.add("tracked");
    repo.commit("c1");
    repo.branch("feature");
    repo.write("tracked", "edited but not staged");
    let r = repo.checkout("feature");
    assert_eq!(r, Err(RitError::Dirty { paths: vec![b"tracked".to_vec()] }));
    assert_eq!(repo.head, "main");
    assert_eq!(repo.file("tracked").as_deref(), Some("edited but not staged"));
}

#[test]
fn example_scenario_conflicts_on_x() {
    let mut repo = Repo::init();
    repo.write("x", "1");
    repo.add("x");
    repo.commit("c1");
    repo.branch("feature");
    repo.checkout("feature").unwrap();
    repo.write("x", "2");
    repo.add("x");
    let c2 = repo.commit("c2");
    repo.checkout("main").unwrap();
    assert_eq!(repo.file("x").as_deref(), Some("1"));
    repo.write("x", "3");
    repo.add("x");
    let c3 = repo.commit("c3");
    let r = merge_commits(&mut repo.store, &c3, &c2, b"Merge branch 'feature' into main", &Config::new(), 5);
    assert_eq!(r, Err(RitError::Conflict { paths: vec![b"x".to_vec()] }));
}

#[test]
fn unrelated_histories_do_not_merge() {
    let mut a = Repo::init();
    a.write("a", "a");
    a.add("a");
    let ca = a.commit("a");
    let mut b = Repo::init();
    b.write("b", "b");
    b.add("b");
    b.store = a.store;
    let cb = b.commit("b");
    let r = merge_commits(&mut b.store, &ca, &cb, b"m", &Config::new(), 1);
    assert_eq!(r, Err(RitError::Unrelated));
}

#[test]
fn empty_index_commits_nothing() {
    let mut store = ObjectStore::new();
    let r = commit_index(&mut store, &Index::new(), &Vec::new(), b"msg", &Config::new(), 1);
    assert_eq!(r, Ok(None));
    assert_eq!(store.len(), 0);
}

#[test]
fn identical_edits_on_both_branches_merge() {
    let mut repo = Repo::init();
    repo.write("x", "1");
    repo.add("x");
    repo.commit("c1");
    repo.branch("feature");
    repo.checkout("feature").unwrap();
    repo.write("x", "2");
    repo.add("x");
    let giver = repo.commit("feature edit");
    repo.checkout("main").unwrap();
    repo.write("x", "2");
    repo.add("x");
    repo.write("other", "o");
    repo.add("other");
    let receiver = repo.commit("main edit");
    let out = merge_commits(&mut repo.store, &receiver, &giver, b"m", &Config::new(), 7).unwrap();
    let id = match out {
        MergeOutcome::Merged(id) => id,
        other => panic!("unexpected {:?}", other),
    };
    let tree = rit::commit::tree_of(&repo.store, &id).unwrap();
    let mut files = rit::tree::restore_tree(&repo.store, &tree).unwrap();
    files.sort();
    assert_eq!(files, vec![(b"other".to_vec(), b"o".to_vec()), (b"x".to_vec(), b"2".to_vec())]);
}
