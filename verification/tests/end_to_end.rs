use dirsync::builder::map_directory;
use dirsync::digest::calculate_hash;
use dirsync::plan::{probe_paths, reconcile, sync_directory, Action, Operation};
use dirsync::tree::{Content, Entry, Record, Tree};

fn dir(parent: &str, name: &str) -> Entry {
    Entry {
        parent: parent.to_string(),
        record: Record { name: name.to_string(), content: Content::Directory },
    }
}

fn file(parent: &str, name: &str, content: &[u8]) -> Entry {
    let digest = calculate_hash(content).unwrap();
    Entry {
        parent: parent.to_string(),
        record: Record { name: name.to_string(), content: Content::File { digest } },
    }
}

fn tree(entries: Vec<Entry>) -> Tree {
    map_directory(&entries).unwrap()
}

#[test]
fn missing_directory_is_created_before_its_file_is_copied() {
    let reference = tree(vec![dir("", "a"), file("a", "f.txt", b"one")]);
    let target = tree(vec![]);
    let missing = vec!["a".to_string()];
    let lines = sync_directory(&reference, &target, &missing);
    assert_eq!(lines, vec!["create `a`".to_string(), "copy `a/f.txt`".to_string()]);
}

#[test]
fn changed_file_is_copied() {
    let reference = tree(vec![file("", "f.txt", b"one")]);
    let target = tree(vec![file("", "f.txt", b"two")]);
    let lines = sync_directory(&reference, &target, &vec![]);
    assert_eq!(lines, vec!["copy `f.txt`".to_string()]);
}

#[test]
fn extra_file_is_deleted() {
    let reference = tree(vec![]);
    let target = tree(vec![file("", "extra.txt", b"more")]);
    let lines = sync_directory(&reference, &target, &vec![]);
    assert_eq!(lines, vec!["delete `extra.txt`".to_string()]);
}

#[test]
fn same_tree_needs_nothing() {
    let entries = vec![dir("", "a"), dir("a", "b"), file("a", "f.txt", b"one"), file("", "g", b"")];
    let reference = tree(entries.clone());
    let target = tree(entries);
    let operations = reconcile(&reference, &target, &vec![]);
    assert_eq!(operations, Vec::<Operation>::new());
}

#[test]
fn type_mismatch_is_one_delete() {
    let reference = tree(vec![dir("", "p"), file("p", "inner", b"x")]);
    let target = tree(vec![file("", "p", b"x")]);
    let operations = reconcile(&reference, &target, &vec![]);
    assert_eq!(operations, vec![Operation { action: Action::Delete, path: "p".to_string() }]);
    let operations = reconcile(&target, &reference, &vec![]);
    assert_eq!(
        operations,
        vec![
            Operation { action: Action::Delete, path: "p/inner".to_string() },
            Operation { action: Action::Delete, path: "p".to_string() },
        ]
    );
}

fn sync_with_disk(reference: &Tree, target: &Tree, disk: &[&str]) -> Vec<String> {
    let missing: Vec<String> = probe_paths(reference, target)
        .into_iter()
        .filter(|path| !disk.contains(&path.as_str()))
        .collect();
    sync_directory(reference, target, &missing)
}

#[test]
fn snapshot_then_sync_of_the_same_directory_prints_nothing() {
    let entries = vec![dir("", "a"), dir("a", "b"), file("a/b", "f", b"1"), file("", "g", b"2")];
    let reference = tree(entries.clone());
    let target = tree(entries);
    let lines = sync_with_disk(&reference, &target, &["a", "a/b", "a/b/f", "g"]);
    assert_eq!(lines, Vec::<String>::new());
}

#[test]
fn sync_of_a_changed_directory() {
    let reference = tree(vec![
        dir("", "keep"),
        dir("", "new"),
        file("keep", "same", b"same"),
        file("keep", "changed", b"after"),
        file("new", "f", b"f"),
        dir("new", "deep"),
        file("new/deep", "g", b"g"),
    ]);
    let target = tree(vec![
        dir("", "keep"),
        dir("", "gone"),
        file("keep", "same", b"same"),
        file("keep", "changed", b"before"),
        file("gone", "h", b"h"),
        file("", "stray", b"s"),
    ]);
    let lines =
        sync_with_disk(&reference, &target, &["keep", "gone", "keep/same", "keep/changed", "gone/h", "stray"]);
    assert_eq!(
        lines,
        vec![
            "delete `gone/h`".to_string(),
            "copy `keep/changed`".to_string(),
            "delete `stray`".to_string(),
            "delete `gone`".to_string(),
            "create `new`".to_string(),
            "copy `new/f`".to_string(),
            "create `new/deep`".to_string(),
            "copy `new/deep/g`".to_string(),
        ]
    );
}
