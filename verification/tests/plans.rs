use dirsync::builder::map_directory;
use dirsync::plan::{copy_record, probe_paths, reconcile, sync_directory, Action, Operation};
use dirsync::tree::{Content, Entry, Record, Tree};

const H1: &str = "E3B0C44298FC1C149AFBF4C8996FB92427AE41E4649B934CA495991B7852B855";
const H2: &str = "BA7816BF8F01CFEA414140DE5DAE2223B00361A396177A9CB410FF61F20015AD";

fn dir(parent: &str, name: &str) -> Entry {
    Entry {
        parent: parent.to_string(),
        record: Record { name: name.to_string(), content: Content::Directory },
    }
}

fn file(parent: &str, name: &str, digest: &str) -> Entry {
    Entry {
        parent: parent.to_string(),
        record: Record {
            name: name.to_string(),
            content: Content::File { digest: digest.to_string() },
        },
    }
}

fn tree(entries: Vec<Entry>) -> Tree {
    map_directory(&entries).unwrap()
}

fn op(action: Action, path: &str) -> Operation {
    Operation { action, path: path.to_string() }
}

fn paths(list: &[&str]) -> Vec<String> {
    list.iter().map(|path| path.to_string()).collect()
}

fn position(operations: &[Operation], wanted: &Operation) -> usize {
    operations.iter().position(|found| found == wanted).unwrap()
}

#[test]
fn operations_render_as_lines() {
    assert_eq!(op(Action::Create, "a").render(), "create `a`");
    assert_eq!(op(Action::Copy, "a/f.txt").render(), "copy `a/f.txt`");
    assert_eq!(op(Action::Delete, "extra.txt").render(), "delete `extra.txt`");
    assert_eq!(op(Action::Delete, "").render(), "delete ``");
}

#[test]
fn missing_subtree_is_expanded_parent_first() {
    let reference = tree(vec![dir("", "d"), dir("d", "y"), file("d", "x", H1)]);
    let target = tree(vec![]);
    let operations = reconcile(&reference, &target, &paths(&["d"]));
    assert_eq!(
        operations,
        vec![op(Action::Create, "d"), op(Action::Create, "d/y"), op(Action::Copy, "d/x")]
    );
    let made = position(&operations, &op(Action::Create, "d"));
    assert!(made < position(&operations, &op(Action::Copy, "d/x")));
    assert!(made < position(&operations, &op(Action::Create, "d/y")));
}

#[test]
fn expansion_follows_the_listing() {
    let reference = tree(vec![
        dir("", "d"),
        dir("d", "e"),
        file("d/e", "deep", H1),
        file("d", "x", H1),
        dir("d", "z"),
    ]);
    let record = Record { name: "d".to_string(), content: Content::Directory };
    assert_eq!(
        copy_record(&record, "", &reference),
        vec![
            op(Action::Create, "d"),
            op(Action::Create, "d/e"),
            op(Action::Copy, "d/e/deep"),
            op(Action::Copy, "d/x"),
            op(Action::Create, "d/z"),
        ]
    );
}

#[test]
fn expansion_of_a_file_is_one_copy() {
    let reference = tree(vec![file("", "f", H1)]);
    let record = Record { name: "f".to_string(), content: Content::File { digest: H1.to_string() } };
    assert_eq!(copy_record(&record, "", &reference), vec![op(Action::Copy, "f")]);
    assert_eq!(copy_record(&record, "some/where", &reference), vec![op(Action::Copy, "some/where/f")]);
}

#[test]
fn expansion_of_an_unlisted_directory_is_one_create() {
    let reference = tree(vec![dir("", "d"), file("d", "f", H1)]);
    let record = Record { name: "other".to_string(), content: Content::Directory };
    assert_eq!(copy_record(&record, "", &reference), vec![op(Action::Create, "other")]);
    let unnamed = Record { name: String::new(), content: Content::Directory };
    assert_eq!(copy_record(&unnamed, "", &reference), vec![op(Action::Create, "")]);
}

#[test]
fn what_is_not_missing_is_not_expanded() {
    let reference = tree(vec![dir("", "a"), file("a", "f", H1), file("", "g", H2)]);
    let target = tree(vec![]);
    assert_eq!(reconcile(&reference, &target, &vec![]), vec![]);
    assert_eq!(reconcile(&reference, &target, &paths(&["g"])), vec![op(Action::Copy, "g")]);
    assert_eq!(reconcile(&reference, &target, &paths(&["a/f"])), vec![]);
}

#[test]
fn last_entry_comes_first() {
    let reference = tree(vec![]);
    let target = tree(vec![file("", "a.txt", H1), file("", "b.txt", H1)]);
    assert_eq!(
        reconcile(&reference, &target, &vec![]),
        vec![op(Action::Delete, "b.txt"), op(Action::Delete, "a.txt")]
    );
    let reference = tree(vec![file("", "m1", H1), file("", "m2", H1)]);
    let target = tree(vec![]);
    assert_eq!(
        reconcile(&reference, &target, &paths(&["m1", "m2"])),
        vec![op(Action::Copy, "m2"), op(Action::Copy, "m1")]
    );
}

#[test]
fn entries_come_before_expansions() {
    let reference = tree(vec![file("", "f", H1), file("", "m", H2)]);
    let target = tree(vec![file("", "f", H2), file("", "extra", H1)]);
    assert_eq!(
        reconcile(&reference, &target, &paths(&["m"])),
        vec![op(Action::Delete, "extra"), op(Action::Copy, "f"), op(Action::Copy, "m")]
    );
}

#[test]
fn extra_subtree_is_deleted_deepest_first() {
    let reference = tree(vec![]);
    let target = tree(vec![dir("", "x"), dir("x", "y"), file("x/y", "f", H1), file("x", "g", H1)]);
    let operations = reconcile(&reference, &target, &vec![]);
    assert_eq!(
        operations,
        vec![
            op(Action::Delete, "x/y/f"),
            op(Action::Delete, "x/g"),
            op(Action::Delete, "x/y"),
            op(Action::Delete, "x"),
        ]
    );
    let last = position(&operations, &op(Action::Delete, "x"));
    assert!(position(&operations, &op(Action::Delete, "x/y")) < last);
    assert!(position(&operations, &op(Action::Delete, "x/y/f")) < position(&operations, &op(Action::Delete, "x/y")));
}

#[test]
fn matching_directories_need_nothing_themselves() {
    let reference = tree(vec![dir("", "a"), file("a", "f", H1)]);
    let target = tree(vec![dir("", "a"), file("a", "f", H2), file("a", "g", H1)]);
    assert_eq!(
        reconcile(&reference, &target, &vec![]),
        vec![op(Action::Delete, "a/g"), op(Action::Copy, "a/f")]
    );
}

#[test]
fn file_in_place_of_a_directory_is_deleted_only() {
    let reference = tree(vec![dir("", "p"), file("p", "inner", H1)]);
    let target = tree(vec![file("", "p", H1)]);
    let operations = reconcile(&reference, &target, &vec![]);
    assert_eq!(operations.iter().filter(|found| found.path == "p").count(), 1);
    assert_eq!(operations, vec![op(Action::Delete, "p")]);
}

#[test]
fn directory_in_place_of_a_file_is_deleted_once() {
    let reference = tree(vec![file("", "p", H1)]);
    let target = tree(vec![dir("", "p"), file("p", "inner", H1)]);
    let operations = reconcile(&reference, &target, &vec![]);
    assert_eq!(operations.iter().filter(|found| found.path == "p").count(), 1);
    assert!(operations.contains(&op(Action::Delete, "p")));
    assert!(position(&operations, &op(Action::Delete, "p/inner")) < position(&operations, &op(Action::Delete, "p")));
}

#[test]
fn probes_are_the_reference_entries_of_shared_directories() {
    let reference = tree(vec![
        dir("", "a"),
        dir("", "b"),
        file("a", "f", H1),
        dir("a", "c"),
        file("b", "g", H1),
        file("a/c", "h", H1),
    ]);
    let target = tree(vec![dir("", "a"), dir("", "t"), file("t", "u", H1)]);
    assert_eq!(probe_paths(&reference, &target), paths(&["a", "b", "a/f", "a/c"]));
    assert_eq!(probe_paths(&Tree::new(), &target), Vec::<String>::new());
}

#[test]
fn plan_reads_the_disk_at_the_probes_only() {
    let reference = tree(vec![dir("", "a"), file("a", "f", H1), file("", "g", H1)]);
    let target = tree(vec![file("", "g", H1)]);
    let plain = reconcile(&reference, &target, &paths(&["a"]));
    let noisy = reconcile(&reference, &target, &paths(&["zzz", "a", "a/f", "other/path"]));
    assert_eq!(plain, noisy);
    assert_eq!(plain, vec![op(Action::Create, "a"), op(Action::Copy, "a/f")]);
}

#[test]
fn lines_are_the_rendered_plan() {
    let reference = tree(vec![dir("", "a"), file("a", "f", H1), file("", "g", H1)]);
    let target = tree(vec![file("", "g", H2), dir("", "old")]);
    let missing = paths(&["a"]);
    let lines = sync_directory(&reference, &target, &missing);
    let rendered: Vec<String> =
        reconcile(&reference, &target, &missing).iter().map(|found| found.render()).collect();
    assert_eq!(lines, rendered);
    assert_eq!(
        lines,
        vec![
            "delete `old`".to_string(),
            "copy `g`".to_string(),
            "create `a`".to_string(),
            "copy `a/f`".to_string(),
        ]
    );
}

#[test]
fn missing_directory_lines_come_once_each() {
    let reference = tree(vec![
        dir("", "p"),
        dir("p", "d"),
        file("p/d", "x", H1),
        dir("p/d", "y"),
        file("", "other", H2),
    ]);
    let target = tree(vec![dir("", "p"), file("", "other", H2), file("p", "stray", H1)]);
    let lines = sync_directory(&reference, &target, &paths(&["p/d"]));
    let count = |text: &str| lines.iter().filter(|found| found.as_str() == text).count();
    assert_eq!(count("create `p/d`"), 1);
    assert_eq!(count("copy `p/d/x`"), 1);
    assert_eq!(count("create `p/d/y`"), 1);
    let place = |text: &str| lines.iter().position(|found| found.as_str() == text).unwrap();
    assert!(place("create `p/d`") < place("copy `p/d/x`"));
    assert!(place("create `p/d`") < place("create `p/d/y`"));
    assert_eq!(
        lines,
        vec![
            "delete `p/stray`".to_string(),
            "create `p/d`".to_string(),
            "copy `p/d/x`".to_string(),
            "create `p/d/y`".to_string(),
        ]
    );
}
