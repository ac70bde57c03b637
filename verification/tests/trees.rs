use dirsync::builder::map_directory;
use dirsync::validate::is_well_formed;
use dirsync::tree::{
    clone_record, find_name, Content, Directory, Entry, EntryError, Record, Tree,
    TreeError,
};

const H1: &str = "E3B0C44298FC1C149AFBF4C8996FB92427AE41E4649B934CA495991B7852B855";
const H2: &str = "BA7816BF8F01CFEA414140DE5DAE2223B00361A396177A9CB410FF61F20015AD";

fn dir_record(name: &str) -> Record {
    Record { name: name.to_string(), content: Content::Directory }
}

fn file_record(name: &str, digest: &str) -> Record {
    Record { name: name.to_string(), content: Content::File { digest: digest.to_string() } }
}

fn entry(parent: &str, record: Record) -> Entry {
    Entry { parent: parent.to_string(), record }
}

fn directory(path: &str, children: Vec<Record>) -> Directory {
    Directory { path: path.to_string(), children }
}

fn refused(entries: Vec<Entry>) -> TreeError {
    match map_directory(&entries) {
        Ok(_) => panic!("the entries made a tree"),
        Err(error) => error,
    }
}

#[test]
fn empty_tree_has_the_root() {
    let tree = Tree::new();
    assert_eq!(tree.directories(), &vec![directory("", vec![])]);
    let built = map_directory(&vec![]).unwrap();
    assert_eq!(built.directories(), tree.directories());
}

#[test]
fn walk_makes_the_tree() {
    let entries = vec![
        entry("", dir_record("a")),
        entry("a", dir_record("b")),
        entry("", file_record("g", H1)),
        entry("a/b", file_record("f.txt", H2)),
        entry("a", file_record("h", H1)),
    ];
    let tree = map_directory(&entries).unwrap();
    assert_eq!(
        tree.directories(),
        &vec![
            directory("", vec![dir_record("a"), file_record("g", H1)]),
            directory("a", vec![dir_record("b"), file_record("h", H1)]),
            directory("a/b", vec![file_record("f.txt", H2)]),
        ]
    );
    assert_eq!(tree.children("a/b"), Some(&vec![file_record("f.txt", H2)]));
    assert_eq!(tree.children("a/c"), None);
    assert_eq!(tree.children("g"), None);
}

#[test]
fn empty_name_is_refused() {
    assert_eq!(
        refused(vec![entry("", dir_record(""))]),
        TreeError { index: 0, reason: EntryError::InvalidName }
    );
}

#[test]
fn name_with_separator_is_refused() {
    assert_eq!(
        refused(vec![entry("", dir_record("a")), entry("", file_record("a/f", H1))]),
        TreeError { index: 1, reason: EntryError::InvalidName }
    );
}

#[test]
fn bad_digest_is_refused() {
    assert_eq!(
        refused(vec![entry("", file_record("f", "abc"))]),
        TreeError { index: 0, reason: EntryError::InvalidDigest }
    );
    assert_eq!(
        refused(vec![entry("", file_record("f", &H1.to_lowercase()))]),
        TreeError { index: 0, reason: EntryError::InvalidDigest }
    );
}

#[test]
fn unknown_parent_is_refused() {
    assert_eq!(
        refused(vec![entry("", dir_record("a")), entry("b", file_record("f", H1))]),
        TreeError { index: 1, reason: EntryError::UnknownParent }
    );
    assert_eq!(
        refused(vec![entry("a", file_record("f", H1)), entry("", dir_record("a"))]),
        TreeError { index: 0, reason: EntryError::UnknownParent }
    );
}

#[test]
fn file_is_no_parent() {
    assert_eq!(
        refused(vec![entry("", file_record("a", H1)), entry("a", file_record("f", H1))]),
        TreeError { index: 1, reason: EntryError::UnknownParent }
    );
}

#[test]
fn duplicate_name_is_refused() {
    assert_eq!(
        refused(vec![
            entry("", dir_record("a")),
            entry("a", file_record("f", H1)),
            entry("a", dir_record("f")),
        ]),
        TreeError { index: 2, reason: EntryError::DuplicateName }
    );
}

#[test]
fn first_failure_is_reported() {
    assert_eq!(
        refused(vec![
            entry("", dir_record("a")),
            entry("x", dir_record("")),
            entry("", dir_record("a")),
        ]),
        TreeError { index: 1, reason: EntryError::InvalidName }
    );
}

#[test]
fn same_name_in_two_directories_is_fine() {
    let entries = vec![
        entry("", dir_record("a")),
        entry("", dir_record("b")),
        entry("a", file_record("f", H1)),
        entry("b", file_record("f", H2)),
        entry("b", dir_record("a")),
    ];
    let tree = map_directory(&entries).unwrap();
    assert_eq!(tree.directories().len(), 4);
    assert_eq!(tree.directories()[3].path, "b/a");
}

#[test]
fn lookups_find_the_first() {
    let dirs = vec![directory("", vec![dir_record("a"), file_record("g", H1)]), directory("a", vec![])];
    assert_eq!(find_name(&dirs[0].children, &"g".to_string()), Some(1));
    assert_eq!(find_name(&dirs[0].children, &"h".to_string()), None);
    assert_eq!(clone_record(&dirs[0].children[1]), file_record("g", H1));
}

#[test]
fn directories_are_checked() {
    let good = vec![
        directory("", vec![dir_record("a"), file_record("g", H1)]),
        directory("a", vec![dir_record("b")]),
        directory("a/b", vec![]),
    ];
    let tree = Tree::from_directories(good.clone()).unwrap();
    assert_eq!(tree.into_directories(), good);
}

#[test]
fn no_directories_make_no_tree() {
    assert!(Tree::from_directories(vec![]).is_none());
}

#[test]
fn root_must_come_first() {
    assert!(Tree::from_directories(vec![directory("a", vec![])]).is_none());
    assert!(Tree::from_directories(vec![
        directory("a", vec![]),
        directory("", vec![dir_record("a")]),
    ])
    .is_none());
}

#[test]
fn paths_must_differ() {
    assert!(Tree::from_directories(vec![
        directory("", vec![dir_record("a")]),
        directory("a", vec![]),
        directory("a", vec![]),
    ])
    .is_none());
    assert!(Tree::from_directories(vec![directory("", vec![]), directory("", vec![])]).is_none());
}

#[test]
fn records_must_be_valid() {
    assert!(Tree::from_directories(vec![directory("", vec![file_record("", H1)])]).is_none());
    assert!(Tree::from_directories(vec![directory("", vec![file_record("a/b", H1)])]).is_none());
    assert!(Tree::from_directories(vec![directory("", vec![file_record("f", "12")])]).is_none());
    assert!(Tree::from_directories(vec![directory(
        "",
        vec![file_record("f", H1), file_record("f", H2)]
    )])
    .is_none());
}

#[test]
fn directory_records_need_their_directory() {
    assert!(Tree::from_directories(vec![directory("", vec![dir_record("a")])]).is_none());
}

#[test]
fn directories_need_their_record() {
    assert!(Tree::from_directories(vec![directory("", vec![]), directory("a", vec![])]).is_none());
    assert!(Tree::from_directories(vec![
        directory("", vec![file_record("a", H1)]),
        directory("a", vec![]),
    ])
    .is_none());
    assert!(Tree::from_directories(vec![
        directory("", vec![dir_record("a")]),
        directory("a", vec![]),
        directory("/a", vec![]),
    ])
    .is_none());
}

#[test]
fn directories_come_after_their_parent() {
    assert!(Tree::from_directories(vec![
        directory("", vec![dir_record("a")]),
        directory("a/b", vec![]),
        directory("a", vec![dir_record("b")]),
    ])
    .is_none());
    assert!(Tree::from_directories(vec![
        directory("", vec![dir_record("a")]),
        directory("a", vec![dir_record("b")]),
        directory("a/b", vec![]),
    ])
    .is_some());
}

#[test]
fn built_trees_are_well_formed() {
    let entries = vec![
        entry("", dir_record("a")),
        entry("a", dir_record("b")),
        entry("a/b", file_record("f", H1)),
        entry("", file_record("g", H2)),
    ];
    let tree = map_directory(&entries).unwrap();
    assert!(is_well_formed(tree.directories()));
    assert!(is_well_formed(Tree::new().directories()));
    let mut broken = tree.into_directories();
    broken.swap(1, 2);
    assert!(!is_well_formed(&broken));
    assert!(!is_well_formed(&vec![]));
}
