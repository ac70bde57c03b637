use dirsync::builder::map_directory;
use dirsync::snapshot::{load_state, save_state, to_bytes, StateError};
use dirsync::tree::{Content, Directory, Entry, EntryError, Record, Tree, TreeError};
use std::collections::HashMap;

const H1: &str = "E3B0C44298FC1C149AFBF4C8996FB92427AE41E4649B934CA495991B7852B855";
const H2: &str = "BA7816BF8F01CFEA414140DE5DAE2223B00361A396177A9CB410FF61F20015AD";

fn dir(parent: &str, name: &str) -> Entry {
    Entry {
        parent: parent.to_string(),
        record: Record { name: name.to_string(), content: Content::Directory },
    }
}

fn file(parent: &str, name: &str, digest: &str) -> Entry {
    Entry {
        parent: parent.to_string(),
        record: Record {
            name: name.to_string(),
            content: Content::File { digest: digest.to_string() },
        },
    }
}

fn sample() -> Vec<Entry> {
    vec![
        dir("", "a"),
        dir("a", "b"),
        dir("", "empty"),
        file("", "g", H1),
        file("a/b", "f.txt", H2),
        file("a", "ünï", H1),
    ]
}

#[test]
fn snapshot_round_trip() {
    let tree = map_directory(&sample()).unwrap();
    let bytes = to_bytes(&tree).unwrap();
    let back = load_state(&bytes).unwrap();
    assert_eq!(back.directories(), tree.directories());
}

#[test]
fn empty_tree_round_trip() {
    let tree = Tree::new();
    let bytes = to_bytes(&tree).unwrap();
    let back = load_state(&bytes).unwrap();
    assert_eq!(back.directories(), tree.directories());
}

#[test]
fn empty_tree_bytes() {
    let bytes = to_bytes(&Tree::new()).unwrap();
    let mut expected = vec![0u8; 24];
    expected[0] = 1;
    assert_eq!(bytes, expected);
}

#[test]
fn one_file_bytes() {
    let tree = map_directory(&vec![file("", "f", H1)]).unwrap();
    let bytes = to_bytes(&tree).unwrap();
    let mut expected: Vec<u8> = Vec::new();
    expected.extend_from_slice(&1u64.to_le_bytes());
    expected.extend_from_slice(&0u64.to_le_bytes());
    expected.extend_from_slice(&1u64.to_le_bytes());
    expected.extend_from_slice(&1u64.to_le_bytes());
    expected.push(b'f');
    expected.push(1);
    expected.extend_from_slice(&64u64.to_le_bytes());
    expected.extend_from_slice(H1.as_bytes());
    assert_eq!(bytes, expected);
}

#[test]
fn save_state_is_build_then_bytes() {
    let bytes = save_state(&sample()).unwrap();
    let tree = map_directory(&sample()).unwrap();
    assert_eq!(bytes, to_bytes(&tree).unwrap());
    assert_eq!(load_state(&bytes).unwrap().directories(), tree.directories());
}

#[test]
fn save_state_reports_the_entry() {
    let entries = vec![dir("", "a"), file("b", "f", H1)];
    assert_eq!(
        save_state(&entries),
        Err(StateError::Tree(TreeError { index: 1, reason: EntryError::UnknownParent }))
    );
}

#[test]
fn map_keyed_by_path_reads_as_a_snapshot() {
    let mut state: HashMap<String, Vec<(String, Option<String>)>> = HashMap::new();
    state.insert(
        String::new(),
        vec![("f".to_string(), Some(H1.to_string())), ("g".to_string(), Some(H2.to_string()))],
    );
    let bytes = bincode::serialize(&state).unwrap();
    let tree = load_state(&bytes).unwrap();
    assert_eq!(
        tree.directories(),
        map_directory(&vec![file("", "f", H1), file("", "g", H2)]).unwrap().directories()
    );
    assert_eq!(to_bytes(&tree).unwrap(), bytes);
}

#[test]
fn snapshot_reads_as_a_map_keyed_by_path() {
    let tree = map_directory(&sample()).unwrap();
    let bytes = to_bytes(&tree).unwrap();
    let state: HashMap<String, Vec<(String, Option<String>)>> =
        bincode::deserialize(&bytes).unwrap();
    assert_eq!(state.len(), 4);
    assert_eq!(
        state["a"],
        vec![("b".to_string(), None), ("ünï".to_string(), Some(H1.to_string()))]
    );
    assert_eq!(state["empty"], vec![]);
}

#[test]
fn truncated_bytes_do_not_decode() {
    let bytes = to_bytes(&map_directory(&sample()).unwrap()).unwrap();
    let cut = &bytes[..bytes.len() - 1];
    assert!(matches!(load_state(cut), Err(StateError::Decoding { .. })));
    assert!(matches!(load_state(&[]), Err(StateError::Decoding { .. })));
    assert!(matches!(load_state(&[1, 2, 3]), Err(StateError::Decoding { .. })));
}

#[test]
fn bytes_that_are_no_text_do_not_decode() {
    let mut bytes: Vec<u8> = Vec::new();
    bytes.extend_from_slice(&1u64.to_le_bytes());
    bytes.extend_from_slice(&1u64.to_le_bytes());
    bytes.push(0xff);
    bytes.extend_from_slice(&0u64.to_le_bytes());
    assert!(matches!(load_state(&bytes), Err(StateError::Decoding { .. })));
}

#[test]
fn directories_that_make_no_tree_are_malformed() {
    let no_root: Vec<(String, Vec<(String, Option<String>)>)> = vec![];
    assert!(matches!(
        load_state(&bincode::serialize(&no_root).unwrap()),
        Err(StateError::Malformed)
    ));
    let dangling: Vec<(String, Vec<(String, Option<String>)>)> =
        vec![(String::new(), vec![("a".to_string(), None)])];
    assert!(matches!(
        load_state(&bincode::serialize(&dangling).unwrap()),
        Err(StateError::Malformed)
    ));
    let bad_digest: Vec<(String, Vec<(String, Option<String>)>)> =
        vec![(String::new(), vec![("f".to_string(), Some("1234".to_string()))])];
    assert!(matches!(
        load_state(&bincode::serialize(&bad_digest).unwrap()),
        Err(StateError::Malformed)
    ));
}

#[test]
fn checked_directories_round_trip() {
    let dirs = vec![
        Directory {
            path: String::new(),
            children: vec![
                Record { name: "z".to_string(), content: Content::Directory },
                Record { name: "a".to_string(), content: Content::File { digest: H2.to_string() } },
            ],
        },
        Directory { path: "z".to_string(), children: vec![] },
    ];
    let tree = Tree::from_directories(dirs.clone()).unwrap();
    let back = load_state(&to_bytes(&tree).unwrap()).unwrap();
    assert_eq!(back.into_directories(), dirs);
}

#[test]
fn every_built_tree_gives_bytes() {
    let walks: Vec<Vec<Entry>> = vec![
        vec![],
        vec![dir("", "a")],
        vec![file("", "f", H1)],
        sample(),
        vec![dir("", "ä ö"), dir("ä ö", "b"), dir("ä ö/b", "c"), file("ä ö/b/c", "ü", H2)],
    ];
    for entries in walks {
        let tree = map_directory(&entries).unwrap();
        let bytes = save_state(&entries).unwrap();
        assert_eq!(load_state(&bytes).unwrap().directories(), tree.directories());
    }
}
