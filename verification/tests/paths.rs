use dirsync::path::{is_valid_name, join_names, join_path, split_path};

#[test]
fn join_at_the_root_is_the_name() {
    assert_eq!(join_path("", "a"), "a");
}

#[test]
fn join_below_the_root_puts_a_slash() {
    assert_eq!(join_path("a", "b"), "a/b");
    assert_eq!(join_path("a/b", "c.txt"), "a/b/c.txt");
}

#[test]
fn names_are_checked() {
    assert!(is_valid_name("a"));
    assert!(is_valid_name("f.txt"));
    assert!(is_valid_name("with space"));
    assert!(is_valid_name("ünïcödé"));
    assert!(is_valid_name("back\\slash"));
    assert!(!is_valid_name(""));
    assert!(!is_valid_name("/"));
    assert!(!is_valid_name("a/b"));
    assert!(!is_valid_name("a/"));
    assert!(!is_valid_name("/a"));
}

#[test]
fn split_without_separator() {
    assert_eq!(split_path("name"), (String::new(), "name".to_string()));
    assert_eq!(split_path(""), (String::new(), String::new()));
}

#[test]
fn split_at_the_last_separator() {
    assert_eq!(split_path("a/b"), ("a".to_string(), "b".to_string()));
    assert_eq!(split_path("a/b/c.txt"), ("a/b".to_string(), "c.txt".to_string()));
    assert_eq!(split_path("a/"), ("a".to_string(), String::new()));
    assert_eq!(split_path("/a"), (String::new(), "a".to_string()));
    assert_eq!(split_path("ü/é/ö"), ("ü/é".to_string(), "ö".to_string()));
}

#[test]
fn split_undoes_join() {
    for (parent, name) in [("", "a"), ("a", "b"), ("a/b", "c"), ("ä/ö", "ü.txt")] {
        let joined = join_path(parent, name);
        assert_eq!(split_path(&joined), (parent.to_string(), name.to_string()));
    }
}

#[test]
fn names_join_from_the_root_down() {
    assert_eq!(join_names(&vec![]), "");
    assert_eq!(join_names(&vec!["a".to_string()]), "a");
    assert_eq!(join_names(&vec!["a".to_string(), "b".to_string(), "c.txt".to_string()]), "a/b/c.txt");
}
