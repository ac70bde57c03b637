use dirsync::digest::{calculate_hash, is_digest_text, ContentHasher, CHUNK_LEN, MAX_CONTENT_LEN};

#[test]
fn digest_of_nothing() {
    assert_eq!(
        calculate_hash(b"").unwrap(),
        "E3B0C44298FC1C149AFBF4C8996FB92427AE41E4649B934CA495991B7852B855"
    );
}

#[test]
fn digest_of_abc() {
    assert_eq!(
        calculate_hash(b"abc").unwrap(),
        "BA7816BF8F01CFEA414140DE5DAE2223B00361A396177A9CB410FF61F20015AD"
    );
}

#[test]
fn digest_of_hello_world() {
    assert_eq!(
        calculate_hash(b"hello, world").unwrap(),
        "09CA7E4EAA6E8AE9C7D261167129184883644D07DFBA7CBFBC4C8A2E08360D5B"
    );
}

#[test]
fn same_content_same_digest() {
    let content: Vec<u8> = (0..5000u32).map(|i| (i % 251) as u8).collect();
    assert_eq!(calculate_hash(&content), calculate_hash(&content.clone()));
}

#[test]
fn different_content_different_digest() {
    assert_ne!(calculate_hash(b"one"), calculate_hash(b"two"));
    assert_ne!(calculate_hash(b""), calculate_hash(b"\0"));
}

#[test]
fn chunking_does_not_matter() {
    let content: Vec<u8> = (0..(3 * CHUNK_LEN + 17)).map(|i| (i * 7 % 256) as u8).collect();
    let whole = calculate_hash(&content).unwrap();
    for size in [1usize, 3, 64, 1000, CHUNK_LEN, CHUNK_LEN + 1, 5000] {
        let mut hasher = ContentHasher::new();
        for chunk in content.chunks(size) {
            let (next, taken) = hasher.update(chunk);
            assert!(taken);
            hasher = next;
        }
        assert_eq!(hasher.finish(), whole);
    }
}

#[test]
fn empty_update_changes_nothing() {
    let (hasher, taken) = ContentHasher::new().update(b"abc");
    assert!(taken);
    let (hasher, taken) = hasher.update(b"");
    assert!(taken);
    assert_eq!(hasher.finish(), calculate_hash(b"abc").unwrap());
}

#[test]
fn digest_has_the_shape_of_a_digest() {
    let digest = calculate_hash(b"some content").unwrap();
    assert_eq!(digest.len(), 64);
    assert!(is_digest_text(&digest));
}

#[test]
fn digest_shape_is_checked() {
    let good = "E3B0C44298FC1C149AFBF4C8996FB92427AE41E4649B934CA495991B7852B855";
    assert!(is_digest_text(good));
    assert!(!is_digest_text(""));
    assert!(!is_digest_text(&good[..63]));
    assert!(!is_digest_text(&format!("{}0", good)));
    assert!(!is_digest_text(&good.to_lowercase()));
    assert!(!is_digest_text(&good.replace('E', "G")));
    assert!(!is_digest_text(&good.replace('E', "/")));
    assert!(!is_digest_text(&good.replace('E', "é")));
    assert!(is_digest_text(&"0123456789ABCDEF".repeat(4)));
}

#[test]
fn content_limit_is_two_to_the_sixty_one_less_one() {
    assert_eq!(MAX_CONTENT_LEN, (1u64 << 61) - 1);
    assert_eq!(CHUNK_LEN, 1024);
}
