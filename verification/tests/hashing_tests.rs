use duplicate_finder::hashing::{hash_bytes, to_hex, ContentHasher};

#[test]
fn test_known_digest() {
    // The SHA-256 digest of "hello", as any independent tool reports it.
    assert_eq!(
        hash_bytes(b"hello"),
        "2cf24dba5fb0a30e26e83b2ac5b9e29e1b161e5c1fa7425e73043362938b9824"
    );
    // The digest of the empty input: every empty file hashes to this.
    assert_eq!(
        hash_bytes(b""),
        "e3b0c44298fc1c149afbf4c8996fb92427ae41e4649b934ca495991b7852b855"
    );
}

#[test]
fn test_digest_deterministic() {
    // Hashing the same bytes twice yields identical digests.
    let first = hash_bytes(b"some file content");
    let second = hash_bytes(b"some file content");
    assert_eq!(first, second);
    assert_eq!(first.len(), 64);
}

#[test]
fn test_streaming_matches_one_shot() {
    // Feeding the bytes in chunks digests their concatenation.
    let mut h = ContentHasher::new();
    h.update(b"he");
    h.update(b"llo");
    assert_eq!(h.finalize_hex(), hash_bytes(b"hello"));
}

#[test]
fn test_different_content_different_digest() {
    assert_ne!(hash_bytes(b"hello"), hash_bytes(b"world"));
}

#[test]
fn test_to_hex() {
    assert_eq!(to_hex(&vec![]), "");
    assert_eq!(to_hex(&vec![0x00, 0x0f, 0xa5, 0xff]), "000fa5ff");
}
