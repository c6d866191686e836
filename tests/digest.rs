use find_duplicates::digest::{ChunkRead, DigestProgress, FileDigester};

fn digest_of_chunks(chunks: &[&[u8]]) -> [u8; 32] {
    let mut d = FileDigester::new();
    for c in chunks {
        assert!(!c.is_empty());
        d = match d.step(ChunkRead::Bytes(c)) {
            DigestProgress::Pending(next) => next,
            _ => panic!("a non-empty chunk must keep the digest pending"),
        };
    }
    match d.step(ChunkRead::Bytes(&[])) {
        DigestProgress::Complete(h) => h,
        _ => panic!("an empty chunk must complete the digest"),
    }
}

#[test]
fn empty_file_has_the_digest_of_no_bytes() {
    let h = digest_of_chunks(&[]);
    assert_eq!(h, *blake3::hash(b"").as_bytes());
    assert_eq!(
        h[..4],
        [0xaf, 0x13, 0x49, 0xb9]
    );
}

#[test]
fn two_empty_files_share_a_digest() {
    assert_eq!(digest_of_chunks(&[]), digest_of_chunks(&[]));
}

#[test]
fn digest_is_the_hash_of_the_whole_content() {
    let h = digest_of_chunks(&[b"foo", b"bar", b"baz"]);
    assert_eq!(h, *blake3::hash(b"foobarbaz").as_bytes());
}

#[test]
fn chunking_does_not_change_the_digest() {
    let a = digest_of_chunks(&[b"hello ", b"world"]);
    let b = digest_of_chunks(&[b"hel", b"lo wor", b"ld"]);
    let c = digest_of_chunks(&[b"hello world"]);
    assert_eq!(a, b);
    assert_eq!(a, c);
}

#[test]
fn different_content_gives_different_digests() {
    let a = digest_of_chunks(&[b"hello world"]);
    let b = digest_of_chunks(&[b"hello world!"]);
    let e = digest_of_chunks(&[]);
    assert_ne!(a, b);
    assert_ne!(a, e);
}

#[test]
fn large_content_in_full_buffers() {
    let big = vec![7u8; 100_000];
    let parts: Vec<&[u8]> = big.chunks(32768).collect();
    assert_eq!(digest_of_chunks(&parts), *blake3::hash(&big).as_bytes());
}

#[test]
fn failed_read_discards_the_digest() {
    let d = FileDigester::new();
    let d = match d.step(ChunkRead::Bytes(b"partial")) {
        DigestProgress::Pending(next) => next,
        _ => panic!("expected pending"),
    };
    assert!(matches!(d.step(ChunkRead::Failed), DigestProgress::Discarded));
    assert!(matches!(FileDigester::new().step(ChunkRead::Failed), DigestProgress::Discarded));
}
