use copyforward::matching::{bytes_agree, confirm_extent, extend_match};
use copyforward::rolling::{prefix_hashes, range_hash, BASE};

#[test]
fn prefix_hashes_follow_the_polynomial() {
    let (h, p) = prefix_hashes(b"ab");
    assert_eq!(h, vec![0, 97, 97 * 257 + 98]);
    assert_eq!(p, vec![1, 257, 257 * 257]);
    assert_eq!(BASE, 257);
    let t = prefix_hashes(b"ab");
    assert_eq!(range_hash(&t, 1, 2), 98);
    assert_eq!(range_hash(&t, 0, 2), 97 * 257 + 98);
    assert_eq!(range_hash(&t, 1, 1), 0);
}

#[test]
fn equal_windows_hash_alike() {
    let a = prefix_hashes(b"xxhello worldyy");
    let b = prefix_hashes(b"hello world");
    assert_eq!(range_hash(&a, 2, 13), range_hash(&b, 0, 11));
    assert_ne!(range_hash(&a, 2, 7), range_hash(&b, 1, 6));
}

#[test]
fn prefix_hashes_wrap_around() {
    let s = vec![255u8; 40];
    let (h, p) = prefix_hashes(&s);
    let mut expected_h = 0u64;
    let mut expected_p = 1u64;
    for i in 0..40 {
        expected_h = expected_h.wrapping_mul(257).wrapping_add(255);
        expected_p = expected_p.wrapping_mul(257);
        assert_eq!(h[i + 1], expected_h);
        assert_eq!(p[i + 1], expected_p);
    }
}

#[test]
fn extend_match_finds_common_prefix() {
    assert_eq!(extend_match(b"abcdef", 0, b"abcxyz", 0, 0), 3);
    assert_eq!(extend_match(b"abcdef", 2, b"zzcdef", 2, 1), 4);
    assert_eq!(extend_match(b"abc", 3, b"abc", 0, 0), 0);
    assert_eq!(extend_match(b"abc", 0, b"abcabc", 3, 0), 3);
}

#[test]
fn bytes_agree_compares_windows() {
    assert!(bytes_agree(b"hello", 1, b"jello", 1, 4));
    assert!(!bytes_agree(b"hello", 0, b"jello", 0, 2));
    assert!(bytes_agree(b"a", 0, b"b", 0, 0));
}

#[test]
fn confirm_extent_checks_the_guess() {
    // A right guess is kept, a wrong one is replaced by the true length.
    assert_eq!(confirm_extent(b"abcdef", 0, b"abcdxx", 0, 1, 4), 4);
    assert_eq!(confirm_extent(b"abcdef", 0, b"abcdxx", 0, 1, 5), 4);
    assert_eq!(confirm_extent(b"abcdef", 0, b"abcdxx", 0, 1, 2), 4);
    assert_eq!(confirm_extent(b"abc", 0, b"abc", 0, 3, 3), 3);
}
