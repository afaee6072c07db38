//! The content hasher: streaming digest of a record's bytes.

use duff::FileResult;

fn rec(path: &str, size: u128) -> FileResult {
    FileResult::new(path.to_string(), size, 0)
}

#[test]
fn equal_bytes_give_equal_hashes() {
    let mut a = rec("/a", 5);
    let mut b = rec("/b", 5);
    a.calc_hash(&b"hello".to_vec(), 4096);
    b.calc_hash(&b"hello".to_vec(), 4096);
    assert!(!a.hash.is_empty());
    assert_eq!(a.hash, b.hash);
}

#[test]
fn different_bytes_give_different_hashes() {
    let mut a = rec("/a", 5);
    let mut c = rec("/c", 6);
    a.calc_hash(&b"hello".to_vec(), 4096);
    c.calc_hash(&b"world!".to_vec(), 4096);
    assert_ne!(a.hash, c.hash);
}

#[test]
fn hash_is_decimal_text_not_the_input() {
    let mut a = rec("/a", 5);
    a.calc_hash(&b"hello".to_vec(), 4096);
    assert_ne!(a.hash, "hello");
    assert!(a.hash.chars().all(|c| c.is_ascii_digit()));
}

#[test]
fn buffer_size_does_not_change_the_digest() {
    // The digest is a function of the byte stream alone, however it is
    // chunked.
    let data: Vec<u8> = (0u8..=255).cycle().take(5000).collect();
    let mut small = rec("/a", 5000);
    let mut large = rec("/b", 5000);
    small.calc_hash(&data, 1);
    large.calc_hash(&data, 1 << 20);
    assert_eq!(small.hash, large.hash);
}

#[test]
fn empty_input_still_hashes() {
    let mut a = rec("/a", 1);
    a.calc_hash(&Vec::new(), 512);
    assert!(!a.hash.is_empty());
    assert!(a.hash.chars().all(|c| c.is_ascii_digit()));
}

#[test]
fn calc_hash_keeps_the_other_fields() {
    let mut a = FileResult::new("/data/a.txt".to_string(), 5, 123);
    a.calc_hash(&b"hello".to_vec(), 512);
    assert_eq!(a.file_path, "/data/a.txt");
    assert_eq!(a.size, 5);
    assert_eq!(a.mtime, 123);
}

#[test]
fn update_hash_replaces_only_the_hash() {
    let mut a = FileResult::new("/data/a.txt".to_string(), 5, 123);
    a.update_hash("42".to_string());
    assert_eq!(a.hash, "42");
    assert_eq!(a.file_path, "/data/a.txt");
    assert_eq!(a.size, 5);
    assert_eq!(a.mtime, 123);
}

#[test]
fn records_compare_by_size_and_hash() {
    let mut a = FileResult::new("/x".to_string(), 5, 1);
    let mut b = FileResult::new("/y".to_string(), 5, 2);
    assert_eq!(a, b);
    a.update_hash("1".to_string());
    assert_ne!(a, b);
    b.update_hash("1".to_string());
    assert_eq!(a, b);
}
