//! The hash cache: exact (path, size, modification time) matches reuse the
//! stored hash; any mismatch forces recomputation.

use duff::{FileResult, HashCache};

fn entry(path: &str, size: u128, mtime: i64, hash: &str) -> FileResult {
    let mut r = FileResult::new(path.to_string(), size, mtime);
    r.update_hash(hash.to_string());
    r
}

#[test]
fn exact_match_reuses_stored_hash() {
    let cache = HashCache::load(&vec![
        entry("/data/a.txt", 5, 100, "111"),
        entry("/data/b.txt", 5, 200, "222"),
        entry("/data/c.txt", 7, 300, "333"),
    ]);
    let r = FileResult::new("/data/b.txt".to_string(), 5, 200);
    assert_eq!(cache.lookup(&r), Some("222".to_string()));
}

#[test]
fn stale_mtime_forces_recomputation() {
    // The stored time is older than the file's current one: no reuse.
    let cache = HashCache::load(&vec![entry("/data/a.txt", 5, 100, "111")]);
    let newer = FileResult::new("/data/a.txt".to_string(), 5, 150);
    assert_eq!(cache.lookup(&newer), None);
}

#[test]
fn any_field_mismatch_forces_recomputation() {
    let cache = HashCache::load(&vec![entry("/data/a.txt", 5, 100, "111")]);
    let other_path = FileResult::new("/data/z.txt".to_string(), 5, 100);
    assert_eq!(cache.lookup(&other_path), None);
    let other_size = FileResult::new("/data/a.txt".to_string(), 6, 100);
    assert_eq!(cache.lookup(&other_size), None);
    let other_time = FileResult::new("/data/a.txt".to_string(), 5, 99);
    assert_eq!(cache.lookup(&other_time), None);
}

#[test]
fn first_loaded_match_wins() {
    let cache = HashCache::load(&vec![
        entry("/data/a.txt", 5, 100, "first"),
        entry("/data/a.txt", 5, 100, "second"),
    ]);
    let r = FileResult::new("/data/a.txt".to_string(), 5, 100);
    assert_eq!(cache.lookup(&r), Some("first".to_string()));
}

#[test]
fn empty_cache_never_answers() {
    let cache = HashCache::load(&Vec::new());
    let r = FileResult::new("/data/a.txt".to_string(), 5, 100);
    assert_eq!(cache.lookup(&r), None);
}
