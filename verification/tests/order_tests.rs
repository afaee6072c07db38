//! Deterministic member order: lexicographic by path.

use duff::{group_by_hash, sort_members_by_path, FileResult};

fn hashed(path: &str, size: u128, hash: &str) -> FileResult {
    let mut r = FileResult::new(path.to_string(), size, 0);
    r.update_hash(hash.to_string());
    r
}

fn paths(v: &[FileResult]) -> Vec<&str> {
    v.iter().map(|m| m.file_path.as_str()).collect()
}

#[test]
fn members_sort_lexicographically() {
    let mut members = vec![
        hashed("/data/c.txt", 5, "h"),
        hashed("/data/a.txt", 5, "h"),
        hashed("/data/ab.txt", 5, "h"),
        hashed("/data/a.txt", 5, "h"),
    ];
    sort_members_by_path(&mut members);
    assert_eq!(paths(&members), vec!["/data/a.txt", "/data/a.txt", "/data/ab.txt", "/data/c.txt"]);
}

#[test]
fn sorting_keeps_empty_and_singleton() {
    let mut none: Vec<FileResult> = Vec::new();
    sort_members_by_path(&mut none);
    assert!(none.is_empty());
    let mut one = vec![hashed("/z", 1, "h")];
    sort_members_by_path(&mut one);
    assert_eq!(paths(&one), vec!["/z"]);
}

#[test]
fn prefix_comes_before_extension_of_it() {
    let mut members = vec![hashed("/data/abc", 5, "h"), hashed("/data/ab", 5, "h")];
    sort_members_by_path(&mut members);
    assert_eq!(paths(&members), vec!["/data/ab", "/data/abc"]);
}

#[test]
fn sorted_groups_still_hold_the_same_records() {
    let records = vec![
        hashed("/data/b.txt", 5, "h"),
        hashed("/data/a.txt", 5, "h"),
        hashed("/data/c.txt", 5, "h"),
    ];
    let mut groups = group_by_hash(&records);
    assert_eq!(groups.len(), 1);
    sort_members_by_path(&mut groups[0].members);
    assert_eq!(paths(&groups[0].members), vec!["/data/a.txt", "/data/b.txt", "/data/c.txt"]);
}
