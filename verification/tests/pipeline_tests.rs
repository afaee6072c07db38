//! End-to-end scenarios over the in-memory pipeline: examine, group by size,
//! hash, group by (size, hash).

use duff::{
    flatten_groups, group_by_hash, group_by_size, process_file, Config, DuplicateGroup,
    FileResult, HashCache,
};

fn strings(items: &[&str]) -> Vec<String> {
    items.iter().map(|s| s.to_string()).collect()
}

fn config_with(
    ll: Option<u128>,
    ul: Option<u128>,
    exts: Option<Vec<String>>,
) -> Config {
    Config::new(
        strings(&["/data"]),
        false,
        false,
        false,
        false,
        ll,
        ul,
        None,
        exts,
        "/tmp/out".to_string(),
        true,
        None,
        None,
        "2020_12_31__14_55_06".to_string(),
    )
}

/// The three files of the basic scenario: a.txt and b.txt both hold "hello"
/// (5 bytes), c.txt holds "world!" (6 bytes).
fn scenario_files() -> Vec<(String, String, Vec<u8>, i64)> {
    vec![
        ("a.txt".to_string(), "/data/a.txt".to_string(), b"hello".to_vec(), 100),
        ("b.txt".to_string(), "/data/b.txt".to_string(), b"hello".to_vec(), 200),
        ("c.txt".to_string(), "/data/c.txt".to_string(), b"world!".to_vec(), 300),
    ]
}

fn run_pipeline(conf: &Config, cache: Option<&HashCache>) -> Vec<DuplicateGroup> {
    let mut records: Vec<FileResult> = Vec::new();
    for (name, path, bytes, mtime) in scenario_files() {
        if let Some(fr) = process_file(&name, &path, bytes.len() as u128, mtime, conf) {
            records.push(fr);
        }
    }
    let size_groups = group_by_size(&records);
    let mut survivors = flatten_groups(&size_groups);
    for r in survivors.iter_mut() {
        let cached = cache.and_then(|c| c.lookup(r));
        match cached {
            Some(h) => r.update_hash(h),
            None => {
                let bytes = scenario_files()
                    .into_iter()
                    .find(|(_, p, _, _)| *p == r.file_path)
                    .map(|(_, _, b, _)| b)
                    .unwrap();
                r.calc_hash(&bytes, 512);
            },
        }
    }
    group_by_hash(&survivors)
}

#[test]
fn two_equal_files_form_one_group() {
    let conf = config_with(None, None, None);
    let groups = run_pipeline(&conf, None);
    assert_eq!(groups.len(), 1);
    assert_eq!(groups[0].size, 5);
    let paths: Vec<&str> = groups[0].members.iter().map(|m| m.file_path.as_str()).collect();
    assert_eq!(paths, vec!["/data/a.txt", "/data/b.txt"]);
    for g in &groups {
        for m in &g.members {
            assert_ne!(m.file_path, "/data/c.txt");
        }
    }
}

#[test]
fn upper_bound_below_all_sizes_gives_no_groups() {
    let conf = config_with(None, Some(4), None);
    let groups = run_pipeline(&conf, None);
    assert!(groups.is_empty());
}

#[test]
fn matching_extension_filter_changes_nothing() {
    let conf = config_with(None, None, Some(strings(&[".txt"])));
    let groups = run_pipeline(&conf, None);
    assert_eq!(groups.len(), 1);
    assert_eq!(groups[0].members.len(), 2);
}

#[test]
fn stale_cache_entry_is_discarded_and_hash_recomputed() {
    // The stored modification time (50) is older than a.txt's current one
    // (100), so the bogus stored hash must not be reused.
    let mut stale = FileResult::new("/data/a.txt".to_string(), 5, 50);
    stale.update_hash("12345".to_string());
    let cache = HashCache::load(&vec![stale]);
    let conf = config_with(None, None, None);
    let groups = run_pipeline(&conf, Some(&cache));
    assert_eq!(groups.len(), 1);
    assert_eq!(groups[0].members.len(), 2);
    assert_ne!(groups[0].hash, "12345");
}

#[test]
fn current_cache_entry_is_reused_verbatim() {
    // With a matching entry, the stored hash is taken as-is; a.txt then no
    // longer pairs with b.txt, whose hash is computed from its bytes.
    let mut current = FileResult::new("/data/a.txt".to_string(), 5, 100);
    current.update_hash("12345".to_string());
    let cache = HashCache::load(&vec![current]);
    let conf = config_with(None, None, None);
    let groups = run_pipeline(&conf, Some(&cache));
    assert!(groups.is_empty());
}

#[test]
fn empty_input_gives_no_groups() {
    let records: Vec<FileResult> = Vec::new();
    let size_groups = group_by_size(&records);
    assert!(size_groups.is_empty());
    let survivors = flatten_groups(&size_groups);
    assert!(survivors.is_empty());
    let groups = group_by_hash(&survivors);
    assert!(groups.is_empty());
}
