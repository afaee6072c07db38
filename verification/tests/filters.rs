//! Extension and size filters, and the file examination step.

use duff::{check_ext, check_size, process_file, Config};

fn strings(items: &[&str]) -> Vec<String> {
    items.iter().map(|s| s.to_string()).collect()
}

fn default_config(search: &[&str]) -> Config {
    Config::new(
        strings(search),
        false,
        false,
        false,
        false,
        None,
        None,
        None,
        None,
        "/tmp/out".to_string(),
        true,
        None,
        None,
        "2020_12_31__14_55_06".to_string(),
    )
}

#[test]
fn size_filter_boundaries() {
    // Boundary-equal sizes are included; strictly outside is excluded.
    assert!(check_size(10, 10, 20));
    assert!(check_size(20, 10, 20));
    assert!(check_size(15, 10, 20));
    assert!(!check_size(9, 10, 20));
    assert!(!check_size(21, 10, 20));
    assert!(check_size(0, 0, 0));
    assert!(check_size(u128::MAX, 0, u128::MAX));
    assert!(!check_size(u128::MAX, 0, u128::MAX - 1));
}

#[test]
fn extension_wildcard_keeps_everything() {
    let exts = strings(&["*"]);
    assert!(check_ext(&"anything.bin".to_string(), &exts));
    assert!(check_ext(&"noextension".to_string(), &exts));
    assert!(check_ext(&"".to_string(), &exts));
}

#[test]
fn extension_suffix_match() {
    let exts = strings(&[".txt", ".fastq.gz"]);
    assert!(check_ext(&"notes.txt".to_string(), &exts));
    assert!(check_ext(&"reads.fastq.gz".to_string(), &exts));
    assert!(!check_ext(&"image.png".to_string(), &exts));
    assert!(!check_ext(&"reads.fastq".to_string(), &exts));
    // The dot may be left off; a bare suffix still matches.
    let no_dot = strings(&["txt"]);
    assert!(check_ext(&"notes.txt".to_string(), &no_dot));
}

#[test]
fn wildcard_is_literal_when_not_alone() {
    // "*" disables filtering only as the single entry.
    let exts = strings(&["*", ".txt"]);
    assert!(!check_ext(&"image.png".to_string(), &exts));
    assert!(check_ext(&"notes.txt".to_string(), &exts));
}

#[test]
fn process_file_accepts_and_fills_record() {
    let conf = default_config(&["/data"]);
    let r = process_file(
        &"a.txt".to_string(),
        &"/data/a.txt".to_string(),
        5,
        1_600_000_000,
        &conf,
    );
    let fr = r.expect("in-range file should pass");
    assert_eq!(fr.file_path, "/data/a.txt");
    assert_eq!(fr.size, 5);
    assert_eq!(fr.mtime, 1_600_000_000);
    assert_eq!(fr.hash, "");
}

#[test]
fn process_file_rejects_zero_size() {
    let conf = default_config(&["/data"]);
    let r = process_file(&"a.txt".to_string(), &"/data/a.txt".to_string(), 0, 7, &conf);
    assert!(r.is_none());
}

#[test]
fn process_file_applies_filters() {
    let mut conf = default_config(&["/data"]);
    conf.ll_size = 10;
    conf.ul_size = 20;
    conf.exts = strings(&[".txt"]);
    let name = "a.txt".to_string();
    let path = "/data/a.txt".to_string();
    assert!(process_file(&name, &path, 9, 0, &conf).is_none());
    assert!(process_file(&name, &path, 10, 0, &conf).is_some());
    assert!(process_file(&name, &path, 20, 0, &conf).is_some());
    assert!(process_file(&name, &path, 21, 0, &conf).is_none());
    let other = "a.png".to_string();
    assert!(process_file(&other, &path, 15, 0, &conf).is_none());
}
