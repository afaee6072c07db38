//! Assembling a configuration from parsed values.

use duff::Config;

fn strings(items: &[&str]) -> Vec<String> {
    items.iter().map(|s| s.to_string()).collect()
}

fn build(
    archive: bool,
    log: bool,
    hide_prog: bool,
    silent: bool,
    out_dir: &str,
    res_file: Option<&str>,
    prev_hash_file: Option<&str>,
) -> Config {
    Config::new(
        strings(&["/data", "/more"]),
        archive,
        log,
        hide_prog,
        silent,
        None,
        None,
        None,
        None,
        out_dir.to_string(),
        true,
        res_file.map(|s| s.to_string()),
        prev_hash_file.map(|s| s.to_string()),
        "2020_12_31__14_55_06".to_string(),
    )
}

#[test]
fn defaults_fill_absent_options() {
    let c = build(false, false, false, false, "/tmp/out", None, None);
    assert_eq!(c.ll_size, 0);
    assert_eq!(c.ul_size, u128::MAX);
    assert_eq!(c.jobs, 1);
    assert_eq!(c.exts, vec!["*".to_string()]);
    assert!(!c.resume);
    assert!(!c.have_hash);
    assert_eq!(c.res_file, "");
    assert_eq!(c.prev_hash_file, "");
    assert_eq!(c.search_path, vec!["/data".to_string(), "/more".to_string()]);
}

#[test]
fn silence_also_hides_progress() {
    let c = build(false, false, false, true, "/tmp/out", None, None);
    assert!(c.silent);
    assert!(c.hide_prog);
    let d = build(false, false, false, false, "/tmp/out", None, None);
    assert!(!d.hide_prog);
}

#[test]
fn trailing_slash_is_stripped() {
    let c = build(false, false, false, false, "/tmp/out/", None, None);
    assert_eq!(c.out_dir, "/tmp/out");
    let d = build(false, false, false, false, "/tmp/out", None, None);
    assert_eq!(d.out_dir, "/tmp/out");
}

#[test]
fn output_files_carry_the_timestamp() {
    let c = build(true, true, false, false, "/tmp/out", None, None);
    assert_eq!(c.report_file, "/tmp/out/DuFF_2020_12_31__14_55_06.report");
    assert_eq!(c.log_file, "/tmp/out/DuFF_2020_12_31__14_55_06.log");
    assert_eq!(c.archive_file, "/tmp/out/DuFF_2020_12_31__14_55_06.arch");
}

#[test]
fn unwanted_working_files_are_hidden() {
    let c = build(false, false, false, false, "/tmp/out", None, None);
    assert_eq!(c.log_file, "/tmp/out/.DuFF_2020_12_31__14_55_06.log");
    assert_eq!(c.archive_file, "/tmp/out/.DuFF_2020_12_31__14_55_06.arch");
}

#[test]
fn supplied_files_switch_the_flags_on() {
    let c = build(false, false, false, false, "/tmp/out", Some("old.log"), Some("old.arch"));
    assert!(c.resume);
    assert_eq!(c.res_file, "old.log");
    assert!(c.have_hash);
    assert_eq!(c.prev_hash_file, "old.arch");
}

#[test]
fn discard_list_follows_the_flags() {
    let both = build(false, false, false, false, "/tmp/out", None, None);
    let d = duff::files_to_discard(&both);
    assert_eq!(d, vec![both.log_file.clone(), both.archive_file.clone()]);
    let keep_log = build(false, true, false, false, "/tmp/out", None, None);
    assert_eq!(duff::files_to_discard(&keep_log), vec![keep_log.archive_file.clone()]);
    let keep_all = build(true, true, false, false, "/tmp/out", None, None);
    assert!(duff::files_to_discard(&keep_all).is_empty());
}
