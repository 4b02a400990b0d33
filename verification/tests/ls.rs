use rtk::cli::{scaled_cap, TruncateLevel};
use rtk::ls::{
    compact_dir, get_file_type_char, get_perms_octal, glob_matches, human_size, is_visible, no_ignore_rules, IgnoreRules,
    LsEntry, MAX_EXT_SUMMARY, NOISE_DIRS,
};

fn dir(name: &str) -> LsEntry {
    LsEntry { name: name.to_string(), is_dir: true, is_symlink: false, readonly: false, size: 4096 }
}

fn file(name: &str, size: u64) -> LsEntry {
    LsEntry { name: name.to_string(), is_dir: false, is_symlink: false, readonly: false, size }
}

#[test]
fn test_compact_basic() {
    let entries = vec![dir("src"), file("Cargo.toml", 1234), file("README.md", 5678)];
    let (entries, _summary) = compact_dir(&entries, false, false, &no_ignore_rules(), Some(MAX_EXT_SUMMARY));
    assert!(entries.contains("src/"));
    assert!(entries.contains("Cargo.toml"));
    assert!(entries.contains("README.md"));
    assert!(entries.contains("1.2K"));
    assert!(entries.contains("5.5K"));
}

#[test]
fn test_compact_filters_noise() {
    let entries = vec![
        dir("node_modules"),
        dir(".git"),
        dir("target"),
        dir("src"),
        file("main.rs", "fn main() {}".len() as u64),
    ];
    let (entries, _summary) = compact_dir(&entries, false, false, &no_ignore_rules(), Some(MAX_EXT_SUMMARY));
    assert!(!entries.contains("node_modules"));
    assert!(!entries.contains(".git"));
    assert!(!entries.contains("target"));
    assert!(entries.contains("src/"));
    assert!(entries.contains("main.rs"));
}

#[test]
fn test_compact_show_all() {
    let entries = vec![dir(".git"), dir("src"), file(".hidden", "secret".len() as u64)];
    let (entries, _summary) = compact_dir(&entries, true, false, &no_ignore_rules(), Some(MAX_EXT_SUMMARY));
    assert!(entries.contains(".git/"));
    assert!(entries.contains("src/"));
    assert!(entries.contains(".hidden"));
}

#[test]
fn test_compact_empty() {
    let (entries, _summary) = compact_dir(&[], false, false, &no_ignore_rules(), Some(MAX_EXT_SUMMARY));
    assert_eq!(entries, "(empty)\n");
}

#[test]
fn test_human_size_units() {
    assert_eq!(human_size(1023), "1023B");
    assert_eq!(human_size(1280), "1.2K");
    assert_eq!(human_size(1792), "1.8K");
    assert_eq!(human_size(1_048_575), "1024.0K");
    assert_eq!(human_size(u64::MAX), "17592186044416.0M");
}

#[test]
fn test_compact_long_format_includes_octal() {
    let entries = vec![dir("src"), file("Cargo.toml", "[package]".len() as u64)];
    let (entries, _summary) = compact_dir(&entries, false, true, &no_ignore_rules(), Some(MAX_EXT_SUMMARY));
    assert!(entries.contains("755  src/"));
    assert!(entries.contains("644  Cargo.toml"));
}

#[test]
fn test_compact_summary() {
    let entries = vec![
        dir("src"),
        file("main.rs", "fn main() {}".len() as u64),
        file("lib.rs", "pub fn foo() {}".len() as u64),
        file("Cargo.toml", "[package]\n".len() as u64),
    ];
    let (_entries, summary) = compact_dir(&entries, false, false, &no_ignore_rules(), Some(MAX_EXT_SUMMARY));
    assert!(summary.contains("Summary: 3 files, 1 dirs"));
    assert!(summary.contains(".rs"));
    assert!(summary.contains(".toml"));
}

#[test]
fn ls_test_noise_dirs_constant() {
    assert!(NOISE_DIRS.contains(&"node_modules"));
    assert!(NOISE_DIRS.contains(&".git"));
    assert!(NOISE_DIRS.contains(&"target"));
    assert!(NOISE_DIRS.contains(&"__pycache__"));
    assert!(NOISE_DIRS.contains(&".next"));
    assert!(NOISE_DIRS.contains(&"dist"));
    assert!(NOISE_DIRS.contains(&"build"));
}

#[test]
fn compact_exact_text_and_order() {
    let entries = vec![
        file("zeta.txt", 10),
        dir("beta"),
        file("Alpha.md", 2048),
        dir("alpha"),
        file("Makefile", 0),
    ];
    let (listing, summary) = compact_dir(&entries, false, false, &no_ignore_rules(), Some(MAX_EXT_SUMMARY));
    assert_eq!(listing, "alpha/\nbeta/\nAlpha.md  2.0K\nMakefile  0B\nzeta.txt  10B\n");
    assert_eq!(summary, "\nSummary: 3 files, 2 dirs (1 .md, 1 no ext, 1 .txt)\n");
}

#[test]
fn compact_summary_ranks_and_caps_extensions() {
    let entries = vec![
        file("a.rs", 1),
        file("b.rs", 1),
        file("c.toml", 1),
        file("d.md", 1),
        file("e.rs", 1),
        file("f.md", 1),
        file("g.txt", 1),
        file("h.json", 1),
        file("i.lock", 1),
        file("j.yml", 1),
    ];
    let (_listing, summary) = compact_dir(&entries, false, false, &no_ignore_rules(), Some(MAX_EXT_SUMMARY));
    assert_eq!(
        summary,
        "\nSummary: 10 files, 0 dirs (3 .rs, 2 .md, 1 .toml, 1 .txt, 1 .json, +2 more)\n"
    );
}

#[test]
fn compact_long_format_readonly_and_symlink() {
    let entries = vec![
        LsEntry { name: "ro.txt".to_string(), is_dir: false, is_symlink: false, readonly: true, size: 3 },
        LsEntry { name: "link".to_string(), is_dir: false, is_symlink: true, readonly: false, size: 7 },
    ];
    let (listing, summary) = compact_dir(&entries, false, true, &no_ignore_rules(), Some(MAX_EXT_SUMMARY));
    assert_eq!(listing, "644  link  7B\n444  ro.txt  3B\n");
    assert_eq!(summary, "\nSummary: 2 files, 0 dirs (1 no ext, 1 .txt)\n");
}

#[test]
fn hidden_only_listing_is_empty_without_all() {
    let entries = vec![file(".env", 5), dir("dist")];
    let (listing, summary) = compact_dir(&entries, false, false, &no_ignore_rules(), Some(MAX_EXT_SUMMARY));
    assert_eq!(listing, "(empty)\n");
    assert_eq!(summary, "");
}

#[test]
fn type_and_permission_columns() {
    assert_eq!(get_file_type_char(true, false), 'd');
    assert_eq!(get_file_type_char(false, true), 'l');
    assert_eq!(get_file_type_char(false, false), '-');
    assert_eq!(get_perms_octal(true, true), Some("755".to_string()));
    assert_eq!(get_perms_octal(false, true), Some("444".to_string()));
    assert_eq!(get_perms_octal(false, false), Some("644".to_string()));
}

#[test]
fn visibility_rules() {
    assert!(!is_visible(".git", false));
    assert!(!is_visible("node_modules", false));
    assert!(!is_visible("build", false));
    assert!(is_visible("builds", false));
    assert!(is_visible("src", false));
    assert!(is_visible(".git", true));
}

#[test]
fn every_shown_entry_listed_once_and_counted() {
    let entries = vec![
        file("b.rs", 1),
        file("a.rs", 1),
        dir("docs"),
        file("c.md", 1),
        file(".secret", 1),
        file("d.rs", 1),
    ];
    let (listing, summary) = compact_dir(&entries, false, false, &no_ignore_rules(), Some(MAX_EXT_SUMMARY));
    for name in ["a.rs", "b.rs", "c.md", "d.rs"] {
        assert_eq!(listing.lines().filter(|l| l.starts_with(&format!("{}  ", name))).count(), 1);
    }
    assert!(!listing.contains(".secret"));
    assert_eq!(listing.lines().next(), Some("docs/"));
    assert_eq!(summary, "\nSummary: 4 files, 1 dirs (3 .rs, 1 .md)\n");
}

fn rules(dirs: &[&str], files: &[&str]) -> IgnoreRules {
    IgnoreRules {
        dirs: dirs.iter().map(|s| s.to_string()).collect(),
        files: files.iter().map(|s| s.to_string()).collect(),
    }
}

fn documented_rules() -> IgnoreRules {
    rules(
        &[".git", "node_modules", "target", "__pycache__", ".venv", "vendor"],
        &["*.lock", "*.min.js", "*.min.css"],
    )
}

#[test]
fn ignore_files_leave_out_matching_files() {
    let entries = vec![file("Cargo.lock", 10), file("b.rs", 1)];
    let (listing, summary) = compact_dir(&entries, false, false, &documented_rules(), Some(MAX_EXT_SUMMARY));
    assert_eq!(listing, "b.rs  1B\n");
    assert_eq!(summary, "\nSummary: 1 files, 0 dirs (1 .rs)\n");
}

#[test]
fn ignore_dirs_leave_out_matching_dirs() {
    let entries = vec![dir(".venv"), dir("vendor"), dir("src"), file("vendor.txt", 2)];
    let (listing, summary) = compact_dir(&entries, false, false, &documented_rules(), Some(MAX_EXT_SUMMARY));
    assert_eq!(listing, "src/\nvendor.txt  2B\n");
    assert_eq!(summary, "\nSummary: 1 files, 1 dirs (1 .txt)\n");
}

#[test]
fn ignore_patterns_apply_to_their_kind_only() {
    let entries = vec![dir("x.lock"), file("vendor", 3)];
    let (listing, _summary) = compact_dir(&entries, false, false, &documented_rules(), Some(MAX_EXT_SUMMARY));
    assert_eq!(listing, "x.lock/\nvendor  3B\n");
}

#[test]
fn show_all_lists_ignored_entries_too() {
    let entries = vec![dir("vendor"), file("app.min.js", 4), file("Cargo.lock", 5)];
    let (listing, _summary) = compact_dir(&entries, true, false, &documented_rules(), Some(MAX_EXT_SUMMARY));
    assert_eq!(listing, "vendor/\nCargo.lock  5B\napp.min.js  4B\n");
}

#[test]
fn everything_ignored_is_empty() {
    let entries = vec![file("yarn.lock", 1), file("site.min.css", 1)];
    let (listing, summary) = compact_dir(&entries, false, false, &documented_rules(), Some(MAX_EXT_SUMMARY));
    assert_eq!(listing, "(empty)\n");
    assert_eq!(summary, "");
}

#[test]
fn glob_patterns() {
    let g = |p: &str, s: &str| glob_matches(&p.chars().collect(), &s.chars().collect());
    assert!(g("*.lock", "Cargo.lock"));
    assert!(g("*.lock", ".lock"));
    assert!(!g("*.lock", "Cargo.locks"));
    assert!(g("*.min.js", "app.min.js"));
    assert!(!g("*.min.js", "app.js"));
    assert!(g("vendor", "vendor"));
    assert!(!g("vendor", "vendors"));
    assert!(g("*", ""));
    assert!(g("a*b*c", "aXXbYc"));
    assert!(!g("a*b*c", "aXXbY"));
    assert!(g("**", "abc"));
    assert!(g("", ""));
    assert!(!g("", "a"));
}

#[test]
fn extension_cap_follows_the_level() {
    let entries = vec![file("a.rs", 1), file("b.rs", 1), file("c.md", 1), file("d.txt", 1)];
    let (_l, none) = compact_dir(&entries, false, false, &no_ignore_rules(), None);
    assert_eq!(none, "\nSummary: 4 files, 0 dirs (2 .rs, 1 .md, 1 .txt)\n");
    let (_l, two) = compact_dir(&entries, false, false, &no_ignore_rules(), Some(2));
    assert_eq!(two, "\nSummary: 4 files, 0 dirs (2 .rs, 1 .md, +1 more)\n");
    let (_l, zero) = compact_dir(&entries, false, false, &no_ignore_rules(), Some(0));
    assert_eq!(zero, "\nSummary: 4 files, 0 dirs (, +3 more)\n");
    let (_l, ten) = compact_dir(&entries, false, false, &no_ignore_rules(), Some(10));
    assert_eq!(ten, none);
}

#[test]
fn higher_truncate_level_names_fewer_extensions() {
    let names = ["a.rs", "b.md", "c.txt", "d.json", "e.yml", "f.toml", "g.lock", "h.css", "i.js", "j.py", "k.go"];
    let entries: Vec<LsEntry> = names.iter().map(|n| file(n, 1)).collect();
    let mut previous = usize::MAX;
    for level in [TruncateLevel::Off, TruncateLevel::Light, TruncateLevel::Reasonable, TruncateLevel::High] {
        let (_l, summary) = compact_dir(&entries, false, false, &no_ignore_rules(), scaled_cap(level, MAX_EXT_SUMMARY));
        let named = summary.matches("1 .").count();
        assert!(named <= previous);
        previous = named;
    }
    assert_eq!(previous, 2);
}
