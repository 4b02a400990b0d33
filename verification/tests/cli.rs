use rtk::cli::{
    listing_output, parse_ls_args, parse_tree_args, parse_truncate_level, positional_args, reduction_percent, scaled_cap,
    shown_text, TruncateLevel,
};
use rtk::ls::MAX_EXT_SUMMARY;

fn strings(a: &[&str]) -> Vec<String> {
    a.iter().map(|s| s.to_string()).collect()
}

#[test]
fn ls_flags() {
    let o = parse_ls_args(&strings(&["-la", "src"]));
    assert!(o.show_all && o.show_long);
    assert_eq!(o.target, "src");
    let o = parse_ls_args(&strings(&["--all"]));
    assert!(o.show_all && !o.show_long);
    assert_eq!(o.target, ".");
    let o = parse_ls_args(&strings(&["--almost", "--format=long", "x", "y"]));
    assert!(!o.show_all && o.show_long);
    assert_eq!(o.target, "x");
    let o = parse_ls_args(&strings(&["-h"]));
    assert!(!o.show_all && !o.show_long);
}

#[test]
fn tree_flags() {
    let o = parse_tree_args(&strings(&["-a", "docs"]));
    assert!(o.show_all);
    assert_eq!(o.target, "docs");
    let o = parse_tree_args(&strings(&["-la"]));
    assert!(!o.show_all);
    assert_eq!(o.target, ".");
}

#[test]
fn positionals_in_order() {
    assert_eq!(positional_args(&strings(&["-l", "a.rs", "-", "b.rs"])), strings(&["a.rs", "b.rs"]));
}

#[test]
fn output_selection_and_guard() {
    assert_eq!(listing_output("a/\n", "\nSummary\n", true), "a/\n\nSummary\n");
    assert_eq!(listing_output("a/\n", "\nSummary\n", false), "a/\n");
    let long: String = (0..100).map(|i| format!("line {}\n", i)).collect();
    let shown = shown_text(&long);
    assert!(shown.ends_with("... (20 lines truncated)"));
    assert_eq!(shown.lines().count(), 81);
    // many empty lines: the note would be longer than what it replaces
    let blank = "\n".repeat(90);
    assert_eq!(shown_text(&blank), blank);
}

#[test]
fn reduction_in_percent() {
    assert_eq!(reduction_percent(0, 0), 0);
    assert_eq!(reduction_percent(200, 50), 75);
    assert_eq!(reduction_percent(3, 3), 0);
}

#[test]
fn truncate_level_names() {
    assert_eq!(parse_truncate_level("none"), Some(TruncateLevel::Off));
    assert_eq!(parse_truncate_level("light"), Some(TruncateLevel::Light));
    assert_eq!(parse_truncate_level("reasonable"), Some(TruncateLevel::Reasonable));
    assert_eq!(parse_truncate_level("high"), Some(TruncateLevel::High));
    assert_eq!(parse_truncate_level("High"), None);
    assert_eq!(parse_truncate_level(""), None);
}

#[test]
fn truncate_level_scales_caps() {
    assert_eq!(scaled_cap(TruncateLevel::Off, MAX_EXT_SUMMARY), None);
    assert_eq!(scaled_cap(TruncateLevel::Light, MAX_EXT_SUMMARY), Some(10));
    assert_eq!(scaled_cap(TruncateLevel::Reasonable, MAX_EXT_SUMMARY), Some(5));
    assert_eq!(scaled_cap(TruncateLevel::High, MAX_EXT_SUMMARY), Some(2));
}
