use rtk::ls::NOISE_DIRS;
use rtk::tree::{build_tree, truncate_lines, TreeEntry};

fn entry(depth: usize, name: &str, is_dir: bool) -> TreeEntry {
    TreeEntry { depth, name: name.to_string(), is_dir }
}

/// The walk of a directory holding `Cargo.toml` and `src/` with `main.rs`
/// and `lib.rs`.
fn setup_test_walk() -> Vec<TreeEntry> {
    vec![
        entry(1, "src", true),
        entry(2, "main.rs", false),
        entry(2, "lib.rs", false),
        entry(1, "Cargo.toml", false),
    ]
}

#[test]
fn test_tree_contains_files() {
    let output = build_tree("tmp1234", &setup_test_walk(), false);
    assert!(output.contains("Cargo.toml"));
    assert!(output.contains("src/"));
    assert!(output.contains("main.rs"));
    assert!(output.contains("lib.rs"));
}

#[test]
fn test_tree_root_is_dir_name() {
    let dir_name = "tmpAbC123".to_string();
    let output = build_tree(&dir_name, &setup_test_walk(), false);
    assert!(output.starts_with(&dir_name));
}

#[test]
fn test_tree_uses_tree_chars() {
    let output = build_tree("tmp", &setup_test_walk(), false);
    assert!(output.contains("├──") || output.contains("└──"));
}

#[test]
fn tree_test_noise_dirs_constant() {
    assert!(NOISE_DIRS.contains(&"node_modules"));
    assert!(NOISE_DIRS.contains(&".git"));
    assert!(NOISE_DIRS.contains(&"target"));
    assert!(NOISE_DIRS.contains(&"__pycache__"));
    assert!(NOISE_DIRS.contains(&".next"));
    assert!(NOISE_DIRS.contains(&"dist"));
    assert!(NOISE_DIRS.contains(&"build"));
}

#[test]
fn test_tree_filters_noise() {
    let walk = vec![
        entry(1, "node_modules", true),
        entry(2, "left-pad", true),
        entry(3, "index.js", false),
        entry(1, "src", true),
        entry(1, "main.rs", false),
    ];
    let output = build_tree("tmp", &walk, false);
    assert!(!output.contains("node_modules"));
    assert!(output.contains("src/"));
    assert!(output.contains("main.rs"));
}

#[test]
fn test_tree_show_all_includes_hidden() {
    let walk = vec![entry(1, ".git", true), entry(1, ".hidden", false)];
    let output = build_tree("tmp", &walk, true);
    assert!(output.contains(".git/"));
    assert!(output.contains(".hidden"));
}

#[test]
fn tree_exact_drawing() {
    let output = build_tree("proj", &setup_test_walk(), false);
    assert_eq!(
        output,
        "proj\n├── src/\n│   ├── lib.rs\n│   └── main.rs\n└── Cargo.toml\n"
    );
}

#[test]
fn tree_nested_last_branch_uses_spaces() {
    let walk = vec![
        entry(1, "b.txt", false),
        entry(1, "a", true),
        entry(2, "x", true),
        entry(3, "y.rs", false),
        entry(2, "z.rs", false),
    ];
    let output = build_tree("r", &walk, false);
    assert_eq!(
        output,
        "r\n├── a/\n│   ├── x/\n│   │   └── y.rs\n│   └── z.rs\n└── b.txt\n"
    );
}

#[test]
fn tree_hidden_subtree_is_left_out() {
    let walk = vec![
        entry(1, ".cache", true),
        entry(2, "data", false),
        entry(1, "keep", true),
        entry(2, ".env", false),
        entry(2, "ok.txt", false),
    ];
    let output = build_tree("r", &walk, false);
    assert_eq!(output, "r\n└── keep/\n    └── ok.txt\n");
}

#[test]
fn tree_empty_walk_is_root_only() {
    assert_eq!(build_tree("only", &[], false), "only\n");
}

#[test]
fn truncate_lines_keeps_short_text() {
    assert_eq!(truncate_lines("a\nb\n", 2), "a\nb\n");
    assert_eq!(truncate_lines("", 0), "");
}

#[test]
fn truncate_lines_notes_the_rest() {
    assert_eq!(truncate_lines("a\nb\nc\nd", 2), "a\nb\n... (2 lines truncated)");
    assert_eq!(truncate_lines("a\r\nb\r\nc\r\n", 1), "a\n... (2 lines truncated)");
    assert_eq!(truncate_lines("x\ny", 0), "\n... (2 lines truncated)");
}

#[test]
fn tree_siblings_dirs_first_then_names() {
    let walk = vec![
        entry(1, "zz.txt", false),
        entry(1, "b", true),
        entry(1, "A.txt", false),
        entry(1, "a", true),
    ];
    assert_eq!(build_tree("r", &walk, false), "r\n├── a/\n├── b/\n├── A.txt\n└── zz.txt\n");
}
