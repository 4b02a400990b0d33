use rtk::wc::{count_content, detect_mode, find_common_prefix, format_counts_multi, format_counts_single, Counts, WcMode};

#[test]
fn test_detect_mode_full() {
    let args: Vec<String> = vec!["file.py".into()];
    assert_eq!(detect_mode(&args), WcMode::Full);
}

#[test]
fn test_detect_mode_lines() {
    let args: Vec<String> = vec!["-l".into(), "file.py".into()];
    assert_eq!(detect_mode(&args), WcMode::Lines);
}

#[test]
fn test_detect_mode_mixed() {
    let args: Vec<String> = vec!["-lw".into(), "file.py".into()];
    assert_eq!(detect_mode(&args), WcMode::Mixed);
}

#[test]
fn test_detect_mode_separate_flags() {
    let args: Vec<String> = vec!["-l".into(), "-w".into(), "file.py".into()];
    assert_eq!(detect_mode(&args), WcMode::Mixed);
}

#[test]
fn test_format_counts_single_full() {
    let counts = Counts { lines: 30, words: 96, bytes: 978, chars: 978 };
    assert_eq!(format_counts_single(&counts, &WcMode::Full), "30L 96W 978B");
}

#[test]
fn test_format_counts_single_lines() {
    let counts = Counts { lines: 30, words: 96, bytes: 978, chars: 978 };
    assert_eq!(format_counts_single(&counts, &WcMode::Lines), "30");
}

#[test]
fn test_format_counts_single_words() {
    let counts = Counts { lines: 30, words: 96, bytes: 978, chars: 978 };
    assert_eq!(format_counts_single(&counts, &WcMode::Words), "96");
}

#[test]
fn test_format_counts_multi_lines() {
    let counts = vec![
        ("src/main.rs".to_string(), Counts { lines: 30, words: 96, bytes: 978, chars: 978 }),
        ("src/lib.rs".to_string(), Counts { lines: 50, words: 120, bytes: 1500, chars: 1500 }),
    ];
    let total = Counts { lines: 80, words: 216, bytes: 2478, chars: 2478 };
    let result = format_counts_multi(&counts, &total, &WcMode::Lines);
    assert_eq!(result, "30 src/main.rs\n50 src/lib.rs\nΣ 80");
}

#[test]
fn test_format_counts_multi_full() {
    let counts = vec![
        ("main.rs".to_string(), Counts { lines: 30, words: 96, bytes: 978, chars: 978 }),
        ("lib.rs".to_string(), Counts { lines: 50, words: 120, bytes: 1500, chars: 1500 }),
    ];
    let total = Counts { lines: 80, words: 216, bytes: 2478, chars: 2478 };
    let result = format_counts_multi(&counts, &total, &WcMode::Full);
    assert_eq!(result, "30L 96W 978B main.rs\n50L 120W 1500B lib.rs\nΣ 80L 216W 2478B");
}

#[test]
fn test_common_prefix_unix() {
    let paths = vec!["src/main.rs", "src/lib.rs", "src/utils.rs"];
    assert_eq!(find_common_prefix(&paths), "src/");
}

#[test]
fn test_common_prefix_windows() {
    let paths = vec!["src\\main.rs", "src\\lib.rs"];
    assert_eq!(find_common_prefix(&paths), "src\\");
}

#[test]
fn test_no_common_prefix() {
    let paths = vec!["main.rs", "lib.rs"];
    assert_eq!(find_common_prefix(&paths), "");
}

#[test]
fn test_common_prefix_with_prefix_stripping() {
    let paths = vec!["src/main.rs", "src/lib.rs"];
    let prefix = find_common_prefix(&paths);
    let stripped: Vec<&str> = paths.iter().map(|p| p.strip_prefix(&prefix).unwrap_or(p)).collect();
    assert_eq!(stripped, vec!["main.rs", "lib.rs"]);
}

#[test]
fn test_count_content_simple() {
    let counts = count_content("hello world\nfoo bar baz\n");
    assert_eq!(counts.lines, 2);
    assert_eq!(counts.words, 5);
    assert_eq!(counts.bytes, 24);
}

#[test]
fn test_count_content_empty() {
    let counts = count_content("");
    assert_eq!(counts.lines, 0);
    assert_eq!(counts.words, 0);
    assert_eq!(counts.bytes, 0);
}

#[test]
fn test_count_content_single_line_with_newline() {
    let counts = count_content("hello\n");
    assert_eq!(counts.lines, 1);
    assert_eq!(counts.words, 1);
    assert_eq!(counts.bytes, 6);
}

use rtk::wc::{count_files, is_whitespace, FileCount};

#[test]
fn whitespace_matches_std_for_every_char() {
    for cp in 0u32..=0x10FFFF {
        if let Some(c) = char::from_u32(cp) {
            assert_eq!(is_whitespace(c), c.is_whitespace(), "U+{:04X}", cp);
        }
    }
}

#[test]
fn count_content_unicode() {
    let text = "héllo wörld\u{a0}x\u{3000}\n\ny";
    let counts = count_content(text);
    assert_eq!(counts.lines, 2);
    assert_eq!(counts.words, text.split_whitespace().count());
    assert_eq!(counts.words, 4);
    assert_eq!(counts.bytes, text.len());
    assert_eq!(counts.chars, text.chars().count());
}

#[test]
fn detect_mode_single_letters_and_others() {
    let m = |a: &[&str]| detect_mode(&a.iter().map(|s| s.to_string()).collect::<Vec<_>>());
    assert_eq!(m(&["-c", "f"]), WcMode::Bytes);
    assert_eq!(m(&["-m"]), WcMode::Chars);
    assert_eq!(m(&["-w"]), WcMode::Words);
    assert_eq!(m(&["--lines"]), WcMode::Lines);
    assert_eq!(m(&["-x", "-"]), WcMode::Full);
    assert_eq!(m(&["-ll"]), WcMode::Mixed);
    assert_eq!(m(&[]), WcMode::Full);
}

#[test]
fn format_counts_chars_bytes_mixed() {
    let counts = Counts { lines: 1, words: 2, bytes: 7, chars: 5 };
    assert_eq!(format_counts_single(&counts, &WcMode::Chars), "5");
    assert_eq!(format_counts_single(&counts, &WcMode::Bytes), "7");
    assert_eq!(format_counts_single(&counts, &WcMode::Mixed), "1 2 7");
    let rows = vec![("a".to_string(), counts)];
    assert_eq!(format_counts_multi(&rows, &counts, &WcMode::Mixed), "1 2 7 a\nΣ 1 2 7");
    assert_eq!(format_counts_multi(&[], &counts, &WcMode::Chars), "Σ 5");
}

#[test]
fn count_files_single() {
    let c = count_content("one two\n");
    let ok = vec![FileCount { name: "x.txt".to_string(), counts: Some(c) }];
    assert_eq!(count_files(&ok, &WcMode::Full), Some("1L 2W 8B".to_string()));
    let bad = vec![FileCount { name: "missing".to_string(), counts: None }];
    assert_eq!(count_files(&bad, &WcMode::Full), None);
}

#[test]
fn count_files_multi_strips_prefix_and_sums() {
    let files = vec![
        FileCount { name: "src/cmds/a.rs".to_string(), counts: Some(count_content("a\nb\n")) },
        FileCount { name: "src/cmds/gone.rs".to_string(), counts: None },
        FileCount { name: "src/core/b.rs".to_string(), counts: Some(count_content("x y z\n")) },
    ];
    assert_eq!(
        count_files(&files, &WcMode::Full),
        Some("2L 2W 4B cmds/a.rs\n1L 3W 6B core/b.rs\nΣ 3L 5W 10B".to_string())
    );
}

#[test]
fn common_prefix_backs_off_to_shared_directory() {
    assert_eq!(find_common_prefix(&["a/b/c.rs", "a/b/d.rs", "a/e.rs"]), "a/");
    assert_eq!(find_common_prefix(&["a/b/c.rs"]), "");
    assert_eq!(find_common_prefix(&[]), "");
    assert_eq!(find_common_prefix(&["x\\y/z", "x\\y/w"]), "x\\y/");
}

#[test]
fn counts_of_joined_texts_add_up() {
    let a = count_content("one two\nthr");
    let b = count_content("ee four\n");
    let ab = count_content("one two\nthree four\n");
    assert_eq!(ab.lines, a.lines + b.lines);
    assert_eq!(ab.chars, a.chars + b.chars);
    assert_eq!(ab.bytes, a.bytes + b.bytes);
    // "thr" + "ee" is one word across the seam
    assert_eq!(ab.words + 1, a.words + b.words);
    let c = count_content("x ");
    let d = count_content("y");
    assert_eq!(count_content("x y").words, c.words + d.words);
    let e = count_content("ü");
    let f = count_content("\u{1F600}");
    let ef = count_content("ü\u{1F600}");
    assert_eq!((e.bytes, f.bytes, ef.bytes), (2, 4, 6));
    assert_eq!(ef.chars, e.chars + f.chars);
}

#[test]
fn counts_bounded_by_chars_and_bytes() {
    for text in ["", "\n\n\n", "a b c", "ünïcödé wörds\n", "\u{1F600}\u{1F600}"] {
        let c = count_content(text);
        assert!(c.lines <= c.chars && c.words <= c.chars && c.chars <= c.bytes);
    }
}

#[test]
fn stripped_names_rebuild_the_paths() {
    let paths = ["lib/a/x.rs", "lib/a/y/z.rs", "lib/a/w.rs"];
    let prefix = find_common_prefix(&paths);
    assert_eq!(prefix, "lib/a/");
    for p in paths {
        assert_eq!(format!("{}{}", prefix, &p[prefix.len()..]), p);
    }
}
