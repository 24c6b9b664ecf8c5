use lint_quality::config::ResolvedConfig;
use lint_quality::counts::CountMap;
use lint_quality::report::output::fmt_num;
use lint_quality::report::{
    build, build_summary, output_format, sorted_entries, totals_fit, OutputFormat, Timestamp,
};
use lint_quality::scan::{FileReport, ScanResult, Violation};

fn v(pattern: &str, category: &str, rules: &[&str]) -> Violation {
    Violation {
        line: 1,
        pattern: pattern.to_string(),
        category: category.to_string(),
        rules: rules.iter().map(|s| s.to_string()).collect(),
        raw_text: String::new(),
    }
}

fn file(path: &str, owner: Option<&str>, violations: Vec<Violation>) -> FileReport {
    FileReport {
        path: path.to_string(),
        owner: owner.map(str::to_string),
        violations,
    }
}

#[test]
fn empty_input() {
    let s = build_summary(&vec![]);
    assert_eq!(s.total_violations, 0);
    assert_eq!(s.total_files_with_violations, 0);
    assert!(s.by_pattern.is_empty());
    assert!(s.by_owner.is_empty());
}

#[test]
fn counts_by_pattern_and_category() {
    let files = vec![file(
        "src/a.ts",
        None,
        vec![
            v("ts-ignore", "typescript", &[]),
            v("ts-ignore", "typescript", &[]),
            v("eslint-disable", "eslint", &[]),
        ],
    )];
    let s = build_summary(&files);
    assert_eq!(s.total_violations, 3);
    assert_eq!(s.by_pattern.get("ts-ignore"), Some(2));
    assert_eq!(s.by_pattern.get("eslint-disable"), Some(1));
    assert_eq!(s.by_category.get("typescript"), Some(2));
    assert_eq!(s.by_category.get("eslint"), Some(1));
}

#[test]
fn counts_rules() {
    let files = vec![file(
        "src/a.ts",
        None,
        vec![
            v("eslint-disable", "eslint", &["no-console", "no-unused-vars"]),
            v("eslint-disable", "eslint", &["no-console"]),
        ],
    )];
    let s = build_summary(&files);
    assert_eq!(s.by_rule.get("no-console"), Some(2));
    assert_eq!(s.by_rule.get("no-unused-vars"), Some(1));
}

#[test]
fn owner_counted_once_per_file() {
    let files = vec![
        file("src/a.ts", Some("@team-a"), vec![v("ts-ignore", "ts", &[]); 3]),
        file("src/b.ts", Some("@team-a"), vec![v("ts-ignore", "ts", &[]); 2]),
    ];
    let s = build_summary(&files);
    assert_eq!(s.by_owner.get("@team-a"), Some(5));
}

#[test]
fn unowned_files_use_fallback_key() {
    let files = vec![file("src/a.ts", None, vec![v("ts-ignore", "ts", &[])])];
    let s = build_summary(&files);
    assert_eq!(s.by_owner.get("@unowned"), Some(1));
}

#[test]
fn hierarchical_directory_counting() {
    let files = vec![file(
        "src/foo/bar.ts",
        None,
        vec![v("ts-ignore", "ts", &[]); 3],
    )];
    let s = build_summary(&files);
    assert_eq!(s.by_directory.get("src/foo"), Some(3));
    assert_eq!(s.by_directory.get("src"), Some(3));
}

#[test]
fn directory_counts_accumulate_across_files() {
    let files = vec![
        file("src/a.ts", None, vec![v("ts-ignore", "ts", &[]); 2]),
        file("src/b.ts", None, vec![v("ts-ignore", "ts", &[]); 1]),
    ];
    let s = build_summary(&files);
    assert_eq!(s.by_directory.get("src"), Some(3));
}

#[test]
fn file_with_no_violations_skipped() {
    let files = vec![
        file("src/a.ts", Some("@team"), vec![]),
        file("src/b.ts", Some("@team"), vec![v("ts-ignore", "ts", &[])]),
    ];
    let s = build_summary(&files);
    assert_eq!(s.total_violations, 1);
    assert_eq!(s.by_owner.get("@team"), Some(1));
    assert!(!s.by_directory.contains_key("src/a.ts"));
}

#[test]
fn files_without_violations_are_not_counted_as_flagged() {
    let files = vec![
        file("src/a.ts", Some("@team"), vec![]),
        file("src/b.ts", Some("@team"), vec![v("ts-ignore", "ts", &[])]),
        file("src/c.ts", None, vec![]),
    ];
    let s = build_summary(&files);
    assert_eq!(s.total_files_with_violations, 1);
    assert_eq!(s.total_violations, 1);
}

#[test]
fn directory_count_covers_every_ancestor_but_not_the_file() {
    let files = vec![file("a/b/c/d.ts", None, vec![v("p", "c", &[]); 2])];
    let s = build_summary(&files);
    assert_eq!(s.by_directory.get("a"), Some(2));
    assert_eq!(s.by_directory.get("a/b"), Some(2));
    assert_eq!(s.by_directory.get("a/b/c"), Some(2));
    assert_eq!(s.by_directory.get("a/b/c/d.ts"), None);
    assert_eq!(s.by_directory.len(), 3);
}

#[test]
fn nested_directory_counts_never_exceed_parent() {
    let files = vec![
        file("src/x/a.ts", None, vec![v("p", "c", &[]); 4]),
        file("src/y/b.ts", None, vec![v("p", "c", &[]); 1]),
        file("lib/c.ts", None, vec![v("p", "c", &[]); 2]),
    ];
    let s = build_summary(&files);
    let src = s.by_directory.get("src").unwrap();
    assert_eq!(src, 5);
    assert!(src >= s.by_directory.get("src/x").unwrap());
    assert!(src >= s.by_directory.get("src/y").unwrap());
    assert_eq!(s.by_directory.get("lib"), Some(2));
}

#[test]
fn owner_counts_add_up_to_total() {
    let files = vec![
        file("a.ts", Some("@a"), vec![v("p", "c", &[]); 2]),
        file("b.ts", Some("@b"), vec![v("p", "c", &[]); 3]),
        file("c.ts", None, vec![v("p", "c", &[]); 4]),
    ];
    let s = build_summary(&files);
    let sum: usize = s.by_owner.entries().iter().map(|(_, n)| *n).sum();
    assert_eq!(sum, s.total_violations);
    assert_eq!(sum, 9);
}

#[test]
fn totals_fit_on_ordinary_input() {
    let files = vec![file("a.ts", None, vec![v("p", "c", &["r1", "r2"]); 2])];
    assert!(totals_fit(&files));
    assert!(totals_fit(&vec![]));
}

#[test]
fn build_assembles_metadata_and_summary() {
    let files = vec![file("src/a.ts", None, vec![v("p", "c", &["r"])])];
    let scan = ScanResult {
        files,
        files_scanned: 7,
    };
    let resolved = ResolvedConfig {
        format: "human".to_string(),
        extensions: vec!["ts".to_string()],
        codeowners: None,
        scan_paths: vec!["src".to_string(), "lib".to_string()],
        patterns: vec![],
    };
    let ts = Timestamp {
        secs: 1_700_000_000,
        nanos: 5,
    };
    let r = build(scan, &resolved, Some("cfg.toml".to_string()), ts, "1.2.3", 42);
    assert_eq!(r.metadata.timestamp, ts);
    assert_eq!(r.metadata.tool_version, "1.2.3");
    assert_eq!(r.metadata.scanned_paths, vec!["src", "lib"]);
    assert_eq!(r.metadata.config_path.as_deref(), Some("cfg.toml"));
    assert_eq!(r.metadata.files_scanned, 7);
    assert_eq!(r.metadata.scan_duration_ms, 42);
    assert_eq!(r.files.len(), 1);
    assert_eq!(r.summary.total_violations, 1);
    assert_eq!(r.summary.by_rule.get("r"), Some(1));
}

#[test]
fn build_keeps_duration_modulo_two_to_the_64() {
    let scan = ScanResult {
        files: vec![],
        files_scanned: 0,
    };
    let resolved = ResolvedConfig {
        format: "json".to_string(),
        extensions: vec![],
        codeowners: None,
        scan_paths: vec![],
        patterns: vec![],
    };
    let ts = Timestamp { secs: 0, nanos: 0 };
    let r = build(scan, &resolved, None, ts, "0", (1u128 << 64) + 3);
    assert_eq!(r.metadata.scan_duration_ms, 3);
}

#[test]
fn sorted_entries_largest_first_and_limited() {
    let mut m = CountMap::new();
    m.add("a", 1);
    m.add("b", 5);
    m.add("c", 3);
    m.add("d", 4);
    let all = sorted_entries(&m, usize::MAX);
    let counts: Vec<usize> = all.iter().map(|(_, n)| *n).collect();
    assert_eq!(counts, vec![5, 4, 3, 1]);
    assert_eq!(all[0].0, "b");
    let top = sorted_entries(&m, 2);
    assert_eq!(top.len(), 2);
    assert_eq!(top[0].0, "b");
    assert_eq!(top[1].0, "d");
    assert!(sorted_entries(&m, 0).is_empty());
}

#[test]
fn output_format_selection() {
    assert_eq!(output_format("json"), OutputFormat::Json);
    assert_eq!(output_format("tui"), OutputFormat::Tui);
    assert_eq!(output_format("human"), OutputFormat::Human);
    assert_eq!(output_format("xml"), OutputFormat::Human);
    assert_eq!(output_format(""), OutputFormat::Human);
}

#[test]
fn fmt_num_small() {
    assert_eq!(fmt_num(0), "0");
    assert_eq!(fmt_num(1), "1");
    assert_eq!(fmt_num(999), "999");
}

#[test]
fn fmt_num_thousands() {
    assert_eq!(fmt_num(1_000), "1,000");
    assert_eq!(fmt_num(1_234), "1,234");
    assert_eq!(fmt_num(12_345), "12,345");
    assert_eq!(fmt_num(123_456), "123,456");
    assert_eq!(fmt_num(1_234_567), "1,234,567");
}

#[test]
fn fmt_num_below_1000() {
    assert_eq!(fmt_num(0), "0");
    assert_eq!(fmt_num(1), "1");
    assert_eq!(fmt_num(999), "999");
}

#[test]
fn fmt_num_4_digits() {
    assert_eq!(fmt_num(1_000), "1,000");
    assert_eq!(fmt_num(1_234), "1,234");
}

#[test]
fn fmt_num_5_digits() {
    assert_eq!(fmt_num(12_345), "12,345");
}

#[test]
fn fmt_num_6_digits() {
    assert_eq!(fmt_num(123_456), "123,456");
}

#[test]
fn fmt_num_7_digits() {
    assert_eq!(fmt_num(1_234_567), "1,234,567");
}

#[test]
fn fmt_num_boundary() {
    // 999 and 1_000 sit either side of the comma-insertion threshold
    assert_eq!(fmt_num(999).len(), 3);
    assert_eq!(fmt_num(1_000).len(), 5);
}

#[test]
fn fmt_num_only_adds_separators() {
    for n in [0usize, 7, 10, 999, 1_000, 65_536, 1_000_000, usize::MAX] {
        let s = fmt_num(n);
        assert_eq!(s.replace(',', ""), n.to_string());
        let digits = n.to_string().len();
        assert_eq!(s.len(), digits + (digits - 1) / 3);
    }
    assert_eq!(fmt_num(usize::MAX), "18,446,744,073,709,551,615");
}

#[test]
fn pattern_and_category_breakdowns_add_up() {
    let files = vec![
        file("a.ts", None, vec![v("p1", "c1", &[]), v("p2", "c1", &[])]),
        file("b.ts", None, vec![v("p1", "c2", &[]); 3]),
    ];
    let s = build_summary(&files);
    let patterns: usize = s.by_pattern.entries().iter().map(|(_, n)| *n).sum();
    let categories: usize = s.by_category.entries().iter().map(|(_, n)| *n).sum();
    assert_eq!(patterns, s.total_violations);
    assert_eq!(categories, s.total_violations);
    assert_eq!(s.total_violations, 5);
}

#[test]
fn dot_components_do_not_make_directory_keys() {
    let files = vec![file("src/./a.ts", None, vec![v("p", "c", &[])])];
    let s = build_summary(&files);
    assert_eq!(s.by_directory.get("src"), Some(1));
    assert_eq!(s.by_directory.get("src/."), None);
    assert_eq!(s.total_files_with_violations, 1);
}
