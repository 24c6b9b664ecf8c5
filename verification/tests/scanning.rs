use lint_quality::config::PatternConfig;
use lint_quality::scan::{
    compile_patterns, has_allowed_extension, report_for_contents, scan_file_contents, scan_paths,
    violation_for, CompiledPattern,
};
use regex::Regex;

fn config(name: &str, category: &str, regex: &str, extract_rules: bool) -> PatternConfig {
    PatternConfig {
        name: name.to_string(),
        category: category.to_string(),
        regex: regex.to_string(),
        extract_rules,
    }
}

fn make_pattern(name: &str, category: &str, regex: &str, extract_rules: bool) -> CompiledPattern {
    CompiledPattern::compile(&config(name, category, regex, extract_rules)).unwrap()
}

fn pattern(regex: &str, extract_rules: bool) -> CompiledPattern {
    make_pattern("test", "test", regex, extract_rules)
}

/// The rules the pattern extracts from its match on `input`.
fn rules_for(regex: &str, extract_rules: bool, input: &str) -> Vec<String> {
    let p = pattern(regex, extract_rules);
    let re = Regex::new(regex).unwrap();
    let caps = re.captures(input).unwrap();
    p.extract_rules_from_match(caps.get(1).map(|m| m.as_str()))
}

// --- extract_rules_from_match ---

#[test]
fn extract_rules_disabled_returns_empty() {
    assert!(rules_for(r"@ts-ignore", false, "@ts-ignore").is_empty());
}

#[test]
fn no_capture_group_returns_wildcard() {
    assert_eq!(rules_for(r"@ts-ignore", true, "@ts-ignore"), vec!["*"]);
}

#[test]
fn empty_capture_group_returns_wildcard() {
    assert_eq!(
        rules_for(r"eslint-disable(.*)", true, "eslint-disable"),
        vec!["*"]
    );
}

#[test]
fn whitespace_only_capture_returns_wildcard() {
    assert_eq!(
        rules_for(r"eslint-disable(.*)", true, "eslint-disable   "),
        vec!["*"]
    );
}

#[test]
fn single_rule_extracted() {
    assert_eq!(
        rules_for(
            r"eslint-disable-next-line\s+(.*)",
            true,
            "eslint-disable-next-line no-console"
        ),
        vec!["no-console"]
    );
}

#[test]
fn multiple_rules_extracted() {
    assert_eq!(
        rules_for(
            r"eslint-disable-next-line\s+(.*)",
            true,
            "eslint-disable-next-line no-console, no-unused-vars"
        ),
        vec!["no-console", "no-unused-vars"]
    );
}

#[test]
fn rules_are_trimmed() {
    assert_eq!(
        rules_for(
            r"eslint-disable-next-line\s+(.*)",
            true,
            "eslint-disable-next-line  no-console ,  no-unused-vars  "
        ),
        vec!["no-console", "no-unused-vars"]
    );
}

#[test]
fn empty_segments_filtered() {
    assert_eq!(
        rules_for(
            r"eslint-disable-next-line\s+(.*)",
            true,
            "eslint-disable-next-line no-console,,no-unused-vars"
        ),
        vec!["no-console", "no-unused-vars"]
    );
}

#[test]
fn only_commas_give_wildcard() {
    let p = pattern(r"x(.*)", true);
    assert_eq!(p.extract_rules_from_match(Some(" , ,")), vec!["*"]);
    assert_eq!(p.extract_rules_from_match(Some(",")), vec!["*"]);
    assert_eq!(p.extract_rules_from_match(None), vec!["*"]);
}

// --- compile_patterns ---

#[test]
fn valid_pattern_compiles() {
    let configs = vec![config("ts-ignore", "typescript", r"@ts-ignore", false)];
    let compiled = compile_patterns(&configs).unwrap();
    assert_eq!(compiled.len(), 1);
    assert_eq!(compiled[0].name, "ts-ignore");
}

#[test]
fn invalid_regex_returns_error_with_pattern_name() {
    let configs = vec![config("broken", "test", r"[invalid", false)];
    let err = compile_patterns(&configs).unwrap_err();
    assert!(err.message().contains("broken"));
}

#[test]
fn empty_configs_returns_empty_vec() {
    assert!(compile_patterns(&[]).unwrap().is_empty());
}

#[test]
fn first_invalid_pattern_is_named() {
    let configs = vec![
        config("good", "c", r"ok", false),
        config("bad1", "c", r"(", false),
        config("bad2", "c", r"[", false),
    ];
    let err = compile_patterns(&configs).unwrap_err();
    assert_eq!(err.pattern, "bad1");
    assert_eq!(err.message(), "invalid regex for pattern 'bad1'");
    assert!(!err.detail.is_empty());
}

// --- scan_file_contents ---

#[test]
fn no_patterns_returns_empty() {
    let violations = scan_file_contents("// eslint-disable-next-line\nfoo()", &[]);
    assert!(violations.is_empty());
}

#[test]
fn no_matches_returns_empty() {
    let p = make_pattern("ts-ignore", "typescript", r"@ts-ignore", false);
    let violations = scan_file_contents("// normal comment\nfoo()", &[p]);
    assert!(violations.is_empty());
}

#[test]
fn matching_line_produces_violation() {
    let p = make_pattern("ts-ignore", "typescript", r"@ts-ignore", false);
    let violations = scan_file_contents("// @ts-ignore\nfoo()", &[p]);
    assert_eq!(violations.len(), 1);
    assert_eq!(violations[0].line, 1);
    assert_eq!(violations[0].pattern, "ts-ignore");
    assert_eq!(violations[0].category, "typescript");
}

#[test]
fn line_numbers_are_one_based() {
    let p = make_pattern("ts-ignore", "typescript", r"@ts-ignore", false);
    let violations = scan_file_contents("foo()\nbar()\n// @ts-ignore", &[p]);
    assert_eq!(violations[0].line, 3);
}

#[test]
fn raw_text_is_trimmed() {
    let p = make_pattern("ts-ignore", "typescript", r"@ts-ignore", false);
    let violations = scan_file_contents("    // @ts-ignore   ", &[p]);
    assert_eq!(violations[0].raw_text, "// @ts-ignore");
}

#[test]
fn extracts_rules_from_capture_group() {
    let p = make_pattern(
        "eslint-disable",
        "eslint",
        r"eslint-disable-next-line\s+(.*)",
        true,
    );
    let violations =
        scan_file_contents("// eslint-disable-next-line no-console, no-unused-vars", &[p]);
    assert_eq!(violations[0].rules, vec!["no-console", "no-unused-vars"]);
}

#[test]
fn no_rules_captured_returns_wildcard() {
    let p = make_pattern("ts-ignore", "typescript", r"@ts-ignore", true);
    let violations = scan_file_contents("// @ts-ignore", &[p]);
    assert_eq!(violations[0].rules, vec!["*"]);
}

#[test]
fn multiple_patterns_can_match_same_line() {
    let p1 = make_pattern("ts-ignore", "typescript", r"@ts-ignore", false);
    let p2 = make_pattern("ts-prefix", "typescript", r"@ts-", false);
    let violations = scan_file_contents("// @ts-ignore", &[p1, p2]);
    assert_eq!(violations.len(), 2);
}

#[test]
fn crlf_lines_and_trailing_newline() {
    let p = make_pattern("x", "c", r"x$", false);
    let violations = scan_file_contents("ax\r\nbx\r\n\ncx\n", &[p]);
    let lines: Vec<usize> = violations.iter().map(|v| v.line).collect();
    assert_eq!(lines, vec![1, 2, 4]);
    assert_eq!(violations[0].raw_text, "ax");
}

#[test]
fn violations_follow_line_then_pattern_order() {
    let p1 = make_pattern("a", "c", r"a", false);
    let p2 = make_pattern("b", "c", r"b", false);
    let violations = scan_file_contents("ab\nb\na", &[p1, p2]);
    let seen: Vec<(usize, &str)> = violations
        .iter()
        .map(|v| (v.line, v.pattern.as_str()))
        .collect();
    assert_eq!(seen, vec![(1, "a"), (1, "b"), (2, "b"), (3, "a")]);
}

// --- has_allowed_extension ---

#[test]
fn matches_allowed_extension() {
    let exts = vec!["ts".to_string(), "js".to_string()];
    assert!(has_allowed_extension("foo/bar.ts", &exts));
}

#[test]
fn rejects_disallowed_extension() {
    let exts = vec!["ts".to_string()];
    assert!(!has_allowed_extension("foo/bar.rs", &exts));
}

#[test]
fn rejects_path_with_no_extension() {
    let exts = vec!["ts".to_string()];
    assert!(!has_allowed_extension("Makefile", &exts));
}

#[test]
fn extension_is_case_sensitive_and_hidden_files_have_none() {
    let exts = vec!["ts".to_string()];
    assert!(!has_allowed_extension("foo/bar.TS", &exts));
    assert!(!has_allowed_extension(".ts", &exts));
    assert!(has_allowed_extension("a.b.ts", &exts));
}

// --- reports ---

#[test]
fn report_only_for_files_with_violations() {
    let p = make_pattern("ts-ignore", "typescript", r"@ts-ignore", false);
    let pats = vec![p];
    assert!(report_for_contents("a.ts", "clean()", &pats).is_none());
    let r = report_for_contents("b.ts", "x\n// @ts-ignore", &pats).unwrap();
    assert_eq!(r.path, "b.ts");
    assert!(r.owner.is_none());
    assert_eq!(r.violations.len(), 1);
    assert_eq!(r.violations[0].line, 2);
}

#[test]
fn scan_counts_allowed_files_and_reports_hits() {
    let pats = vec![make_pattern("ts-ignore", "typescript", r"@ts-ignore", false)];
    let exts = vec!["ts".to_string()];
    let entries = vec![
        ("a.ts".to_string(), Some("// @ts-ignore".to_string())),
        ("b.ts".to_string(), Some("clean".to_string())),
        ("c.rs".to_string(), None),
        ("d.ts".to_string(), None),
        ("e.ts".to_string(), Some("x\n@ts-ignore\n@ts-ignore".to_string())),
    ];
    let r = scan_paths(&entries, &exts, &pats);
    assert_eq!(r.files_scanned, 4);
    let paths: Vec<&str> = r.files.iter().map(|f| f.path.as_str()).collect();
    assert_eq!(paths, vec!["a.ts", "e.ts"]);
    assert_eq!(r.files[1].violations.len(), 2);
}

#[test]
fn violation_from_a_match() {
    let p = make_pattern("eslint", "lint", r"eslint-disable\s*(.*)", true);
    assert!(violation_for(&p, 3, "x", None).is_none());
    let v = violation_for(&p, 3, "// eslint-disable a, b", Some(Some(" a, b"))).unwrap();
    assert_eq!(v.line, 3);
    assert_eq!(v.pattern, "eslint");
    assert_eq!(v.category, "lint");
    assert_eq!(v.rules, vec!["a", "b"]);
    assert_eq!(v.raw_text, "// eslint-disable a, b");
    let w = violation_for(&p, 1, "t", Some(None)).unwrap();
    assert_eq!(w.rules, vec!["*"]);
}

#[test]
fn starter_config_patterns() {
    let configs = vec![
        config(
            "eslint-disable-next-line",
            "eslint",
            r"//\s*eslint-disable-next-line(?:\s+(.+))?$",
            true,
        ),
        config(
            "eslint-disable-block",
            "eslint",
            r"/\*\s*eslint-disable\s+([^*]*?)\s*\*/",
            true,
        ),
        config("ts-ignore", "typescript", r"//\s*@ts-ignore", false),
    ];
    let pats = compile_patterns(&configs).unwrap();
    let text = "\
const a = 1; // eslint-disable-next-line no-console, @typescript-eslint/no-explicit-any
// eslint-disable-next-line
/* eslint-disable no-alert */
// @ts-ignore
let clean = 2;
";
    let vs = scan_file_contents(text, &pats);
    assert_eq!(vs.len(), 4);
    assert_eq!(vs[0].line, 1);
    assert_eq!(
        vs[0].rules,
        vec!["no-console", "@typescript-eslint/no-explicit-any"]
    );
    assert_eq!(vs[1].line, 2);
    assert_eq!(vs[1].rules, vec!["*"]);
    assert_eq!(vs[2].pattern, "eslint-disable-block");
    assert_eq!(vs[2].rules, vec!["no-alert"]);
    assert_eq!(vs[3].pattern, "ts-ignore");
    assert!(vs[3].rules.is_empty());
    assert_eq!(vs[3].line, 4);
}
