use lint_quality::counts::CountMap;
use lint_quality::report::{Report, ReportMetadata, ReportSummary, Timestamp};
use lint_quality::trend::{
    asset_path, inject_reports, is_report_file, load_reports, relative_asset_paths, reply_for,
    sort_by_time, Reply,
};

fn report_at(secs: i64, nanos: u32, version: &str) -> Report {
    Report {
        metadata: ReportMetadata {
            timestamp: Timestamp { secs, nanos },
            tool_version: version.to_string(),
            scanned_paths: vec![".".to_string()],
            config_path: None,
            files_scanned: 1,
            scan_duration_ms: 1,
        },
        files: vec![],
        summary: ReportSummary {
            total_violations: 0,
            total_files_with_violations: 0,
            by_pattern: CountMap::new(),
            by_category: CountMap::new(),
            by_rule: CountMap::new(),
            by_directory: CountMap::new(),
            by_owner: CountMap::new(),
        },
    }
}

#[test]
fn load_no_reports_is_error() {
    let result = load_reports(&["reports".to_string()], vec![]);
    assert!(result.is_err());
    assert_eq!(
        result.err().unwrap(),
        "no JSON report files found in: reports"
    );
}

#[test]
fn reports_sorted_oldest_first_and_failures_listed() {
    let outcomes = vec![
        ("a.json".to_string(), Ok(report_at(200, 0, "a"))),
        ("bad.json".to_string(), Err("expected value".to_string())),
        ("b.json".to_string(), Ok(report_at(100, 5, "b"))),
        ("c.json".to_string(), Ok(report_at(100, 1, "c"))),
    ];
    let (reports, errors) = load_reports(&["d".to_string()], outcomes).unwrap();
    let order: Vec<&str> = reports
        .iter()
        .map(|r| r.metadata.tool_version.as_str())
        .collect();
    assert_eq!(order, vec!["c", "b", "a"]);
    assert_eq!(errors, vec!["bad.json: expected value"]);
}

#[test]
fn all_failures_is_error() {
    let outcomes = vec![
        ("x.json".to_string(), Err("e1".to_string())),
        ("y.json".to_string(), Err("e2".to_string())),
    ];
    let err = load_reports(&["d".to_string()], outcomes).err().unwrap();
    assert_eq!(
        err,
        "failed to load any valid reports:\nx.json: e1\ny.json: e2"
    );
}

#[test]
fn equal_times_keep_their_order() {
    let v = vec![report_at(5, 0, "first"), report_at(5, 0, "second"), report_at(1, 0, "early")];
    let sorted = sort_by_time(v);
    let order: Vec<&str> = sorted
        .iter()
        .map(|r| r.metadata.tool_version.as_str())
        .collect();
    assert_eq!(order, vec!["early", "first", "second"]);
}

#[test]
fn report_files_are_json() {
    assert!(is_report_file("dir/a.json"));
    assert!(!is_report_file("dir/not-json.txt"));
    assert!(!is_report_file("json"));
    assert!(!is_report_file("a.JSON"));
}

#[test]
fn page_carries_reports() {
    let html = "<html><head><title>t</title></head><body></body></html>";
    let page = inject_reports(html, "[1,2]");
    assert_eq!(
        page,
        "<html><head><title>t</title><script>window.__REPORTS__=[1,2]</script></head><body></body></html>"
    );
    assert_eq!(inject_reports("no head", "[]"), "no head");
}

#[test]
fn asset_paths_become_relative() {
    let html = r#"<script src="/assets/a.js"></script><link href="/assets/b.css"><img src="/other.png">"#;
    let out = relative_asset_paths(html);
    assert_eq!(
        out,
        r#"<script src="assets/a.js"></script><link href="assets/b.css"><img src="/other.png">"#
    );
    assert!(!out.contains("src=\"/assets/") && !out.contains("href=\"/assets/"));
}

#[test]
fn request_paths_name_assets() {
    assert_eq!(asset_path("/"), "index.html");
    assert_eq!(asset_path(""), "index.html");
    assert_eq!(asset_path("//assets/a.js"), "assets/a.js");
    assert_eq!(reply_for("/", true), Reply::Page);
    assert_eq!(reply_for("/index.html", true), Reply::Page);
    assert_eq!(reply_for("/dashboard", false), Reply::Page);
    assert_eq!(
        reply_for("/assets/a.js", true),
        Reply::Asset("assets/a.js".to_string())
    );
}
