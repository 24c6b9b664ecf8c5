use glob::Pattern;
use lint_quality::owners::{assign_owners, codeowners_pattern_to_globs, Owners};
use lint_quality::scan::FileReport;

/// Owners parsed from `contents`, with a dummy repo root.
fn parse_test(contents: &str) -> Owners {
    Owners::with_root(contents, "/dummy")
}

#[test]
fn owners_wildcard_matches_everything() {
    let owners = parse_test("* @default\n");
    assert_eq!(owners.match_path("foo.ts").unwrap(), &["@default"]);
    assert_eq!(owners.match_path("src/foo.ts").unwrap(), &["@default"]);
    assert_eq!(owners.match_path("a/b/c/d.ts").unwrap(), &["@default"]);
}

#[test]
fn owners_extension_pattern_matches_at_any_depth() {
    let owners = parse_test("*.vue @frontend\n");
    assert_eq!(owners.match_path("app.vue").unwrap(), &["@frontend"]);
    assert_eq!(owners.match_path("src/app.vue").unwrap(), &["@frontend"]);
    assert_eq!(owners.match_path("a/b/c.vue").unwrap(), &["@frontend"]);
    assert!(owners.match_path("app.ts").is_none());
}

#[test]
fn owners_anchored_directory() {
    let owners = parse_test("/src/ @core\n");
    assert_eq!(owners.match_path("src/foo.ts").unwrap(), &["@core"]);
    assert_eq!(owners.match_path("src/deep/bar.ts").unwrap(), &["@core"]);
    assert!(owners.match_path("lib/src/foo.ts").is_none());
}

#[test]
fn owners_unanchored_directory() {
    let owners = parse_test("docs/ @writers\n");
    assert_eq!(owners.match_path("docs/readme.md").unwrap(), &["@writers"]);
    assert_eq!(owners.match_path("src/docs/api.md").unwrap(), &["@writers"]);
}

#[test]
fn owners_anchored_exact_file() {
    let owners = parse_test("/Makefile @infra\n");
    assert_eq!(owners.match_path("Makefile").unwrap(), &["@infra"]);
    assert!(owners.match_path("src/Makefile").is_none());
}

#[test]
fn owners_unanchored_bare_name() {
    let owners = parse_test("Makefile @infra\n");
    assert_eq!(owners.match_path("Makefile").unwrap(), &["@infra"]);
    assert_eq!(owners.match_path("src/Makefile").unwrap(), &["@infra"]);
}

#[test]
fn owners_last_match_wins() {
    let owners = parse_test("* @default\n*.vue @frontend\n/tests/ @test-team\n");
    assert_eq!(owners.match_path("tests/foo.ts").unwrap(), &["@test-team"]);
    assert_eq!(owners.match_path("tests/app.vue").unwrap(), &["@test-team"]);
    assert_eq!(owners.match_path("src/app.vue").unwrap(), &["@frontend"]);
    assert_eq!(owners.match_path("README.md").unwrap(), &["@default"]);
}

#[test]
fn owners_path_with_slash_is_anchored() {
    let owners = parse_test("src/utils/*.ts @utils-team\n");
    assert_eq!(
        owners.match_path("src/utils/helper.ts").unwrap(),
        &["@utils-team"]
    );
    assert!(owners.match_path("lib/src/utils/helper.ts").is_none());
}

#[test]
fn owners_comments_and_blank_lines_skipped() {
    let owners = parse_test("# comment\n\n* @default\n# another\n*.rs @rust-team\n");
    assert_eq!(owners.match_path("main.rs").unwrap(), &["@rust-team"]);
    assert_eq!(owners.match_path("foo.ts").unwrap(), &["@default"]);
}

#[test]
fn owners_multiple_owners() {
    let owners = parse_test("* @team-a @team-b\n");
    assert_eq!(
        owners.match_path("foo.ts").unwrap(),
        &["@team-a", "@team-b"]
    );
}

#[test]
fn owners_bare_directory_without_trailing_slash() {
    // GitHub treats `apps/web/src/connectors` as matching both the path
    // itself and everything under it.
    let owners = parse_test("apps/web/src/connectors @team-auth\n");
    assert_eq!(
        owners.match_path("apps/web/src/connectors").unwrap(),
        &["@team-auth"]
    );
    assert_eq!(
        owners
            .match_path("apps/web/src/connectors/webauthn.ts")
            .unwrap(),
        &["@team-auth"]
    );
    assert_eq!(
        owners
            .match_path("apps/web/src/connectors/deep/nested.ts")
            .unwrap(),
        &["@team-auth"]
    );
    assert!(owners.match_path("apps/web/src/other.ts").is_none());
}

#[test]
fn owners_anchored_bare_directory_without_trailing_slash() {
    let owners = parse_test("/src @core\n");
    assert_eq!(owners.match_path("src/foo.ts").unwrap(), &["@core"]);
    assert_eq!(owners.match_path("src/deep/bar.ts").unwrap(), &["@core"]);
    assert!(owners.match_path("lib/src/foo.ts").is_none());
}

#[test]
fn owners_bare_name_matches_as_directory_too() {
    // `docs` without slash or glob: matches `docs` itself, `docs/foo.md`,
    // and `src/docs/foo.md` (unanchored).
    let owners = parse_test("docs @writers\n");
    assert_eq!(owners.match_path("docs").unwrap(), &["@writers"]);
    assert_eq!(owners.match_path("docs/foo.md").unwrap(), &["@writers"]);
    assert_eq!(owners.match_path("src/docs/foo.md").unwrap(), &["@writers"]);
}

#[test]
fn owners_real_world_codeowners() {
    let codeowners = "\
*.scss @ui-team
*.css @ui-team
apps/desktop/desktop_native @platform-dev
apps/web/src/connectors @auth-dev
apps/web/src/connectors/platform @platform-dev
apps/web/src/app/billing @billing-dev
";
    let owners = parse_test(codeowners);

    // .scss at any depth → @ui-team
    assert_eq!(
        owners.match_path("apps/web/src/styles/main.scss").unwrap(),
        &["@ui-team"]
    );

    // connectors → @auth-dev
    assert_eq!(
        owners
            .match_path("apps/web/src/connectors/webauthn.ts")
            .unwrap(),
        &["@auth-dev"]
    );

    // connectors/platform → @platform-dev (last match wins)
    assert_eq!(
        owners
            .match_path("apps/web/src/connectors/platform/proxy.html")
            .unwrap(),
        &["@platform-dev"]
    );

    // billing → @billing-dev
    assert_eq!(
        owners
            .match_path("apps/web/src/app/billing/settings.ts")
            .unwrap(),
        &["@billing-dev"]
    );

    // No match for random ts file
    assert!(owners.match_path("apps/web/src/main.ts").is_none());
}

#[test]
fn owners_glob_star_star_behavior() {
    // Verify that `tests/**` actually matches nested paths
    let p = Pattern::new("tests/**").unwrap();
    assert!(
        p.matches("tests/foo.ts"),
        "tests/** should match tests/foo.ts"
    );
    assert!(
        p.matches("tests/fixtures/foo.ts"),
        "tests/** should match tests/fixtures/foo.ts"
    );
}

#[test]
fn owners_make_relative_strips_repo_root() {
    let owners = Owners::with_root("", "/Users/oscar/Code/clients");
    // When a path has no canonical form (it does not exist on disk), it is matched
    // with a leading ./ stripped
    assert_eq!(owners.make_relative("./src/foo.ts", "./src/foo.ts"), "src/foo.ts");
    assert_eq!(owners.make_relative("src/foo.ts", "src/foo.ts"), "src/foo.ts");
}

#[test]
fn make_relative_uses_canonical_path_below_root() {
    let owners = Owners::with_root("", "/repo");
    assert_eq!(
        owners.make_relative("./src/a.ts", "/repo/src/a.ts"),
        "src/a.ts"
    );
    assert_eq!(owners.make_relative("x", "/repository/x"), "x");
    assert_eq!(owners.make_relative("x", "/repo"), "");
    let root = Owners::with_root("", "/");
    assert_eq!(root.make_relative("a", "/a/b"), "a/b");
}

#[test]
fn pattern_translation() {
    assert_eq!(codeowners_pattern_to_globs("*"), vec!["**"]);
    assert_eq!(codeowners_pattern_to_globs("*.js"), vec!["**/*.js"]);
    assert_eq!(codeowners_pattern_to_globs("/docs/"), vec!["docs/**"]);
    assert_eq!(codeowners_pattern_to_globs("docs/"), vec!["**/docs/**"]);
    assert_eq!(
        codeowners_pattern_to_globs("/src/foo.ts"),
        vec!["src/foo.ts", "src/foo.ts/**"]
    );
    assert_eq!(
        codeowners_pattern_to_globs("docs"),
        vec!["**/docs", "**/docs/**"]
    );
    assert_eq!(codeowners_pattern_to_globs("src/*.ts"), vec!["src/*.ts"]);
    assert_eq!(codeowners_pattern_to_globs("/x?"), vec!["x?"]);
}

#[test]
fn invalid_globs_and_short_lines_are_dropped() {
    let owners = parse_test("[abc @broken\nlonely\n  # indented comment\n*.ts @ts\n");
    assert_eq!(owners.match_path("a.ts").unwrap(), &["@ts"]);
    assert!(owners.match_path("[abc").is_none());
    assert!(owners.match_path("lonely").is_none());
}

#[test]
fn repo_root_from_codeowners_location() {
    let o = Owners::from_contents("* @x\n", "/r/.github/CODEOWNERS").unwrap();
    assert_eq!(o.make_relative("f", "/r/a/b.ts"), "a/b.ts");
    let o = Owners::from_contents("* @x\n", "/r/docs/CODEOWNERS").unwrap();
    assert_eq!(o.make_relative("f", "/r/a/b.ts"), "a/b.ts");
    let o = Owners::from_contents("* @x\n", "/r/CODEOWNERS").unwrap();
    assert_eq!(o.make_relative("f", "/r/a/b.ts"), "a/b.ts");
    assert!(Owners::from_contents("* @x\n", "/").is_none());
}

#[test]
fn assign_owners_first_owner_of_last_match() {
    let owners = Owners::with_root("* @all @second\n/vendor/ @vendor-team\n", "/repo");
    let mut files = vec![
        FileReport {
            path: "./src/a.ts".to_string(),
            owner: None,
            violations: vec![],
        },
        FileReport {
            path: "vendor/b.ts".to_string(),
            owner: None,
            violations: vec![],
        },
        FileReport {
            path: "elsewhere.ts".to_string(),
            owner: Some("@kept".to_string()),
            violations: vec![],
        },
    ];
    let resolved = vec![
        "/repo/src/a.ts".to_string(),
        "/repo/vendor/b.ts".to_string(),
    ];
    assign_owners(&mut files, &owners, &resolved);
    assert_eq!(files[0].owner.as_deref(), Some("@all"));
    assert_eq!(files[1].owner.as_deref(), Some("@vendor-team"));
    // No canonical path given: matched as "elsewhere.ts", which `*` matches.
    assert_eq!(files[2].owner.as_deref(), Some("@all"));

    let none = Owners::with_root("/only/ @o\n", "/repo");
    let mut kept = vec![FileReport {
        path: "x.ts".to_string(),
        owner: Some("@before".to_string()),
        violations: vec![],
    }];
    assign_owners(&mut kept, &none, &[]);
    assert_eq!(kept[0].owner.as_deref(), Some("@before"));
}
