use lint_quality::config::{
    config_candidates, default_extensions, discover_config, discovery_start, load_config,
    resolve_config, ConfigFile, ConfigSource, PatternConfig,
};
use lint_quality::counts::StringSet;

fn file_with_everything() -> ConfigFile {
    ConfigFile {
        format: Some("json".to_string()),
        extensions: Some(vec!["vue".to_string()]),
        codeowners: Some("CODEOWNERS".to_string()),
        scan_paths: Some(vec!["app".to_string()]),
        patterns: Some(vec![PatternConfig {
            name: "p".to_string(),
            regex: "x".to_string(),
            category: "c".to_string(),
            extract_rules: false,
        }]),
    }
}

#[test]
fn defaults_when_nothing_given() {
    let r = resolve_config(None, None, None, None, vec![]);
    assert_eq!(r.format, "human");
    assert_eq!(
        r.extensions,
        vec!["js", "jsx", "ts", "tsx", "html", "mjs", "cjs"]
    );
    assert_eq!(r.extensions, default_extensions());
    assert!(r.codeowners.is_none());
    assert_eq!(r.scan_paths, vec!["."]);
    assert!(r.patterns.is_empty());
}

#[test]
fn file_overrides_defaults() {
    let r = resolve_config(Some(file_with_everything()), None, None, None, vec![]);
    assert_eq!(r.format, "json");
    assert_eq!(r.extensions, vec!["vue"]);
    assert_eq!(r.codeowners.as_deref(), Some("CODEOWNERS"));
    assert_eq!(r.scan_paths, vec!["app"]);
    assert_eq!(r.patterns.len(), 1);
    assert_eq!(r.patterns[0].name, "p");
}

#[test]
fn command_line_overrides_file() {
    let exts = vec!["ts".to_string()];
    let r = resolve_config(
        Some(file_with_everything()),
        Some("tui"),
        Some(&exts),
        Some("OWNERS"),
        vec!["src".to_string()],
    );
    assert_eq!(r.format, "tui");
    assert_eq!(r.extensions, vec!["ts"]);
    assert_eq!(r.codeowners.as_deref(), Some("OWNERS"));
    assert_eq!(r.scan_paths, vec!["src"]);
    // Patterns come from the file only.
    assert_eq!(r.patterns.len(), 1);
}

#[test]
fn empty_file_keeps_defaults() {
    let r = resolve_config(Some(ConfigFile::default()), None, None, None, vec![]);
    assert_eq!(r.format, "human");
    assert_eq!(r.scan_paths, vec!["."]);
    assert_eq!(r.extensions.len(), 7);
}

#[test]
fn candidates_walk_up_from_directory() {
    let c = config_candidates("a/b", false).unwrap();
    assert_eq!(
        c,
        vec![
            "a/b/lint-quality.toml",
            "a/lint-quality.toml",
            "lint-quality.toml"
        ]
    );
    let c = config_candidates("/x/y", false).unwrap();
    assert_eq!(
        c,
        vec![
            "/x/y/lint-quality.toml",
            "/x/lint-quality.toml",
            "/lint-quality.toml"
        ]
    );
    let c = config_candidates(".", false).unwrap();
    assert_eq!(c, vec!["./lint-quality.toml", "lint-quality.toml"]);
}

#[test]
fn candidates_start_from_parent_of_a_file() {
    let c = config_candidates("src/main.ts", true).unwrap();
    assert_eq!(c, vec!["src/lint-quality.toml", "lint-quality.toml"]);
    assert!(config_candidates("/", true).is_none());
}

#[test]
fn discovery_picks_nearest_existing() {
    let mut found = StringSet::new();
    found.insert("lint-quality.toml");
    found.insert("a/lint-quality.toml");
    assert_eq!(
        discover_config("a/b", false, &found).as_deref(),
        Some("a/lint-quality.toml")
    );
    assert!(discover_config("a/b", false, &StringSet::new()).is_none());
}

#[test]
fn load_config_prefers_given_path() {
    let mut found = StringSet::new();
    found.insert("lint-quality.toml");
    let paths = vec!["a".to_string()];
    match load_config(Some("custom.toml"), &paths, false, &found) {
        ConfigSource::Given(p) => assert_eq!(p, "custom.toml"),
        other => panic!("unexpected {:?}", other),
    }
    match load_config(None, &paths, false, &found) {
        ConfigSource::Found(p) => assert_eq!(p, "lint-quality.toml"),
        other => panic!("unexpected {:?}", other),
    }
    match load_config(None, &paths, false, &StringSet::new()) {
        ConfigSource::Absent => {}
        other => panic!("unexpected {:?}", other),
    }
    assert_eq!(discovery_start(&[]), ".");
    assert_eq!(discovery_start(&paths), "a");
}

#[test]
fn given_config_must_load_discovered_may_fail() {
    let given = ConfigSource::Given("c.toml".to_string());
    assert!(given.accept(Err("bad".to_string())).is_err());
    assert!(given.accept(Ok(ConfigFile::default())).unwrap().is_some());
    let found = ConfigSource::Found("c.toml".to_string());
    assert!(found.accept(Err("bad".to_string())).unwrap().is_none());
    assert!(found.accept(Ok(ConfigFile::default())).unwrap().is_some());
    assert!(ConfigSource::Absent
        .accept(Ok(ConfigFile::default()))
        .unwrap()
        .is_none());
    assert_eq!(given.path().as_deref(), Some("c.toml"));
    assert!(ConfigSource::Absent.path().is_none());
}
