use lint_quality::report::{build_summary, Report, ReportMetadata, Timestamp};
use lint_quality::scan::{FileReport, Violation};
use lint_quality::tui::tree::DirTreeRow;
use lint_quality::tui::view::{data_title, filter_title, header_counts, tree_label};
use lint_quality::tui::app::{
    data_view_at, dimension_at, App, DataView, FilterDimension, Focus, KeyInput, DATA_VIEW_COUNT,
    DIMENSION_COUNT, DIRECTORY_VIEW,
};

fn make_violation(pattern: &str, category: &str, rules: &[&str]) -> Violation {
    Violation {
        line: 1,
        pattern: pattern.to_string(),
        category: category.to_string(),
        rules: rules.iter().map(|r| r.to_string()).collect(),
        raw_text: String::new(),
    }
}

fn make_report(files: Vec<FileReport>) -> Report {
    let summary = build_summary(&files);
    Report {
        metadata: ReportMetadata {
            timestamp: Timestamp {
                secs: 1_767_225_600,
                nanos: 0,
            },
            tool_version: "test".to_string(),
            scanned_paths: vec![".".to_string()],
            config_path: None,
            files_scanned: 10,
            scan_duration_ms: 42,
        },
        files,
        summary,
    }
}

fn test_report() -> Report {
    make_report(vec![
        FileReport {
            path: "src/foo.ts".to_string(),
            owner: Some("@team-a".to_string()),
            violations: vec![
                make_violation("eslint-disable-next-line", "eslint", &["no-any"]),
                make_violation("ts-ignore", "typescript", &["*"]),
            ],
        },
        FileReport {
            path: "src/bar.ts".to_string(),
            owner: Some("@team-b".to_string()),
            violations: vec![make_violation(
                "eslint-disable-next-line",
                "eslint",
                &["no-unused-vars"],
            )],
        },
        FileReport {
            path: "lib/utils.js".to_string(),
            owner: Some("@team-a".to_string()),
            violations: vec![
                make_violation("eslint-disable", "eslint", &["*"]),
                make_violation("eslint-disable", "eslint", &["no-any"]),
            ],
        },
    ])
}

#[test]
fn initial_state_no_filters() {
    let report = test_report();
    let app = App::new(&report);

    assert_eq!(app.filtered_violation_count, 5);
    assert_eq!(app.filtered_files.len(), 3);
    assert!(!app.has_any_active_filter());
}

#[test]
fn filter_by_pattern() {
    let report = test_report();
    let mut app = App::new(&report);

    // Find "eslint-disable-next-line" in the pattern dimension (index 0)
    let idx = app.dimension_values[0]
        .iter()
        .position(|(name, _)| name == "eslint-disable-next-line")
        .unwrap();
    app.active_filters[0].insert(idx);
    app.rebuild_filtered_data();

    assert_eq!(app.filtered_violation_count, 2);
    assert_eq!(app.filtered_files.len(), 2);
    assert!(app.has_any_active_filter());
}

#[test]
fn filter_by_owner() {
    let report = test_report();
    let mut app = App::new(&report);

    // Owner dimension is index 3
    let idx = app.dimension_values[3]
        .iter()
        .position(|(name, _)| name == "@team-b")
        .unwrap();
    app.active_filters[3].insert(idx);
    app.rebuild_filtered_data();

    assert_eq!(app.filtered_violation_count, 1);
    assert_eq!(app.filtered_files.len(), 1);
    assert_eq!(app.filtered_files[0].0, "src/bar.ts");
}

#[test]
fn filter_by_category() {
    let report = test_report();
    let mut app = App::new(&report);

    // Category dimension is index 1
    let idx = app.dimension_values[1]
        .iter()
        .position(|(name, _)| name == "typescript")
        .unwrap();
    app.active_filters[1].insert(idx);
    app.rebuild_filtered_data();

    assert_eq!(app.filtered_violation_count, 1);
    assert_eq!(app.filtered_files.len(), 1);
}

#[test]
fn filter_by_rule() {
    let report = test_report();
    let mut app = App::new(&report);

    // Rule dimension is index 2
    let idx = app.dimension_values[2]
        .iter()
        .position(|(name, _)| name == "no-any")
        .unwrap();
    app.active_filters[2].insert(idx);
    app.rebuild_filtered_data();

    // "no-any" appears in foo.ts and utils.js
    assert_eq!(app.filtered_violation_count, 2);
}

#[test]
fn cross_dimension_filters_are_anded() {
    let report = test_report();
    let mut app = App::new(&report);

    // Filter: owner=@team-a AND category=typescript
    let owner_idx = app.dimension_values[3]
        .iter()
        .position(|(name, _)| name == "@team-a")
        .unwrap();
    let cat_idx = app.dimension_values[1]
        .iter()
        .position(|(name, _)| name == "typescript")
        .unwrap();
    app.active_filters[3].insert(owner_idx);
    app.active_filters[1].insert(cat_idx);
    app.rebuild_filtered_data();

    // Only the ts-ignore in foo.ts (owned by @team-a)
    assert_eq!(app.filtered_violation_count, 1);
    assert_eq!(app.filtered_files[0].0, "src/foo.ts");
}

#[test]
fn clear_filters_restores_all() {
    let report = test_report();
    let mut app = App::new(&report);

    let idx = app.dimension_values[3]
        .iter()
        .position(|(name, _)| name == "@team-b")
        .unwrap();
    app.active_filters[3].insert(idx);
    app.rebuild_filtered_data();
    assert_eq!(app.filtered_violation_count, 1);

    app.clear_filters();
    assert_eq!(app.filtered_violation_count, 5);
    assert!(!app.has_any_active_filter());
}

#[test]
fn filtered_aggregations_are_correct() {
    let report = test_report();
    let mut app = App::new(&report);

    // Filter to @team-a only
    let idx = app.dimension_values[3]
        .iter()
        .position(|(name, _)| name == "@team-a")
        .unwrap();
    app.active_filters[3].insert(idx);
    app.rebuild_filtered_data();

    assert_eq!(app.filtered_violation_count, 4);
    // Check that filtered_owners only has @team-a
    assert_eq!(app.filtered_owners.len(), 1);
    assert_eq!(app.filtered_owners[0].0, "@team-a");
    // Check patterns breakdown
    let pattern_names: Vec<&str> = app
        .filtered_patterns
        .iter()
        .map(|(n, _)| n.as_str())
        .collect();
    assert!(pattern_names.contains(&"eslint-disable-next-line"));
    assert!(pattern_names.contains(&"eslint-disable"));
    assert!(pattern_names.contains(&"ts-ignore"));
}

#[test]
fn dimension_cycling() {
    let report = test_report();
    let mut app = App::new(&report);

    assert_eq!(app.dimension, 0);
    app.next_dimension();
    assert_eq!(app.dimension, 1);
    app.next_dimension();
    assert_eq!(app.dimension, 2);
    app.next_dimension();
    assert_eq!(app.dimension, 3);
    app.next_dimension();
    assert_eq!(app.dimension, 0); // wraps

    app.prev_dimension();
    assert_eq!(app.dimension, 3); // wraps back
}

#[test]
fn data_view_cycling() {
    let report = test_report();
    let mut app = App::new(&report);

    assert_eq!(app.data_view, 0);
    for _ in 0..DATA_VIEW_COUNT {
        app.next_data_view();
    }
    assert_eq!(app.data_view, 0); // full cycle

    app.prev_data_view();
    assert_eq!(app.data_view, DATA_VIEW_COUNT - 1);
}

#[test]
fn files_sorted_by_count_descending() {
    let report = test_report();
    let app = App::new(&report);

    let counts: Vec<usize> = app.filtered_files.iter().map(|(_, _, c)| *c).collect();
    for w in counts.windows(2) {
        assert!(w[0] >= w[1], "files not sorted descending: {:?}", counts);
    }
}

#[test]
fn unfiltered_counts_match_summary() {
    let report = test_report();
    let app = App::new(&report);
    assert_eq!(app.filtered_violation_count, report.summary.total_violations);
    for (name, count) in &app.filtered_patterns {
        assert_eq!(report.summary.by_pattern.get(name), Some(*count));
    }
    for (name, count) in &app.filtered_rules {
        assert_eq!(report.summary.by_rule.get(name), Some(*count));
    }
    assert_eq!(app.filtered_dir_counts.get("src"), Some(3));
    assert_eq!(app.filtered_dir_counts.get("lib"), Some(2));
}

#[test]
fn toggle_filter_twice_restores_counts() {
    let report = test_report();
    let mut app = App::new(&report);
    app.next_dimension();
    app.next_dimension();
    app.next_dimension();
    assert_eq!(app.dimension, 3);
    let before = app.filtered_violation_count;
    app.toggle_filter();
    assert!(app.has_any_active_filter());
    assert!(app.filtered_violation_count < before);
    app.toggle_filter();
    assert!(!app.has_any_active_filter());
    assert_eq!(app.filtered_violation_count, before);
}

#[test]
fn filters_never_increase_counts() {
    let report = test_report();
    let mut app = App::new(&report);
    let total = app.filtered_violation_count;
    for d in 0..DIMENSION_COUNT {
        for i in 0..app.dimension_values[d].len() {
            app.clear_filters();
            app.active_filters[d].insert(i);
            app.rebuild_filtered_data();
            assert!(app.filtered_violation_count <= total);
            assert!(app.filtered_violation_count > 0);
        }
    }
}

#[test]
fn keys_drive_the_explorer() {
    let report = test_report();
    let mut app = App::new(&report);
    assert!(!app.handle_key(KeyInput::Right));
    assert_eq!(app.dimension, 1);
    assert!(!app.handle_key(KeyInput::Left));
    assert_eq!(app.dimension, 0);
    assert!(!app.handle_key(KeyInput::Tab));
    assert_eq!(app.focus, Focus::Data);
    assert!(!app.handle_key(KeyInput::Left));
    assert_eq!(app.data_view, DATA_VIEW_COUNT - 1);
    assert_eq!(app.data_view, DIRECTORY_VIEW);
    assert!(!app.handle_key(KeyInput::Down));
    assert!(!app.handle_key(KeyInput::Up));
    assert!(!app.handle_key(KeyInput::Other));
    assert!(!app.handle_key(KeyInput::Tab));
    assert_eq!(app.focus, Focus::Filters);
    assert!(!app.handle_key(KeyInput::Toggle));
    assert!(app.has_any_active_filter());
    assert!(!app.handle_key(KeyInput::Clear));
    assert!(!app.has_any_active_filter());
    assert!(app.handle_key(KeyInput::Quit));
}

#[test]
fn scrolling_wraps_around() {
    let report = test_report();
    let mut app = App::new(&report);
    let n = app.current_dim_len();
    assert_eq!(app.filter_list_state.selected(), Some(0));
    app.scroll_up_filter();
    assert_eq!(app.filter_list_state.selected(), Some(n - 1));
    app.scroll_down_filter();
    assert_eq!(app.filter_list_state.selected(), Some(0));
    let rows = app.current_data_len();
    assert_eq!(rows, 3);
    app.scroll_up_data();
    assert_eq!(app.data_states[0].selected(), Some(rows - 1));
    app.scroll_down_data();
    assert_eq!(app.data_states[0].selected(), Some(0));
}

#[test]
fn directory_rows_expand_and_collapse() {
    let report = test_report();
    let mut app = App::new(&report);
    // Top-level directories start expanded, in name order: lib and its file, then
    // src and its two files.
    assert_eq!(app.dir_tree_rows.len(), 5);
    assert_eq!(app.dir_tree_rows[0].name, "lib");
    assert!(app.dir_tree_rows[0].expanded);
    assert_eq!(app.dir_tree_rows[2].name, "src");
    for _ in 0..DIRECTORY_VIEW {
        app.next_data_view();
    }
    app.focus = Focus::Data;
    assert_eq!(app.data_states[DIRECTORY_VIEW].selected(), Some(0));
    app.toggle_dir_expand();
    assert_eq!(app.dir_tree_rows.len(), 4);
    assert!(!app.dir_tree_rows[0].expanded);
    app.toggle_dir_expand();
    assert_eq!(app.dir_tree_rows.len(), 5);
    // A file row has no children: toggling it changes nothing.
    app.scroll_down_data();
    assert_eq!(app.data_states[DIRECTORY_VIEW].selected(), Some(1));
    assert!(app.dir_tree_rows[1].is_file);
    app.toggle_dir_expand();
    assert_eq!(app.dir_tree_rows.len(), 5);
}

#[test]
fn labels_and_positions() {
    assert_eq!(dimension_at(0), FilterDimension::Pattern);
    assert_eq!(dimension_at(3).label(), "Owner");
    assert_eq!(data_view_at(5), DataView::Directories);
    assert_eq!(DataView::Directories.label(), "Dirs");
    assert_eq!(FilterDimension::Category.label(), "Category");
}

#[test]
fn header_line_counts() {
    let report = test_report();
    let mut app = App::new(&report);
    assert_eq!(header_counts(&app), "5 violations in 3 files");
    let idx = app.dimension_values[3]
        .iter()
        .position(|(name, _)| name == "@team-b")
        .unwrap();
    app.active_filters[3].insert(idx);
    app.rebuild_filtered_data();
    assert_eq!(header_counts(&app), "1 / 5 violations in 1 / 3 files (filtered)");
}

#[test]
fn panel_titles() {
    assert_eq!(
        filter_title(0, 0),
        " Filters — [Pattern] Category Rule Owner "
    );
    assert_eq!(
        filter_title(2, 3),
        " Filters (2 active) — Pattern Category Rule [Owner] "
    );
    assert_eq!(
        data_title(5, 1234),
        " Files Rules Patterns Categories Owners [Dirs] (1234) "
    );
}

#[test]
fn tree_row_labels() {
    let row = |depth: usize, has_children: bool, expanded: bool, is_file: bool| DirTreeRow {
        depth,
        name: "x".to_string(),
        full_path: "a/x".to_string(),
        count: 1,
        has_children,
        expanded,
        is_file,
    };
    assert_eq!(tree_label(&row(0, true, true, false)), "▼ x");
    assert_eq!(tree_label(&row(1, true, false, false)), "  ▶ x");
    assert_eq!(tree_label(&row(2, false, false, false)), "      x");
    assert_eq!(tree_label(&row(1, false, false, true)), "    x");
}

#[test]
fn breakdowns_add_up_to_filtered_total() {
    let report = test_report();
    let mut app = App::new(&report);
    for d in 0..DIMENSION_COUNT {
        for i in 0..app.dimension_values[d].len() {
            app.clear_filters();
            app.active_filters[d].insert(i);
            app.rebuild_filtered_data();
            let total = app.filtered_violation_count;
            let files: usize = app.filtered_files.iter().map(|(_, _, c)| *c).sum();
            let patterns: usize = app.filtered_patterns.iter().map(|(_, c)| *c).sum();
            let categories: usize = app.filtered_categories.iter().map(|(_, c)| *c).sum();
            let owners: usize = app.filtered_owners.iter().map(|(_, c)| *c).sum();
            assert_eq!(files, total);
            assert_eq!(patterns, total);
            assert_eq!(categories, total);
            assert_eq!(owners, total);
        }
    }
}
