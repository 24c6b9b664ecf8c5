use lint_quality::counts::{CountMap, StringSet};
use lint_quality::tui::tree::build_dir_tree;

fn dir_counts(entries: &[(&str, usize)]) -> CountMap {
    let mut m = CountMap::new();
    for (k, v) in entries {
        m.add(k, *v);
    }
    m
}

fn expanded_set(keys: &[&str]) -> StringSet {
    let mut s = StringSet::new();
    for k in keys {
        s.insert(k);
    }
    s
}

#[test]
fn empty_inputs() {
    let rows = build_dir_tree(&CountMap::new(), &vec![], &StringSet::new());
    assert!(rows.is_empty());
}

#[test]
fn single_directory_collapsed() {
    let dirs = dir_counts(&[("src", 5)]);
    let rows = build_dir_tree(&dirs, &vec![], &StringSet::new());
    assert_eq!(rows.len(), 1);
    assert_eq!(rows[0].name, "src");
    assert_eq!(rows[0].count, 5);
    assert_eq!(rows[0].depth, 0);
    assert!(!rows[0].expanded);
    assert!(!rows[0].is_file);
}

#[test]
fn nested_dirs_expand_reveals_children() {
    let dirs = dir_counts(&[("src", 10), ("src/components", 6), ("src/utils", 4)]);
    let expanded = expanded_set(&["src"]);
    let rows = build_dir_tree(&dirs, &vec![], &expanded);

    assert_eq!(rows.len(), 3);
    // Root
    assert_eq!(rows[0].name, "src");
    assert_eq!(rows[0].depth, 0);
    assert!(rows[0].expanded);
    // Children sorted by count desc
    assert_eq!(rows[1].name, "components");
    assert_eq!(rows[1].depth, 1);
    assert_eq!(rows[1].count, 6);
    assert_eq!(rows[2].name, "utils");
    assert_eq!(rows[2].depth, 1);
    assert_eq!(rows[2].count, 4);
}

#[test]
fn collapsed_hides_children() {
    let dirs = dir_counts(&[("src", 10), ("src/components", 6)]);
    let rows = build_dir_tree(&dirs, &vec![], &StringSet::new());
    // Only root is visible
    assert_eq!(rows.len(), 1);
    assert_eq!(rows[0].name, "src");
    assert!(rows[0].has_children);
}

#[test]
fn files_appear_under_expanded_dir() {
    let dirs = dir_counts(&[("src", 5)]);
    let files = vec![
        ("src/foo.ts".to_string(), 3usize),
        ("src/bar.ts".to_string(), 2),
    ];
    let expanded = expanded_set(&["src"]);
    let rows = build_dir_tree(&dirs, &files, &expanded);

    assert_eq!(rows.len(), 3);
    assert_eq!(rows[0].name, "src");
    assert!(!rows[0].is_file);
    // Files sorted by count desc
    assert_eq!(rows[1].name, "foo.ts");
    assert!(rows[1].is_file);
    assert_eq!(rows[1].count, 3);
    assert_eq!(rows[2].name, "bar.ts");
    assert!(rows[2].is_file);
    assert_eq!(rows[2].count, 2);
}

#[test]
fn files_hidden_when_collapsed() {
    let dirs = dir_counts(&[("src", 5)]);
    let files = vec![("src/foo.ts".to_string(), 3)];
    let rows = build_dir_tree(&dirs, &files, &StringSet::new());
    assert_eq!(rows.len(), 1);
    assert!(rows[0].has_children);
}

#[test]
fn subdirs_before_files() {
    let dirs = dir_counts(&[("src", 10), ("src/lib", 3)]);
    let files = vec![("src/main.rs".to_string(), 7)];
    let expanded = expanded_set(&["src"]);
    let rows = build_dir_tree(&dirs, &files, &expanded);

    assert_eq!(rows.len(), 3);
    assert_eq!(rows[0].name, "src");
    // Subdir first
    assert_eq!(rows[1].name, "lib");
    assert!(!rows[1].is_file);
    // Then file
    assert_eq!(rows[2].name, "main.rs");
    assert!(rows[2].is_file);
}

#[test]
fn deeply_nested_expand() {
    let dirs = dir_counts(&[("a", 10), ("a/b", 8), ("a/b/c", 5)]);
    let expanded = expanded_set(&["a", "a/b"]);
    let rows = build_dir_tree(&dirs, &vec![], &expanded);

    assert_eq!(rows.len(), 3);
    assert_eq!(rows[0].depth, 0);
    assert_eq!(rows[0].name, "a");
    assert_eq!(rows[1].depth, 1);
    assert_eq!(rows[1].name, "b");
    assert_eq!(rows[2].depth, 2);
    assert_eq!(rows[2].name, "c");
}

#[test]
fn roots_in_name_order_children_by_count() {
    let dirs = dir_counts(&[("src", 9), ("src/a", 2), ("src/b", 7), ("lib", 20)]);
    let expanded = expanded_set(&["src"]);
    let rows = build_dir_tree(&dirs, &vec![], &expanded);
    assert_eq!(rows.len(), 4);
    // Roots come in name order, whatever their counts.
    assert_eq!(rows[0].name, "lib");
    assert!(!rows[0].has_children);
    assert_eq!(rows[1].name, "src");
    // Children come by count, largest first, with their full paths.
    assert_eq!(rows[2].full_path, "src/b");
    assert_eq!(rows[3].full_path, "src/a");
}

#[test]
fn file_entries_alone_make_no_rows() {
    let files = vec![("src/a.ts".to_string(), 3), ("b.ts".to_string(), 1)];
    let rows = build_dir_tree(&CountMap::new(), &files, &expanded_set(&["src"]));
    assert!(rows.is_empty());
}

#[test]
fn any_directory_count_makes_a_row() {
    let dirs = dir_counts(&[("/abs/path", 2)]);
    let rows = build_dir_tree(&dirs, &vec![], &StringSet::new());
    assert_eq!(rows.len(), 1);
    assert_eq!(rows[0].depth, 0);
    assert_eq!(rows[0].name, "");
}

#[test]
fn open_directories_show_at_their_slash_depth() {
    let dirs = dir_counts(&[("a/b/c", 4), ("a/x", 1)]);
    let rows = build_dir_tree(&dirs, &vec![], &expanded_set(&["a", "a/b"]));
    let paths: Vec<&str> = rows.iter().map(|r| r.full_path.as_str()).collect();
    assert_eq!(paths, vec!["a", "a/x", "a/b", "a/b/c"]);
    for r in &rows {
        assert_eq!(r.depth, r.full_path.matches('/').count());
    }
    assert_eq!(rows[2].count, 0);
    assert_eq!(rows[3].count, 4);
}
