use lint_quality::paths::{ancestors_of, extension_of, file_name_of, parent_of};

fn chars(s: &str) -> Vec<char> {
    s.chars().collect()
}

fn text(v: Option<Vec<char>>) -> Option<String> {
    v.map(|cs| cs.into_iter().collect())
}

#[test]
fn parent_drops_the_last_component() {
    assert_eq!(text(parent_of(&chars("src/foo/bar.ts"))), Some("src/foo".to_string()));
    assert_eq!(text(parent_of(&chars("bar.ts"))), Some(String::new()));
    assert_eq!(text(parent_of(&chars("/a"))), Some("/".to_string()));
    assert_eq!(text(parent_of(&chars("/"))), None);
    assert_eq!(text(parent_of(&chars(""))), None);
}

#[test]
fn parent_skips_dot_components_next_to_the_last_one() {
    assert_eq!(text(parent_of(&chars("a/./b.ts"))), Some("a".to_string()));
    assert_eq!(text(parent_of(&chars("a/./b/c.ts"))), Some("a/./b".to_string()));
    assert_eq!(text(parent_of(&chars("a/."))), Some(String::new()));
    assert_eq!(text(parent_of(&chars("./a"))), Some(".".to_string()));
    assert_eq!(text(parent_of(&chars("/./a"))), Some("/".to_string()));
    assert_eq!(text(parent_of(&chars("a//b/"))), Some("a".to_string()));
}

#[test]
fn file_name_skips_trailing_dot_components() {
    assert_eq!(text(file_name_of(&chars("a/."))), Some("a".to_string()));
    assert_eq!(text(file_name_of(&chars("a/b.ts/"))), Some("b.ts".to_string()));
    assert_eq!(text(file_name_of(&chars("."))), None);
    assert_eq!(text(file_name_of(&chars("a/.."))), None);
}

#[test]
fn extension_follows_the_last_dot_of_the_name() {
    assert_eq!(text(extension_of(&chars("a/b.test.ts"))), Some("ts".to_string()));
    assert_eq!(text(extension_of(&chars("a/.hidden"))), None);
    assert_eq!(text(extension_of(&chars("a/b.ts/."))), Some("ts".to_string()));
}

#[test]
fn ancestors_pop_to_the_top() {
    let got: Vec<String> = ancestors_of(&chars("a/./b/c.ts"))
        .into_iter()
        .map(|v| v.into_iter().collect())
        .collect();
    assert_eq!(got, vec!["a/./b".to_string(), "a".to_string()]);
}
