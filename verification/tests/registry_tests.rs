use reposcan::registry::load_known_repositories;
use reposcan::registry::Registry;

fn cv(s: &str) -> Vec<char> {
    s.chars().collect()
}

fn cs(v: &[char]) -> String {
    v.iter().collect()
}

#[test]
fn round_trip_preserves_the_set() {
    let mut registry = Registry::new();
    let paths = ["/r/one", "/r/two", "/r/three", "/elsewhere/four"];
    for p in paths {
        assert!(registry.insert(cv(p)));
    }
    let written = registry.serialize();
    let reloaded = Registry::parse(&written);
    assert_eq!(reloaded.len(), paths.len());
    for p in paths {
        assert!(reloaded.contains(&cv(p)));
    }
}

#[test]
fn duplicate_lines_collapse_on_load() {
    let content = cv("/r/a\n/r/b\n/r/a\n");
    let registry = Registry::parse(&content);
    assert_eq!(registry.len(), 2);
    assert!(registry.contains(&cv("/r/a")));
    assert!(registry.contains(&cv("/r/b")));
}

#[test]
fn blank_lines_are_ignored() {
    let registry = Registry::parse(&cv("/r/a\n\n/r/b\n"));
    assert_eq!(registry.len(), 2);
}

#[test]
fn missing_file_loads_as_empty() {
    let registry = load_known_repositories(None);
    assert_eq!(registry.len(), 0);
}

#[test]
fn existing_content_loads_entries() {
    let content = cv("/r/a\n/r/b\n");
    let registry = load_known_repositories(Some(&content));
    assert_eq!(registry.len(), 2);
    assert!(registry.contains(&cv("/r/a")));
}

#[test]
fn insert_is_keyed_by_exact_path() {
    let mut registry = Registry::new();
    assert!(registry.insert(cv("/r/a")));
    assert!(!registry.insert(cv("/r/a")));
    assert_eq!(registry.len(), 1);
}

#[test]
fn remove_deletes_exactly_one_entry() {
    let mut registry = Registry::new();
    registry.insert(cv("/r/a"));
    registry.insert(cv("/r/b"));
    assert!(registry.remove(&cv("/r/a")));
    assert!(!registry.remove(&cv("/r/a")));
    assert!(!registry.contains(&cv("/r/a")));
    assert!(registry.contains(&cv("/r/b")));
}

#[test]
fn serialize_writes_one_path_per_line() {
    let mut registry = Registry::new();
    registry.insert(cv("/r/a"));
    registry.insert(cv("/r/b"));
    assert_eq!(cs(&registry.serialize()), "/r/a\n/r/b\n");
}

#[test]
fn content_without_trailing_newline_still_loads() {
    let registry = Registry::parse(&cv("/r/a\n/r/b"));
    assert_eq!(registry.len(), 2);
    assert!(registry.contains(&cv("/r/b")));
}

#[test]
fn empty_registry_serializes_to_nothing() {
    let registry = Registry::new();
    assert_eq!(cs(&registry.serialize()), "");
}

#[test]
fn scope_keeps_only_prefixed_paths() {
    let mut registry = Registry::new();
    registry.insert(cv("/tree/a"));
    registry.insert(cv("/tree/b"));
    registry.insert(cv("/other/c"));
    let scope = registry.scope(&cv("/tree"));
    assert_eq!(scope.len(), 2);
    assert!(scope.contains(&cv("/tree/a")));
    assert!(scope.contains(&cv("/tree/b")));
    assert!(!scope.contains(&cv("/other/c")));
}
