use braze_sync::diff::tag::{diff, TagOp};
use braze_sync::resource::{Tag, TagRegistry};

fn registry(names: &[&str]) -> TagRegistry {
    TagRegistry {
        tags: names
            .iter()
            .map(|n| Tag {
                name: (*n).to_string(),
                description: None,
            })
            .collect(),
    }
}

fn referenced(names: &[&str]) -> Vec<String> {
    names.iter().map(|s| s.to_string()).collect()
}

#[test]
fn no_diff_when_registry_matches_references() {
    let r = registry(&["a", "b"]);
    let used = referenced(&["a", "b"]);
    let diffs = diff(Some(&r), &used);
    assert_eq!(diffs.len(), 2);
    assert!(diffs.iter().all(|d| !d.has_changes()));
}

#[test]
fn referenced_but_unregistered_tag_is_flagged() {
    let r = registry(&["a"]);
    let used = referenced(&["a", "missing"]);
    let diffs = diff(Some(&r), &used);
    let missing = diffs.iter().find(|d| d.name == "missing").unwrap();
    assert!(matches!(missing.op, TagOp::ReferencedButUnregistered));
}

#[test]
fn registered_but_unreferenced_tag_is_flagged() {
    let r = registry(&["a", "orphan"]);
    let used = referenced(&["a"]);
    let diffs = diff(Some(&r), &used);
    let orphan = diffs.iter().find(|d| d.name == "orphan").unwrap();
    assert!(matches!(orphan.op, TagOp::RegisteredButUnreferenced));
}

#[test]
fn missing_registry_treats_all_references_as_unregistered() {
    let used = referenced(&["a", "b"]);
    let diffs = diff(None, &used);
    assert_eq!(diffs.len(), 2);
    assert!(diffs
        .iter()
        .all(|d| matches!(d.op, TagOp::ReferencedButUnregistered)));
}

#[test]
fn empty_when_neither_side_has_tags() {
    let diffs = diff(None, &referenced(&[]));
    assert!(diffs.is_empty());
}

#[test]
fn diffs_are_sorted_by_name() {
    let r = registry(&["zebra", "apple"]);
    let used = referenced(&["mango"]);
    let diffs = diff(Some(&r), &used);
    let names: Vec<&str> = diffs.iter().map(|d| d.name.as_str()).collect();
    assert_eq!(names, vec!["apple", "mango", "zebra"]);
}
