use braze_sync::diff::catalog_items::{
    compute_catalog_items_diffs, diff_items, resolve_catalog_names, RemoteRows,
};
use braze_sync::format::json::catalog_items_entry;
use braze_sync::resource::catalog_items::{CatalogItems, ItemHash};
use braze_sync::resource::Catalog;

fn rows(pairs: &[(&str, &str)]) -> Vec<ItemHash> {
    pairs
        .iter()
        .map(|(id, hash)| ItemHash {
            id: id.to_string(),
            hash: hash.to_string(),
        })
        .collect()
}

fn items(name: &str, pairs: &[(&str, &str)]) -> CatalogItems {
    CatalogItems {
        catalog_name: name.into(),
        item_hashes: rows(pairs),
        rows: None,
    }
}

#[test]
fn rows_are_told_apart_by_their_hashes() {
    let d = diff_items(
        "c",
        &rows(&[("new", "1"), ("same", "2"), ("moved", "3"), ("another", "4")]),
        &rows(&[("same", "2"), ("moved", "x"), ("gone", "5")]),
    );
    assert_eq!(d.catalog_name, "c");
    assert_eq!(d.added_ids, vec!["another", "new"]);
    assert_eq!(d.modified_ids, vec!["moved"]);
    assert_eq!(d.removed_ids, vec!["gone"]);
    assert_eq!(d.unchanged_count, 1);
    assert!(d.has_changes());
}

#[test]
fn the_same_rows_have_no_changes() {
    let r = rows(&[("b", "1"), ("a", "2")]);
    let s = rows(&[("a", "2"), ("b", "1")]);
    let d = diff_items("c", &r, &s);
    assert!(!d.has_changes());
    assert_eq!(d.unchanged_count, 2);
}

#[test]
fn catalogs_of_either_side_are_compared() {
    let local = vec![items("b", &[("x", "1")]), items("same", &[("x", "1")])];
    let names = vec!["same".to_string(), "a".to_string(), "missing".to_string()];
    let fetched = vec![
        RemoteRows {
            name: "same".into(),
            hashes: Some(rows(&[("x", "1")])),
        },
        RemoteRows {
            name: "a".into(),
            hashes: Some(rows(&[("y", "2")])),
        },
        RemoteRows {
            name: "missing".into(),
            hashes: None,
        },
    ];
    let d = compute_catalog_items_diffs(&local, &names, &fetched);
    assert_eq!(d.len(), 2);
    assert_eq!(d[0].catalog_name, "a");
    assert_eq!(d[0].removed_ids, vec!["y"]);
    assert_eq!(d[1].catalog_name, "b");
    assert_eq!(d[1].added_ids, vec!["x"]);
}

#[test]
fn one_catalog_or_all_of_them() {
    let listed = vec![Catalog {
        name: "a".into(),
        description: None,
        fields: vec![],
    }];
    assert_eq!(resolve_catalog_names(Some("x"), &listed), vec!["x"]);
    assert_eq!(resolve_catalog_names(None, &listed), vec!["a"]);
}

#[test]
fn rows_are_counted_in_json() {
    let d = diff_items(
        "c\"x",
        &rows(&[("a", "1"), ("b", "2"), ("d", "4")]),
        &rows(&[("b", "0"), ("d", "4")]),
    );
    assert_eq!(
        catalog_items_entry(&d),
        r#"{"kind":"catalog_items","catalog_name":"c\"x","added":1,"modified":1,"removed":0,"unchanged":1}"#
    );
}
