use braze_sync::diff::catalog::{diff_fields, diff_schema};
use braze_sync::diff::{digest, DiffOp};
use braze_sync::resource::{Catalog, CatalogField, CatalogFieldType};

fn field(name: &str, t: CatalogFieldType) -> CatalogField {
    CatalogField {
        name: name.into(),
        field_type: t,
    }
}

fn cat(name: &str, fields: Vec<CatalogField>) -> Catalog {
    Catalog {
        name: name.into(),
        description: None,
        fields,
    }
}

#[test]
fn catalog_both_absent_returns_none() {
    assert!(diff_schema(None, None).is_none());
}

#[test]
fn catalog_local_only_is_added() {
    let l = cat(
        "c",
        vec![
            field("id", CatalogFieldType::String),
            field("score", CatalogFieldType::Number),
        ],
    );
    let d = diff_schema(Some(&l), None).unwrap();
    assert!(matches!(d.op, DiffOp::Added(_)));
    assert!(d.has_changes());
    assert!(!d.has_destructive());
    assert_eq!(d.field_diffs.len(), 2);
    assert!(d.field_diffs.iter().all(|f| matches!(f, DiffOp::Added(_))));
}

#[test]
fn remote_only_is_removed_and_destructive() {
    let r = cat("c", vec![field("id", CatalogFieldType::String)]);
    let d = diff_schema(None, Some(&r)).unwrap();
    assert!(matches!(d.op, DiffOp::Removed(_)));
    assert!(d.has_changes());
    assert!(d.has_destructive());
}

#[test]
fn equal_catalogs_are_unchanged() {
    let l = cat("c", vec![field("id", CatalogFieldType::String)]);
    let r = cat("c", vec![field("id", CatalogFieldType::String)]);
    let d = diff_schema(Some(&l), Some(&r)).unwrap();
    assert!(matches!(d.op, DiffOp::Unchanged));
    assert!(d.field_diffs.is_empty());
    assert!(!d.has_changes());
    assert!(!d.has_destructive());
}

#[test]
fn added_field_is_non_destructive() {
    let l = cat(
        "c",
        vec![
            field("id", CatalogFieldType::String),
            field("score", CatalogFieldType::Number),
        ],
    );
    let r = cat("c", vec![field("id", CatalogFieldType::String)]);
    let d = diff_schema(Some(&l), Some(&r)).unwrap();
    assert!(matches!(d.op, DiffOp::Modified { .. }));
    assert_eq!(d.field_diffs.len(), 1);
    assert!(matches!(d.field_diffs[0], DiffOp::Added(_)));
    assert!(d.has_changes());
    assert!(!d.has_destructive());
}

#[test]
fn removed_field_is_destructive() {
    let l = cat("c", vec![field("id", CatalogFieldType::String)]);
    let r = cat(
        "c",
        vec![
            field("id", CatalogFieldType::String),
            field("legacy", CatalogFieldType::String),
        ],
    );
    let d = diff_schema(Some(&l), Some(&r)).unwrap();
    assert_eq!(d.field_diffs.len(), 1);
    assert!(matches!(d.field_diffs[0], DiffOp::Removed(_)));
    assert!(d.has_destructive());
}

#[test]
fn type_change_is_modified_field() {
    let l = cat("c", vec![field("v", CatalogFieldType::Number)]);
    let r = cat("c", vec![field("v", CatalogFieldType::String)]);
    let d = diff_schema(Some(&l), Some(&r)).unwrap();
    assert_eq!(d.field_diffs.len(), 1);
    assert!(matches!(d.field_diffs[0], DiffOp::Modified { .. }));
    assert!(d.has_changes());
    assert!(!d.has_destructive());
}

#[test]
fn unchanged_fields_are_not_recorded() {
    let l = cat(
        "c",
        vec![
            field("id", CatalogFieldType::String),
            field("score", CatalogFieldType::Number),
        ],
    );
    let r = cat(
        "c",
        vec![
            field("id", CatalogFieldType::String),
            field("score", CatalogFieldType::Number),
        ],
    );
    let d = diff_schema(Some(&l), Some(&r)).unwrap();
    assert!(d.field_diffs.is_empty());
}

#[test]
fn field_order_difference_is_not_drift() {
    let l = cat(
        "c",
        vec![
            field("a", CatalogFieldType::String),
            field("b", CatalogFieldType::Number),
        ],
    );
    let r = cat(
        "c",
        vec![
            field("b", CatalogFieldType::Number),
            field("a", CatalogFieldType::String),
        ],
    );
    let d = diff_schema(Some(&l), Some(&r)).unwrap();
    assert!(matches!(d.op, DiffOp::Unchanged));
    assert!(d.field_diffs.is_empty());
    assert!(!d.has_changes());
}

#[test]
fn description_only_difference_is_not_drift() {
    let l = Catalog {
        name: "c".into(),
        description: Some("local description".into()),
        fields: vec![field("id", CatalogFieldType::String)],
    };
    let r = Catalog {
        name: "c".into(),
        description: Some("remote description".into()),
        fields: vec![field("id", CatalogFieldType::String)],
    };
    let d = diff_schema(Some(&l), Some(&r)).unwrap();
    assert!(matches!(d.op, DiffOp::Unchanged));
    assert!(d.field_diffs.is_empty());
    assert!(!d.has_changes());
}

fn products(fields: Vec<CatalogField>) -> Catalog {
    Catalog {
        name: "products".into(),
        description: None,
        fields,
    }
}

fn base() -> Catalog {
    products(vec![
        field("id", CatalogFieldType::String),
        field("price", CatalogFieldType::Number),
    ])
}

fn assert_agree(a: &Catalog, b: &Catalog) {
    assert_eq!(
        diff_fields(&a.fields, &b.fields).is_empty(),
        digest::catalog(a) == digest::catalog(b),
        "digest and diff_fields disagree on {a:?} vs {b:?}",
    );
}

#[test]
fn identical_agree() {
    assert_agree(&base(), &base());
}

#[test]
fn field_order_agrees() {
    let mut b = base();
    b.fields.reverse();
    assert!(diff_fields(&base().fields, &b.fields).is_empty());
    assert_agree(&base(), &b);
}

#[test]
fn description_is_ignored_by_both() {
    let mut b = base();
    b.description = Some("edited remotely".into());
    assert_agree(&base(), &b);
}

#[test]
fn variant_list_covers_every_field() {
    let Catalog {
        name: _,
        description: _,
        fields: _,
    } = base();
    let CatalogField {
        name: _,
        field_type: _,
    } = field("id", CatalogFieldType::String);
}

#[test]
fn field_changes_disagree_in_both() {
    let variants = vec![
        products(vec![field("id", CatalogFieldType::String)]),
        products(vec![
            field("id", CatalogFieldType::String),
            field("price", CatalogFieldType::String),
        ]),
        products(vec![
            field("id", CatalogFieldType::String),
            field("price", CatalogFieldType::Number),
            field("sku", CatalogFieldType::String),
        ]),
        products(vec![
            field("id", CatalogFieldType::String),
            field("cost", CatalogFieldType::Number),
        ]),
    ];
    for b in variants {
        assert!(
            !diff_fields(&base().fields, &b.fields).is_empty(),
            "expected a real change: {b:?}",
        );
        assert_agree(&base(), &b);
    }
}

#[test]
fn repeated_field_names_use_the_last_entry() {
    let l = cat(
        "c",
        vec![
            field("v", CatalogFieldType::String),
            field("v", CatalogFieldType::Number),
        ],
    );
    let r = cat("c", vec![field("v", CatalogFieldType::Number)]);
    assert!(diff_fields(&l.fields, &r.fields).is_empty());
}

#[test]
fn removals_stand_after_the_wanted_fields() {
    let l = cat(
        "c",
        vec![
            field("z", CatalogFieldType::String),
            field("m", CatalogFieldType::Number),
        ],
    );
    let r = cat(
        "c",
        vec![
            field("a", CatalogFieldType::String),
            field("m", CatalogFieldType::String),
        ],
    );
    let d = diff_fields(&l.fields, &r.fields);
    assert_eq!(d.len(), 3);
    assert!(matches!(&d[0], DiffOp::Modified { to, .. } if to.name == "m"));
    assert!(matches!(&d[1], DiffOp::Added(f) if f.name == "z"));
    assert!(matches!(&d[2], DiffOp::Removed(f) if f.name == "a"));
}

#[test]
fn a_dropped_field_is_seen() {
    let l = cat("c", vec![field("id", CatalogFieldType::String)]);
    let r = cat(
        "c",
        vec![
            field("id", CatalogFieldType::String),
            field("legacy", CatalogFieldType::String),
        ],
    );
    assert!(diff_schema(Some(&l), Some(&r)).unwrap().drops_field());
    assert!(!diff_schema(Some(&r), Some(&l)).unwrap().drops_field());
}

#[test]
fn a_run_goes_on_where_it_stopped() {
    let l = vec![
        field("b", CatalogFieldType::String),
        field("z", CatalogFieldType::Number),
    ];
    let mut r = vec![
        field("old", CatalogFieldType::String),
        field("a", CatalogFieldType::String),
    ];
    let d = diff_fields(&l, &r);
    assert_eq!(d.len(), 4);
    r.push(field("b", CatalogFieldType::String));
    let d = diff_fields(&l, &r);
    assert_eq!(d.len(), 3);
    assert!(matches!(&d[0], DiffOp::Added(f) if f.name == "z"));
    r.retain(|f| f.name != "a");
    let d = diff_fields(&l, &r);
    assert_eq!(d.len(), 2);
    assert!(matches!(&d[0], DiffOp::Added(f) if f.name == "z"));
    assert!(matches!(&d[1], DiffOp::Removed(f) if f.name == "old"));
}
