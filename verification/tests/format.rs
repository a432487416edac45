use braze_sync::diff::catalog::diff_schema;
use braze_sync::diff::content_block::ContentBlockDiff;
use braze_sync::diff::custom_attribute::{CustomAttributeDiff, CustomAttributeOp};
use braze_sync::diff::email_template::EmailTemplateDiff;
use braze_sync::diff::tag::{TagDiff, TagOp};
use braze_sync::diff::{DiffOp, DiffSummary, ResourceDiff, TextDiffSummary};
use braze_sync::format::json;
use braze_sync::format::{DiffFormatter, JsonFormatter, OutputFormat, TableFormatter};
use braze_sync::resource::{Catalog, CatalogField, CatalogFieldType, ContentBlock, ContentBlockState};

const TABLE: TableFormatter = TableFormatter { only_drift: false };

fn field(name: &str, t: CatalogFieldType) -> CatalogField {
    CatalogField {
        name: name.into(),
        field_type: t,
    }
}

fn empty() -> DiffSummary {
    DiffSummary { diffs: vec![] }
}

fn catalog_schema_with_mixed_field_diffs() -> DiffSummary {
    let local = Catalog {
        name: "cardiology".into(),
        description: Some("Cardiology catalog".into()),
        fields: vec![
            field("id", CatalogFieldType::String),
            field("severity_level", CatalogFieldType::Number),
            field("is_active", CatalogFieldType::Boolean),
        ],
    };
    let remote = Catalog {
        name: "cardiology".into(),
        description: Some("Cardiology catalog".into()),
        fields: vec![
            field("id", CatalogFieldType::String),
            field("legacy_code", CatalogFieldType::String),
            field("is_active", CatalogFieldType::String),
        ],
    };
    let d = diff_schema(Some(&local), Some(&remote)).unwrap();
    DiffSummary {
        diffs: vec![ResourceDiff::CatalogSchema(d)],
    }
}

fn catalog_schema_unchanged() -> DiffSummary {
    let cat = Catalog {
        name: "stable".into(),
        description: None,
        fields: vec![field("id", CatalogFieldType::String)],
    };
    let d = diff_schema(Some(&cat), Some(&cat)).unwrap();
    DiffSummary {
        diffs: vec![ResourceDiff::CatalogSchema(d)],
    }
}

fn content_block_orphan() -> DiffSummary {
    DiffSummary {
        diffs: vec![ResourceDiff::ContentBlock(ContentBlockDiff::orphan(
            "legacy_promo",
        ))],
    }
}

fn several_kinds() -> DiffSummary {
    let cb_from = ContentBlock {
        name: "promo".into(),
        description: None,
        content: "old".into(),
        tags: vec![],
        state: ContentBlockState::Active,
    };
    let mut cb_to = cb_from.clone();
    cb_to.content = "new".into();
    DiffSummary {
        diffs: vec![
            ResourceDiff::ContentBlock(ContentBlockDiff {
                name: "promo".into(),
                op: DiffOp::Modified {
                    from: cb_from,
                    to: cb_to,
                },
                text_diff: Some(TextDiffSummary {
                    additions: 5,
                    deletions: 3,
                }),
                orphan: false,
            }),
            ResourceDiff::EmailTemplate(EmailTemplateDiff {
                name: "welcome".into(),
                op: DiffOp::Unchanged,
                subject_changed: true,
                body_html_diff: Some(TextDiffSummary {
                    additions: 20,
                    deletions: 8,
                }),
                body_plaintext_diff: None,
                metadata_changed: false,
                orphan: false,
            }),
            ResourceDiff::CustomAttribute(CustomAttributeDiff {
                name: "marketing_segment".into(),
                op: CustomAttributeOp::DeprecationToggled {
                    from: false,
                    to: true,
                },
                hints: vec!["look \"here\"".into()],
            }),
            ResourceDiff::Tag(TagDiff {
                name: "pr".into(),
                op: TagOp::RegisteredButUnreferenced,
                hints: vec![],
            }),
        ],
    }
}

fn value(text: &str) -> serde_json::Value {
    serde_json::from_str(text).unwrap()
}

#[test]
fn empty_table() {
    assert_eq!(
        TABLE.format(&empty()),
        "Summary: 0 changed, 0 in sync, 0 orphan, 0 destructive\n"
    );
}

#[test]
fn empty_json() {
    assert_eq!(
        JsonFormatter.format(&empty()),
        r#"{
  "version": 1,
  "summary": {
    "changed": 0,
    "in_sync": 0,
    "destructive": 0,
    "orphan": 0
  },
  "diffs": []
}
"#
    );
}

#[test]
fn empty_summary_renders_valid_json_with_version_1() {
    let v = value(&json::render(&empty()));
    assert_eq!(v["version"], 1);
    assert!(v["diffs"].as_array().unwrap().is_empty());
}

#[test]
fn catalog_schema_field_diffs_table() {
    assert_eq!(
        TABLE.format(&catalog_schema_with_mixed_field_diffs()),
        "📋 Catalog Schema: cardiology\n\
         \x20  ~ field: is_active (string → boolean)\n\
         \x20  + field: severity_level (number)\n\
         \x20  - field: legacy_code (string)\n\
         \n\
         Summary: 1 changed, 0 in sync, 0 orphan, 1 destructive\n"
    );
}

#[test]
fn catalog_schema_field_diffs_json() {
    assert_eq!(
        json::compact(&catalog_schema_with_mixed_field_diffs()),
        concat_lines(&[
            r#"{"version":1,"summary":{"changed":1,"in_sync":0,"destructive":1,"orphan":0},"#,
            r#""diffs":[{"kind":"catalog_schema","name":"cardiology","op":"modified","field_diffs":["#,
            r#"{"op":"modified","from":{"name":"is_active","type":"string"},"#,
            r#""to":{"name":"is_active","type":"boolean"}},"#,
            r#"{"op":"added","field":{"name":"severity_level","type":"number"}},"#,
            r#"{"op":"removed","field":{"name":"legacy_code","type":"string"}}]}]}"#,
        ])
    );
}

fn concat_lines(parts: &[&str]) -> String {
    parts.concat()
}

#[test]
fn catalog_schema_unchanged_table() {
    assert_eq!(
        TABLE.format(&catalog_schema_unchanged()),
        "✅ Catalog Schema: stable\n   no drift\n\n\
         Summary: 0 changed, 1 in sync, 0 orphan, 0 destructive\n"
    );
    assert_eq!(
        TableFormatter { only_drift: true }.format(&catalog_schema_unchanged()),
        "Summary: 0 changed, 1 in sync, 0 orphan, 0 destructive\n"
    );
}

#[test]
fn catalog_schema_unchanged_json() {
    let v = value(&JsonFormatter.format(&catalog_schema_unchanged()));
    assert_eq!(v["summary"]["in_sync"], 1);
    assert_eq!(v["diffs"][0]["op"], "unchanged");
    assert_eq!(v["diffs"][0]["name"], "stable");
    assert!(v["diffs"][0]["field_diffs"].as_array().unwrap().is_empty());
}

#[test]
fn content_block_orphan_table() {
    let text = TABLE.format(&content_block_orphan());
    assert!(text.starts_with(
        "📝 Content Block: legacy_promo\n   ⚠ orphaned (exists in Braze, not in Git)\n"
    ));
    assert!(text.contains("Summary: 1 changed, 0 in sync, 1 orphan, 0 destructive\n"));
    assert!(text.contains("ℹ 1 Braze resource(s) not present in Git."));
}

#[test]
fn content_block_orphan_json() {
    let v = value(&JsonFormatter.format(&content_block_orphan()));
    assert_eq!(v["summary"]["orphan"], 1);
    assert_eq!(v["diffs"][0]["kind"], "content_block");
    assert_eq!(v["diffs"][0]["orphan"], true);
    assert_eq!(v["diffs"][0]["op"], "unchanged");
}

#[test]
fn every_kind_has_its_table_lines() {
    assert_eq!(
        TABLE.format(&several_kinds()),
        "📝 Content Block: promo\n   ~ content changed (+5 -3)\n\n\
         📧 Email Template: welcome\n   ~ subject changed\n   ~ body_html changed (+20 -8)\n\n\
         🏷  Custom Attribute: marketing_segment\n   ~ deprecated: false → true\n   ℹ look \"here\"\n\n\
         🔖 Tag: pr\n   ℹ in tags/registry.yaml but no local resource references it\n\n\
         Summary: 4 changed, 0 in sync, 0 orphan, 0 destructive\n"
    );
}

#[test]
fn every_kind_has_its_json_entry() {
    let v = value(&json::render(&several_kinds()));
    assert_eq!(v["diffs"][0]["text_diff"]["additions"], 5);
    assert_eq!(v["diffs"][0]["text_diff"]["deletions"], 3);
    assert_eq!(v["diffs"][1]["subject_changed"], true);
    assert_eq!(v["diffs"][1]["body_html_diff"]["additions"], 20);
    assert_eq!(v["diffs"][2]["kind"], "custom_attribute");
    assert_eq!(v["diffs"][2]["hints"][0], "look \"here\"");
    assert_eq!(v["diffs"][3]["kind"], "tag");
    assert_eq!(v["diffs"][3]["name"], "pr");
}

#[test]
fn a_document_that_cannot_be_laid_out_stays_as_it_is() {
    assert_eq!(json::finish("{}".into(), None), "{}\n");
    assert_eq!(json::finish("{}".into(), Some("{ }".into())), "{ }\n");
}

#[test]
fn formats_choose_their_formatter() {
    let s = content_block_orphan();
    assert_eq!(
        OutputFormat::Table.formatter(TABLE).format(&s),
        TABLE.format(&s)
    );
    assert_eq!(
        OutputFormat::Json.formatter(TABLE).format(&s),
        json::render(&s)
    );
    assert_eq!(OutputFormat::default(), OutputFormat::Table);
}
