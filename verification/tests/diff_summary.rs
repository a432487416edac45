use braze_sync::diff::{
    catalog, content_block, custom_attribute, tag, DiffOp, DiffSummary, DriftTier, ResourceDiff,
};
use braze_sync::resource::{Catalog, CatalogField, CatalogFieldType};

fn orphan_content_block() -> ResourceDiff {
    ResourceDiff::ContentBlock(content_block::ContentBlockDiff {
        name: "legacy_banner".into(),
        op: DiffOp::Unchanged,
        text_diff: None,
        orphan: true,
    })
}

fn tag(op: tag::TagOp) -> ResourceDiff {
    ResourceDiff::Tag(tag::TagDiff {
        name: "promo".into(),
        op,
        hints: vec![],
    })
}

#[test]
fn orphans_gate_even_though_apply_cannot_write_them() {
    let d = orphan_content_block();
    assert!(!d.is_actionable());
    assert_eq!(d.drift_tier(), DriftTier::Gating);
}

#[test]
fn both_tag_states_gate() {
    for op in [
        tag::TagOp::ReferencedButUnregistered,
        tag::TagOp::RegisteredButUnreferenced,
    ] {
        let d = tag(op);
        assert!(!d.is_actionable());
        assert_eq!(d.drift_tier(), DriftTier::Gating);
    }
}

#[test]
fn unchanged_tag_is_not_drift() {
    assert_eq!(tag(tag::TagOp::Unchanged).drift_tier(), DriftTier::InSync);
}

#[test]
fn counts_split_changed_into_the_two_tiers() {
    let report_only = ResourceDiff::CustomAttribute(custom_attribute::CustomAttributeDiff {
        name: "trial_started_at".into(),
        op: custom_attribute::CustomAttributeOp::PresentInGitOnly,
        hints: vec![],
    });
    let in_sync = ResourceDiff::ContentBlock(content_block::ContentBlockDiff {
        name: "promo".into(),
        op: DiffOp::Unchanged,
        text_diff: None,
        orphan: false,
    });
    let summary = DiffSummary {
        diffs: vec![report_only, orphan_content_block(), in_sync],
    };
    assert_eq!(summary.changed_count(), 2);
    assert_eq!(summary.gating_drift_count(), 1);
    assert_eq!(summary.report_only_drift_count(), 1);
    assert_eq!(summary.in_sync_count(), 1);
}

#[test]
fn what_destroys_is_also_written() {
    let field = |name: &str| CatalogField {
        name: name.into(),
        field_type: CatalogFieldType::String,
    };
    let cat = |fields: Vec<CatalogField>| Catalog {
        name: "c".into(),
        description: None,
        fields,
    };
    let pair = |local: Vec<CatalogField>, remote: Vec<CatalogField>| {
        let (l, r) = (cat(local), cat(remote));
        ResourceDiff::CatalogSchema(catalog::diff_schema(Some(&l), Some(&r)).unwrap())
    };
    let summary = DiffSummary {
        diffs: vec![
            pair(vec![field("a")], vec![field("a"), field("gone")]),
            pair(vec![field("a"), field("new")], vec![field("a")]),
            orphan_content_block(),
        ],
    };
    assert_eq!(summary.destructive_count(), 1);
    assert_eq!(summary.actionable_count(), 2);
    assert_eq!(summary.changed_count(), 3);
}
