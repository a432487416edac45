use braze_sync::diff::custom_attribute::{diff_registry, CustomAttributeDiff, CustomAttributeOp};
use braze_sync::diff::DriftTier;
use braze_sync::resource::{CustomAttribute, CustomAttributeRegistry, CustomAttributeType};

fn attr(name: &str, deprecated: bool, desc: Option<&str>) -> CustomAttribute {
    CustomAttribute {
        name: name.into(),
        attribute_type: CustomAttributeType::String,
        description: desc.map(Into::into),
        deprecated,
    }
}

#[test]
fn both_sides_empty() {
    let diffs = diff_registry(None, &vec![]);
    assert!(diffs.is_empty());
}

#[test]
fn local_only_attributes() {
    let registry = CustomAttributeRegistry {
        attributes: vec![attr("foo", false, None)],
    };
    let diffs = diff_registry(Some(&registry), &vec![]);
    assert_eq!(diffs.len(), 1);
    assert_eq!(diffs[0].name, "foo");
    assert!(matches!(diffs[0].op, CustomAttributeOp::PresentInGitOnly));
}

#[test]
fn remote_only_attributes() {
    let remote = vec![attr("bar", false, None)];
    let diffs = diff_registry(None, &remote);
    assert_eq!(diffs.len(), 1);
    assert_eq!(diffs[0].name, "bar");
    assert!(matches!(diffs[0].op, CustomAttributeOp::UnregisteredInGit));
}

#[test]
fn duplicate_local_name_uses_last_entry() {
    let registry = CustomAttributeRegistry {
        attributes: vec![attr("dup", true, None), attr("dup", false, None)],
    };
    let remote = vec![attr("dup", false, None)];
    let diffs = diff_registry(Some(&registry), &remote);
    assert_eq!(diffs.len(), 1);
    assert!(matches!(diffs[0].op, CustomAttributeOp::Unchanged));
}

#[test]
fn unchanged_attributes() {
    let registry = CustomAttributeRegistry {
        attributes: vec![attr("x", false, Some("desc"))],
    };
    let remote = vec![attr("x", false, Some("desc"))];
    let diffs = diff_registry(Some(&registry), &remote);
    assert_eq!(diffs.len(), 1);
    assert!(matches!(diffs[0].op, CustomAttributeOp::Unchanged));
}

#[test]
fn deprecation_toggled_local_deprecates() {
    let registry = CustomAttributeRegistry {
        attributes: vec![attr("x", true, None)],
    };
    let remote = vec![attr("x", false, None)];
    let diffs = diff_registry(Some(&registry), &remote);
    assert_eq!(diffs.len(), 1);
    match &diffs[0].op {
        CustomAttributeOp::DeprecationToggled { from, to } => {
            assert!(!from);
            assert!(to);
        }
        other => panic!("expected DeprecationToggled, got {other:?}"),
    }
}

#[test]
fn deprecation_toggled_local_reactivates() {
    let registry = CustomAttributeRegistry {
        attributes: vec![attr("x", false, None)],
    };
    let remote = vec![attr("x", true, None)];
    let diffs = diff_registry(Some(&registry), &remote);
    match &diffs[0].op {
        CustomAttributeOp::DeprecationToggled { from, to } => {
            assert!(from);
            assert!(!to);
        }
        other => panic!("expected DeprecationToggled, got {other:?}"),
    }
}

#[test]
fn metadata_only_description_changed() {
    let registry = CustomAttributeRegistry {
        attributes: vec![attr("x", false, Some("new desc"))],
    };
    let remote = vec![attr("x", false, Some("old desc"))];
    let diffs = diff_registry(Some(&registry), &remote);
    assert!(matches!(diffs[0].op, CustomAttributeOp::MetadataOnly));
}

#[test]
fn metadata_only_description_added() {
    let registry = CustomAttributeRegistry {
        attributes: vec![attr("x", false, Some("added"))],
    };
    let remote = vec![attr("x", false, None)];
    let diffs = diff_registry(Some(&registry), &remote);
    assert!(matches!(diffs[0].op, CustomAttributeOp::MetadataOnly));
}

#[test]
fn deprecation_takes_precedence_over_metadata() {
    let registry = CustomAttributeRegistry {
        attributes: vec![CustomAttribute {
            name: "x".into(),
            attribute_type: CustomAttributeType::String,
            description: Some("new desc".into()),
            deprecated: true,
        }],
    };
    let remote = vec![CustomAttribute {
        name: "x".into(),
        attribute_type: CustomAttributeType::String,
        description: Some("old desc".into()),
        deprecated: false,
    }];
    let diffs = diff_registry(Some(&registry), &remote);
    assert!(matches!(
        diffs[0].op,
        CustomAttributeOp::DeprecationToggled { .. }
    ));
}

#[test]
fn mixed_operations_sorted_by_name() {
    let registry = CustomAttributeRegistry {
        attributes: vec![attr("charlie", false, None), attr("alpha", true, None)],
    };
    let remote = vec![attr("alpha", false, None), attr("bravo", false, None)];
    let diffs = diff_registry(Some(&registry), &remote);
    assert_eq!(diffs.len(), 3);
    assert_eq!(diffs[0].name, "alpha");
    assert!(matches!(
        diffs[0].op,
        CustomAttributeOp::DeprecationToggled { .. }
    ));
    assert_eq!(diffs[1].name, "bravo");
    assert!(matches!(diffs[1].op, CustomAttributeOp::UnregisteredInGit));
    assert_eq!(diffs[2].name, "charlie");
    assert!(matches!(diffs[2].op, CustomAttributeOp::PresentInGitOnly));
}

#[test]
fn type_difference_alone_is_unchanged() {
    let registry = CustomAttributeRegistry {
        attributes: vec![CustomAttribute {
            name: "x".into(),
            attribute_type: CustomAttributeType::Number,
            description: None,
            deprecated: false,
        }],
    };
    let remote = vec![CustomAttribute {
        name: "x".into(),
        attribute_type: CustomAttributeType::String,
        description: None,
        deprecated: false,
    }];
    let diffs = diff_registry(Some(&registry), &remote);
    assert!(matches!(diffs[0].op, CustomAttributeOp::Unchanged));
}

#[test]
fn has_changes_correctly_classifies() {
    let unchanged = CustomAttributeDiff {
        name: "x".into(),
        op: CustomAttributeOp::Unchanged,
        hints: Vec::new(),
    };
    assert!(!unchanged.has_changes());

    let changed = CustomAttributeDiff {
        name: "x".into(),
        op: CustomAttributeOp::PresentInGitOnly,
        hints: Vec::new(),
    };
    assert!(changed.has_changes());
}

#[test]
fn is_actionable_correctly_classifies() {
    let make = |op: CustomAttributeOp| CustomAttributeDiff {
        name: "x".into(),
        op,
        hints: Vec::new(),
    };
    assert!(make(CustomAttributeOp::DeprecationToggled { from: false, to: true }).is_actionable());
    assert!(make(CustomAttributeOp::PresentInGitOnly).is_actionable());
    assert!(!make(CustomAttributeOp::MetadataOnly).is_actionable());
    assert!(!make(CustomAttributeOp::UnregisteredInGit).is_actionable());
    assert!(!make(CustomAttributeOp::Unchanged).is_actionable());
}

#[test]
fn deprecation_toggle_with_description_diff_adds_hint() {
    let registry = CustomAttributeRegistry {
        attributes: vec![CustomAttribute {
            name: "x".into(),
            attribute_type: CustomAttributeType::String,
            description: Some("local desc".into()),
            deprecated: true,
        }],
    };
    let remote = vec![CustomAttribute {
        name: "x".into(),
        attribute_type: CustomAttributeType::String,
        description: Some("remote desc".into()),
        deprecated: false,
    }];
    let diffs = diff_registry(Some(&registry), &remote);
    assert!(matches!(
        diffs[0].op,
        CustomAttributeOp::DeprecationToggled { .. }
    ));
    assert_eq!(diffs[0].hints.len(), 1);
    assert!(diffs[0].hints[0].contains("description"));
}

#[test]
fn type_mismatch_adds_hint_but_stays_unchanged() {
    let registry = CustomAttributeRegistry {
        attributes: vec![CustomAttribute {
            name: "x".into(),
            attribute_type: CustomAttributeType::Number,
            description: None,
            deprecated: false,
        }],
    };
    let remote = vec![CustomAttribute {
        name: "x".into(),
        attribute_type: CustomAttributeType::String,
        description: None,
        deprecated: false,
    }];
    let diffs = diff_registry(Some(&registry), &remote);
    assert!(matches!(diffs[0].op, CustomAttributeOp::Unchanged));
    assert_eq!(diffs[0].hints.len(), 1);
    assert!(diffs[0].hints[0].contains("type mismatch"));
    assert!(
        diffs[0].hints[0].contains("local number vs Braze string"),
        "hint should use snake_case: {}",
        diffs[0].hints[0]
    );
}

#[test]
fn no_hints_when_fully_matching() {
    let registry = CustomAttributeRegistry {
        attributes: vec![attr("x", false, Some("desc"))],
    };
    let remote = vec![attr("x", false, Some("desc"))];
    let diffs = diff_registry(Some(&registry), &remote);
    assert!(diffs[0].hints.is_empty());
}

#[test]
fn only_registry_entries_are_reported_without_gating() {
    let make = |op: CustomAttributeOp| CustomAttributeDiff {
        name: "x".into(),
        op,
        hints: Vec::new(),
    };
    assert_eq!(
        make(CustomAttributeOp::PresentInGitOnly).drift_tier(),
        DriftTier::ReportOnly
    );
    assert_eq!(
        make(CustomAttributeOp::UnregisteredInGit).drift_tier(),
        DriftTier::Gating
    );
    assert_eq!(
        make(CustomAttributeOp::MetadataOnly).drift_tier(),
        DriftTier::Gating
    );
    assert_eq!(
        make(CustomAttributeOp::Unchanged).drift_tier(),
        DriftTier::InSync
    );
}
