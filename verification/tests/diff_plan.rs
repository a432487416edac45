use braze_sync::diff::catalog::{diff_schema, CatalogSchemaDiff};
use braze_sync::diff::content_block::ContentBlockDiff;
use braze_sync::diff::plan::{
    check_validity_window, check_version, classify, plan_temp_name, temp_sibling_dir, write_route,
    Destination, OutsideValidityWindow, PlanFile, PlanOp, PlanOpType, PlanScope,
    RemotePrecondition, WriteRoute, CURRENT_PLAN_VERSION,
};
use braze_sync::diff::{digest, DiffOp, DiffSummary, ResourceDiff};
use braze_sync::resource::{
    Catalog, CatalogField, CatalogFieldType, ContentBlock, ContentBlockState, ResourceKind,
};
use braze_sync::time::{Moment, Span};
use chrono::{DateTime, TimeDelta, Utc};

fn at(s: &str) -> Moment {
    let t: DateTime<Utc> = s.parse().unwrap();
    Moment::from_timestamp(t.timestamp(), t.timestamp_subsec_nanos()).unwrap()
}

fn span(d: TimeDelta) -> Span {
    Span::from_nanos(d.num_nanoseconds().unwrap() as i128).unwrap()
}

#[test]
fn validity_window_accepts_a_plan_inside_max_age() {
    assert!(check_validity_window(
        at("2026-09-07T00:00:00Z"),
        at("2026-09-07T00:59:00Z"),
        span(TimeDelta::hours(1)),
    )
    .is_ok());
}

#[test]
fn validity_window_accepts_a_plan_exactly_at_max_age() {
    assert!(check_validity_window(
        at("2026-09-07T00:00:00Z"),
        at("2026-09-07T01:00:00Z"),
        span(TimeDelta::hours(1)),
    )
    .is_ok());
}

#[test]
fn validity_window_rejects_a_plan_past_max_age() {
    let err = check_validity_window(
        at("2026-09-07T00:00:00Z"),
        at("2026-09-07T01:00:01Z"),
        span(TimeDelta::hours(1)),
    )
    .unwrap_err();
    assert!(matches!(err, OutsideValidityWindow::Expired { .. }));
    assert!(err.to_string().contains("--max-plan-age"));
}

#[test]
fn zero_max_age_rejects_any_elapsed_time() {
    assert!(check_validity_window(
        at("2026-09-07T00:00:00Z"),
        at("2026-09-07T00:00:01Z"),
        span(TimeDelta::zero()),
    )
    .is_err());
}

#[test]
fn validity_window_tolerates_future_generated_at_within_skew() {
    assert!(check_validity_window(
        at("2026-09-07T00:04:00Z"),
        at("2026-09-07T00:00:00Z"),
        span(TimeDelta::hours(1)),
    )
    .is_ok());
}

#[test]
fn validity_window_rejects_future_generated_at_beyond_skew() {
    let err = check_validity_window(
        at("2026-09-07T00:06:00Z"),
        at("2026-09-07T00:00:00Z"),
        span(TimeDelta::hours(1)),
    )
    .unwrap_err();
    assert!(matches!(err, OutsideValidityWindow::AheadOfClock { .. }));
    assert!(err.to_string().contains("clock"));
}

#[test]
fn a_future_plan_is_rejected_even_when_max_age_is_generous() {
    assert!(check_validity_window(
        at("2026-09-07T01:00:00Z"),
        at("2026-09-07T00:00:00Z"),
        span(TimeDelta::days(365)),
    )
    .is_err());
}

#[test]
fn validity_window_accepts_generated_at_exactly_at_skew_tolerance() {
    assert!(check_validity_window(
        at("2026-09-07T00:05:00Z"),
        at("2026-09-07T00:00:00Z"),
        span(TimeDelta::hours(1)),
    )
    .is_ok());
}

#[test]
fn a_measured_duration_is_rounded_up_so_it_never_equals_the_limit() {
    let err = check_validity_window(
        at("2026-09-07T00:00:00Z"),
        at("2026-09-07T01:00:00.400Z"),
        span(TimeDelta::hours(1)),
    )
    .unwrap_err();
    assert_eq!(
        err.to_string(),
        "generated 1h 1s ago, but --max-plan-age is 1h"
    );
}

#[test]
fn zero_max_age_still_reports_a_nonzero_age() {
    let err = check_validity_window(
        at("2026-09-07T00:00:00Z"),
        at("2026-09-07T00:00:00.400Z"),
        span(TimeDelta::zero()),
    )
    .unwrap_err();
    assert_eq!(
        err.to_string(),
        "generated 1s ago, but --max-plan-age is 0s"
    );
}

#[test]
fn ahead_of_clock_reports_the_measured_lead_and_the_configured_tolerance() {
    let err = check_validity_window(
        at("2026-09-07T00:06:00.400Z"),
        at("2026-09-07T00:00:00Z"),
        span(TimeDelta::hours(1)),
    )
    .unwrap_err();
    assert_eq!(
        err.to_string(),
        "generated_at is 6m 1s in the future (tolerance 5m) — check the \
         clock on the machine that ran `diff`"
    );
}

fn digest_like(name: &str) -> String {
    blake3::hash(name.as_bytes()).to_hex().to_string()
}

fn op(kind: ResourceKind, name: &str, op: PlanOpType) -> PlanOp {
    let precondition = match op {
        PlanOpType::Add => Some(RemotePrecondition::Absent),
        PlanOpType::Modify | PlanOpType::DestructiveDelete => {
            Some(RemotePrecondition::Digest(digest_like(name)))
        }
        _ => None,
    };
    PlanOp {
        kind,
        name: name.to_string(),
        op,
        precondition,
    }
}

fn plan_with(ops: Vec<PlanOp>) -> PlanFile {
    PlanFile {
        version: CURRENT_PLAN_VERSION,
        generated_at: at("2026-09-07T00:00:00Z"),
        braze_sync_version: "test".into(),
        scope: PlanScope {
            environment: "dev".into(),
            api_endpoint: "https://rest.iad-01.braze.com/".into(),
            resource: None,
            name: None,
        },
        ops,
    }
}

#[test]
fn a_bare_file_name_puts_the_temp_file_in_the_current_directory() {
    assert_eq!(
        temp_sibling_dir("plan.json", Some("")).unwrap(),
        "."
    );
    assert_eq!(
        temp_sibling_dir("out/plan.json", Some("out")).unwrap(),
        "out"
    );
    temp_sibling_dir("/", None).unwrap_err();
}

#[test]
fn ops_match_is_order_independent() {
    let plan = plan_with(vec![
        op(ResourceKind::ContentBlock, "a", PlanOpType::Modify),
        op(ResourceKind::CatalogSchema, "x", PlanOpType::Add),
    ]);
    let fresh = vec![
        op(ResourceKind::CatalogSchema, "x", PlanOpType::Add),
        op(ResourceKind::ContentBlock, "a", PlanOpType::Modify),
    ];
    assert!(plan.diff_ops(&fresh).is_match());
}

#[test]
fn ops_mismatch_when_op_kind_changes() {
    let plan = plan_with(vec![op(
        ResourceKind::ContentBlock,
        "a",
        PlanOpType::Modify,
    )]);
    let fresh = vec![op(ResourceKind::ContentBlock, "a", PlanOpType::Orphan)];
    let diff = plan.diff_ops(&fresh);
    assert!(!diff.is_match());
    assert_eq!(diff.missing.len(), 1);
    assert_eq!(diff.extra.len(), 1);
    assert!(diff.precondition_drift.is_empty());
}

#[test]
fn duplicate_ops_are_treated_as_multiset() {
    let plan = plan_with(vec![
        op(ResourceKind::ContentBlock, "a", PlanOpType::Modify),
        op(ResourceKind::ContentBlock, "a", PlanOpType::Modify),
    ]);
    let fresh_dup = vec![
        op(ResourceKind::ContentBlock, "a", PlanOpType::Modify),
        op(ResourceKind::ContentBlock, "a", PlanOpType::Modify),
    ];
    assert!(plan.diff_ops(&fresh_dup).is_match());

    let fresh_one = vec![op(ResourceKind::ContentBlock, "a", PlanOpType::Modify)];
    let diff = plan.diff_ops(&fresh_one);
    assert!(!diff.is_match(), "should detect missing duplicate");
    assert_eq!(diff.missing.len(), 1);
    assert!(diff.extra.is_empty());
}

#[test]
fn same_op_shape_with_changed_remote_is_drift() {
    let plan = plan_with(vec![PlanOp {
        kind: ResourceKind::ContentBlock,
        name: "hero".into(),
        op: PlanOpType::Modify,
        precondition: Some(RemotePrecondition::Digest("aaa".into())),
    }]);
    let fresh = vec![PlanOp {
        kind: ResourceKind::ContentBlock,
        name: "hero".into(),
        op: PlanOpType::Modify,
        precondition: Some(RemotePrecondition::Digest("bbb".into())),
    }];
    let diff = plan.diff_ops(&fresh);
    assert!(!diff.is_match());
    assert!(diff.missing.is_empty(), "shape is unchanged");
    assert!(diff.extra.is_empty(), "shape is unchanged");
    assert_eq!(diff.precondition_drift.len(), 1);
}

#[test]
fn validate_rejects_missing_digest() {
    let plan = plan_with(vec![PlanOp {
        kind: ResourceKind::ContentBlock,
        name: "hero".into(),
        op: PlanOpType::Modify,
        precondition: None,
    }]);
    let problems = plan.validate().unwrap_err();
    assert_eq!(problems.len(), 1);
    assert!(problems[0].contains("requires a digest"), "{problems:?}");
}

#[test]
fn validate_rejects_wrong_precondition_kind() {
    let plan = plan_with(vec![
        PlanOp {
            kind: ResourceKind::CatalogSchema,
            name: "c".into(),
            op: PlanOpType::Add,
            precondition: Some(RemotePrecondition::Digest("x".into())),
        },
        PlanOp {
            kind: ResourceKind::ContentBlock,
            name: "orphaned".into(),
            op: PlanOpType::Orphan,
            precondition: Some(RemotePrecondition::Absent),
        },
    ]);
    let problems = plan.validate().unwrap_err();
    assert_eq!(problems.len(), 2);
    assert!(problems[0].contains("requires absent"), "{problems:?}");
    assert!(problems[1].contains("must not carry"), "{problems:?}");
}

#[test]
fn validate_rejects_a_malformed_digest() {
    let plan = plan_with(vec![PlanOp {
        kind: ResourceKind::ContentBlock,
        name: "hero".into(),
        op: PlanOpType::Modify,
        precondition: Some(RemotePrecondition::Digest("aaaaaaaaaaa€zz".into())),
    }]);
    let problems = plan.validate().unwrap_err();
    assert_eq!(problems.len(), 1);
    assert!(problems[0].contains("malformed digest"), "{problems:?}");
}

#[test]
fn describe_truncates_by_character_not_byte() {
    let p = RemotePrecondition::Digest("aaaaaaaaaaa€zz".into());
    assert_eq!(p.describe(), "digest aaaaaaaaaaa€…");
    assert_eq!(
        RemotePrecondition::Digest(digest_like("hero")).describe(),
        format!("digest {}…", &digest_like("hero")[..12]),
    );
}

#[test]
fn validate_accepts_a_well_formed_plan() {
    let plan = plan_with(vec![
        op(ResourceKind::CatalogSchema, "c", PlanOpType::Add),
        op(ResourceKind::ContentBlock, "a", PlanOpType::Modify),
        op(ResourceKind::ContentBlock, "b", PlanOpType::Orphan),
        op(ResourceKind::CustomAttribute, "d", PlanOpType::Deprecate),
        op(
            ResourceKind::CatalogSchema,
            "e",
            PlanOpType::DestructiveDelete,
        ),
    ]);
    assert!(plan.validate().is_ok());
}

fn field(name: &str, field_type: CatalogFieldType) -> CatalogField {
    CatalogField {
        name: name.into(),
        field_type,
    }
}

fn catalog(name: &str, fields: Vec<CatalogField>) -> Catalog {
    Catalog {
        name: name.into(),
        description: None,
        fields,
    }
}

#[test]
fn catalog_field_removal_classifies_as_destructive() {
    let remote = catalog(
        "c",
        vec![
            field("id", CatalogFieldType::String),
            field("old", CatalogFieldType::Number),
        ],
    );
    let local = catalog("c", vec![field("id", CatalogFieldType::String)]);
    let d = diff_schema(Some(&local), Some(&remote)).unwrap();
    let (op, precondition) = classify(&ResourceDiff::CatalogSchema(d)).unwrap();
    assert_eq!(op, PlanOpType::DestructiveDelete);
    assert_eq!(
        precondition,
        Some(RemotePrecondition::Digest(digest::catalog(&remote))),
    );
}

#[test]
fn catalog_field_addition_classifies_as_modify_with_remote_digest() {
    let remote = catalog("c", vec![field("id", CatalogFieldType::String)]);
    let local = catalog(
        "c",
        vec![
            field("id", CatalogFieldType::String),
            field("new", CatalogFieldType::Number),
        ],
    );
    let d = diff_schema(Some(&local), Some(&remote)).unwrap();
    let (op, precondition) = classify(&ResourceDiff::CatalogSchema(d)).unwrap();
    assert_eq!(op, PlanOpType::Modify);
    assert_eq!(
        precondition,
        Some(RemotePrecondition::Digest(digest::catalog(&remote))),
        "precondition must digest the remote, not the local, side",
    );
}

#[test]
fn catalog_with_no_field_diffs_is_not_a_plan_op() {
    let c = catalog("c", vec![field("id", CatalogFieldType::String)]);
    let mut local = c.clone();
    local.description = Some("description-only edit".into());
    let d = diff_schema(Some(&local), Some(&c)).unwrap();
    assert!(matches!(d.op, DiffOp::Unchanged));
    assert!(classify(&ResourceDiff::CatalogSchema(d)).is_none());
}

#[test]
fn content_block_modify_digests_the_remote_side() {
    let remote = ContentBlock {
        name: "hero".into(),
        description: None,
        content: "remote".into(),
        tags: vec![],
        state: ContentBlockState::Active,
    };
    let mut local = remote.clone();
    local.content = "local".into();
    let d = braze_sync::diff::content_block::diff(Some(&local), Some(&remote)).unwrap();
    let (op, precondition) = classify(&ResourceDiff::ContentBlock(d)).unwrap();
    assert_eq!(op, PlanOpType::Modify);
    assert_eq!(
        precondition,
        Some(RemotePrecondition::Digest(digest::content_block(&remote))),
    );
    assert_ne!(
        precondition,
        Some(RemotePrecondition::Digest(digest::content_block(&local))),
    );
}

#[test]
fn orphan_carries_no_precondition() {
    let d = ContentBlockDiff::orphan("gone");
    let (op, precondition) = classify(&ResourceDiff::ContentBlock(d)).unwrap();
    assert_eq!(op, PlanOpType::Orphan);
    assert_eq!(precondition, None);
}

#[test]
fn removed_catalog_digests_the_remote_resource() {
    let remote = catalog("gone", vec![field("id", CatalogFieldType::String)]);
    let d: CatalogSchemaDiff = diff_schema(None, Some(&remote)).unwrap();
    let (op, precondition) = classify(&ResourceDiff::CatalogSchema(d)).unwrap();
    assert_eq!(op, PlanOpType::DestructiveDelete);
    assert_eq!(
        precondition,
        Some(RemotePrecondition::Digest(digest::catalog(&remote))),
    );
}

#[test]
fn plans_are_written_where_they_do_no_harm() {
    assert_eq!(
        write_route(Destination::Absent, false, false),
        WriteRoute::Replace
    );
    assert_eq!(
        write_route(Destination::Absent, true, false),
        WriteRoute::Replace
    );
    assert_eq!(
        write_route(Destination::File, false, false),
        WriteRoute::Replace
    );
    assert_eq!(
        write_route(Destination::File, true, true),
        WriteRoute::ReplaceTarget
    );
    assert_eq!(
        write_route(Destination::File, true, false),
        WriteRoute::Through
    );
    assert_eq!(
        write_route(Destination::Stream, false, false),
        WriteRoute::Through
    );
    assert_eq!(
        write_route(Destination::Stream, true, true),
        WriteRoute::Through
    );
    assert_eq!(
        write_route(Destination::Unknown, true, true),
        WriteRoute::Fail
    );
}

#[test]
fn temporary_names_carry_process_and_number() {
    assert_eq!(
        plan_temp_name("plan.json", 4711, 0xabc),
        "plan.json.tmp.4711.0000000000000abc"
    );
    assert_eq!(
        plan_temp_name("p", 0, u64::MAX),
        "p.tmp.0.ffffffffffffffff"
    );
}

#[test]
fn other_plan_versions_are_refused() {
    assert!(check_version(CURRENT_PLAN_VERSION).is_ok());
    assert_eq!(
        check_version(1).unwrap_err(),
        "plan file version 1 is not supported by this binary (expected 2). \
         Regenerate with `diff --plan-out` and review the new plan — an older \
         plan carries no evidence this binary can check."
    );
}

#[test]
fn a_plan_from_a_summary_lists_operations_in_order_and_matches_itself() {
    let remote = catalog("c", vec![field("id", CatalogFieldType::String)]);
    let summary = DiffSummary {
        diffs: vec![
            ResourceDiff::ContentBlock(ContentBlockDiff::orphan("z")),
            ResourceDiff::ContentBlock(ContentBlockDiff::orphan("a")),
            ResourceDiff::CatalogSchema(diff_schema(None, Some(&remote)).unwrap()),
            ResourceDiff::CatalogSchema(diff_schema(Some(&remote), Some(&remote)).unwrap()),
        ],
    };
    let plan = PlanFile::from_summary(
        &summary,
        "dev",
        "https://rest.iad-01.braze.com/",
        Some(ResourceKind::ContentBlock),
        None,
        at("2026-09-07T00:00:00Z"),
        "1.2.3",
    );
    let listed: Vec<(ResourceKind, &str, PlanOpType)> = plan
        .ops
        .iter()
        .map(|o| (o.kind, o.name.as_str(), o.op))
        .collect();
    assert_eq!(
        listed,
        vec![
            (ResourceKind::CatalogSchema, "c", PlanOpType::DestructiveDelete),
            (ResourceKind::ContentBlock, "a", PlanOpType::Orphan),
            (ResourceKind::ContentBlock, "z", PlanOpType::Orphan),
        ]
    );
    assert_eq!(plan.version, CURRENT_PLAN_VERSION);
    assert_eq!(plan.braze_sync_version, "1.2.3");
    assert_eq!(plan.scope.environment, "dev");
    assert!(plan.validate().is_ok());
    assert!(plan.diff_ops(&plan.ops).is_match());
}

#[test]
fn moments_and_spans_hold_their_limits() {
    let m = at("1969-12-31T23:59:59.500Z");
    assert_eq!(m.timestamp(), (-1, 500_000_000));
    assert!(Moment::from_timestamp(i64::MAX, 0).is_none());
    assert!(Moment::from_timestamp(0, 1_000_000_000).is_none());
    assert!(Span::from_nanos(i128::MAX).is_none());
    assert_eq!(
        at("2026-09-07T01:00:00Z")
            .since(at("2026-09-07T00:00:00Z"))
            .as_nanos(),
        3_600_000_000_000
    );
}

#[test]
fn durations_are_written_in_units() {
    let shown = |secs: i64| {
        let end = at("2026-09-07T00:00:00Z").timestamp().0 + secs;
        check_validity_window(
            at("2026-09-07T00:00:00Z"),
            Moment::from_timestamp(end, 0).unwrap(),
            span(TimeDelta::zero()),
        )
        .unwrap_err()
        .to_string()
    };
    for (secs, text) in [
        (1, "1s"),
        (90, "1m 30s"),
        (3_600, "1h"),
        (86_400, "1day"),
        (2 * 86_400 + 5, "2days 5s"),
        (2_630_016, "1month"),
        (31_557_600 + 2 * 2_630_016, "1year 2months"),
        (63_115_200 + 86_400 + 3_600 + 60 + 1, "2years 1day 1h 1m 1s"),
    ] {
        assert_eq!(
            shown(secs),
            format!("generated {text} ago, but --max-plan-age is 0s")
        );
    }
}
