use braze_sync::braze::content_block::ContentBlockSummary;
use braze_sync::braze::email_template::EmailTemplateSummary;
use braze_sync::braze::error::BrazeApiError;
use braze_sync::cli::apply::{
    check_for_unsupported_ops, check_plan_ops, check_plan_scope, decide, decide_run,
    enforce_tag_preflight, heading, is_applicable, next_write, order_diffs, plan_run,
    planned_writes, prepare, report_abort, warn_on_plan_metadata, ApplyDecision, PlannedWrites,
    Write, WriteStep,
};
use braze_sync::cli::diff::{
    check_drift, compute_catalog_schema_diffs, compute_content_block_plan,
    compute_email_template_plan, is_fetch_complete, shared_names, DiffArgs, Fetched,
};
use braze_sync::cli::export::{
    block_to_save, collect_local_tag_references, export_custom_attributes, export_tags,
    missing_notice, placeholders_in, prune_is_idle, should_templatize, template_to_save,
    ExportArgs, RegistryExport, RewrittenTexts, TemplatePlaceholders,
};
use braze_sync::cli::init::{
    config_action, scaffold_resource_dirs, update_gitignore, workspace_dirs, ConfigAction,
    InitArgs, OnExisting, CONFIG_TEMPLATE,
};
use braze_sync::cli::templatize::{
    closing_line, holds_placeholder, templatize_block, templatize_template, Rewrite, RunSummary,
    TemplateRewrites,
};
use braze_sync::cli::validate::{
    check_name_pattern, compile_name_pattern, conclude, open_resource_dir, report,
    validate_custom_attributes, validate_email_templates, validate_entries, validate_resources,
    validate_tag_references, RegistryRules, Rules, ValidateArgs,
};
use braze_sync::cli::{
    exit_code_for, is_name_excluded, select, selected_kinds, warn_if_name_excluded, Command,
};
use braze_sync::config::schema::{
    ApplyOrder, ConfigFile, Defaults, Environment, EnvironmentConfig, Environments, NamingConfig,
    ResourcesConfig,
};
use braze_sync::diff::catalog::diff_schema;
use braze_sync::diff::content_block::{diff as diff_block, ContentBlockDiff};
use braze_sync::diff::custom_attribute::{
    repeated_names, CustomAttributeDiff, CustomAttributeOp,
};
use braze_sync::diff::email_template::diff as diff_template;
use braze_sync::diff::plan::PlanFile;
use braze_sync::diff::tag::{TagDiff, TagOp};
use braze_sync::diff::{DiffSummary, ResourceDiff};
use braze_sync::endpoint::Endpoint;
use braze_sync::error::Error;
use braze_sync::fs::{Found, RootListing};
use braze_sync::pattern::{capture_first_groups, is_excluded, NamePattern};
use braze_sync::resource::{
    Catalog, CatalogField, CatalogFieldType, ContentBlock, ContentBlockState, CustomAttribute,
    CustomAttributeRegistry, CustomAttributeType, EmailTemplate, ResourceKind, Tag, TagRegistry,
};
use braze_sync::time::Moment;

fn at(secs: i64) -> Moment {
    Moment::from_timestamp(secs, 0).unwrap()
}

fn pattern(text: &str) -> NamePattern {
    NamePattern::compile(text).unwrap()
}

fn block(name: &str, content: &str, tags: &[&str]) -> ContentBlock {
    ContentBlock {
        name: name.into(),
        description: None,
        content: content.into(),
        tags: tags.iter().map(|t| t.to_string()).collect(),
        state: ContentBlockState::Active,
    }
}

fn template(name: &str, subject: &str, tags: &[&str]) -> EmailTemplate {
    EmailTemplate {
        name: name.into(),
        subject: subject.into(),
        body_html: "<p>x</p>".into(),
        body_plaintext: "x".into(),
        description: None,
        preheader: None,
        should_inline_css: None,
        tags: tags.iter().map(|t| t.to_string()).collect(),
    }
}

fn attribute(name: &str, deprecated: bool) -> CustomAttribute {
    CustomAttribute {
        name: name.into(),
        attribute_type: CustomAttributeType::String,
        description: None,
        deprecated,
    }
}

fn field(name: &str, field_type: CatalogFieldType) -> CatalogField {
    CatalogField {
        name: name.into(),
        field_type,
    }
}

fn catalog(name: &str, fields: Vec<CatalogField>) -> Catalog {
    Catalog {
        name: name.into(),
        description: None,
        fields,
    }
}

fn tags(names: &[&str]) -> TagRegistry {
    TagRegistry {
        tags: names
            .iter()
            .map(|n| Tag {
                name: n.to_string(),
                description: None,
            })
            .collect(),
    }
}

fn listed_block(id: &str, name: &str) -> ContentBlockSummary {
    ContentBlockSummary {
        content_block_id: id.into(),
        name: name.into(),
    }
}

fn block_diff(local: Option<&ContentBlock>, remote: Option<&ContentBlock>) -> ResourceDiff {
    ResourceDiff::ContentBlock(diff_block(local, remote).unwrap())
}

fn template_diff(local: Option<&EmailTemplate>, remote: Option<&EmailTemplate>) -> ResourceDiff {
    ResourceDiff::EmailTemplate(diff_template(local, remote).unwrap())
}

fn catalog_diff(local: Option<&Catalog>, remote: Option<&Catalog>) -> ResourceDiff {
    ResourceDiff::CatalogSchema(diff_schema(local, remote).unwrap())
}

fn attribute_diff(name: &str, op: CustomAttributeOp) -> ResourceDiff {
    ResourceDiff::CustomAttribute(CustomAttributeDiff {
        name: name.into(),
        op,
        hints: vec![],
    })
}

#[test]
fn exit_code_for_unauthorized() {
    let err = Error::Api(BrazeApiError::Unauthorized);
    assert_eq!(exit_code_for(&err), 4);
}

#[test]
fn exit_code_for_rate_limit_exhausted() {
    let err = Error::Api(BrazeApiError::RateLimitExhausted);
    assert_eq!(exit_code_for(&err), 5);
}

#[test]
fn exit_code_for_drift_detected() {
    let err = Error::DriftDetected { count: 3 };
    assert_eq!(exit_code_for(&err), 2);
}

#[test]
fn exit_code_for_destructive_blocked() {
    assert_eq!(exit_code_for(&Error::DestructiveBlocked), 6);
}

#[test]
fn exit_code_for_missing_env() {
    assert_eq!(exit_code_for(&Error::MissingEnv("X".into())), 3);
}

#[test]
fn exit_code_for_config_error() {
    assert_eq!(exit_code_for(&Error::Config("oops".into())), 3);
}

#[test]
fn exit_code_for_api_wrapped_unauthorized_unwraps_to_4() {
    let err = Error::Api(BrazeApiError::Unauthorized);
    assert_eq!(exit_code_for(&err), 4);
}

#[test]
fn exit_code_for_other_anyhow_is_one() {
    let err = Error::Other("some random failure".into());
    assert_eq!(exit_code_for(&err), 1);
}

#[test]
fn the_other_exit_codes() {
    assert_eq!(exit_code_for(&Error::PlanDrift), 7);
    assert_eq!(exit_code_for(&Error::FallbackGated { count: 1 }), 8);
    assert_eq!(exit_code_for(&Error::RateLimitExhausted { retries: 3 }), 5);
    assert_eq!(exit_code_for(&Error::Io("x".into())), 1);
}

#[test]
fn errors_read_as_documented() {
    assert_eq!(
        Error::DriftDetected { count: 3 }.to_string(),
        "Drift detected in 3 resource(s)"
    );
    assert_eq!(
        Error::MissingEnv("X".into()).to_string(),
        "Missing environment variable: X"
    );
    assert_eq!(
        Error::YamlParse {
            path: "a.yaml".into(),
            source: "bad".into()
        }
        .to_string(),
        "YAML parse error in a.yaml: bad"
    );
    assert_eq!(
        Error::CsvParse {
            path: "a.csv".into(),
            source: "bad".into()
        }
        .to_string(),
        "CSV parse error in a.csv: bad"
    );
    assert_eq!(
        Error::Api(BrazeApiError::Unauthorized).to_string(),
        "Braze API error: authentication failed (invalid api key)"
    );
    assert_eq!(
        Error::RateLimitExhausted { retries: 4 }.to_string(),
        "Rate limit exhausted after 4 retries"
    );
    assert_eq!(Error::Io("gone".into()).to_string(), "I/O error: gone");
    assert_eq!(
        Error::DestructiveBlocked.to_string(),
        "Destructive change blocked: pass --allow-destructive to proceed"
    );
}

#[test]
fn config_template_parses_as_valid_config() {
    let v: serde_norway::Value = serde_norway::from_str(CONFIG_TEMPLATE).unwrap();
    assert_eq!(v["version"].as_u64(), Some(1));
    assert_eq!(v["default_environment"].as_str(), Some("dev"));
    let dev = &v["environments"]["dev"];
    let cfg = ConfigFile {
        version: v["version"].as_u64().unwrap() as u32,
        default_environment: v["default_environment"].as_str().unwrap().into(),
        defaults: Defaults::default(),
        environments: Environments::from_list(vec![Environment {
            name: "dev".into(),
            config: EnvironmentConfig {
                api_endpoint: Endpoint::parse(dev["api_endpoint"].as_str().unwrap()).unwrap(),
                api_key_env: dev["api_key_env"].as_str().unwrap().into(),
                values_file: None,
            },
        }]),
        resources: ResourcesConfig::default(),
        naming: NamingConfig::default(),
    };
    cfg.validate_static().expect("template must load cleanly");
    for kind in ResourceKind::all() {
        if let Some(section) = v["resources"].get(kind.as_str()) {
            assert_eq!(
                section["path"].as_str().unwrap(),
                cfg.resources.for_kind(kind).path
            );
        }
    }
}

#[test]
fn gitignore_entries_added_on_fresh_file() {
    let content = update_gitignore("").unwrap();
    assert_eq!(content, "# braze-sync\n.env\n.env.*\n");
}

#[test]
fn gitignore_idempotent_on_second_run() {
    let first = update_gitignore("").unwrap();
    assert_eq!(update_gitignore(&first), None, "second run should be a no-op");
}

#[test]
fn gitignore_preserves_existing_content() {
    let existing = "target/\ndist/\n";
    let content = format!("{existing}{}", update_gitignore(existing).unwrap());
    assert!(content.contains("target/"), "existing entry must survive");
    assert!(content.contains("dist/"));
    assert!(content.contains(".env"));
}

#[test]
fn gitignore_skips_already_present_entry() {
    let existing = ".env\n";
    let content = format!("{existing}{}", update_gitignore(existing).unwrap());
    let count = content.lines().filter(|l| l.trim() == ".env").count();
    assert_eq!(count, 1, "should not duplicate .env");
    assert!(content.contains(".env.*"));
}

#[test]
fn gitignore_without_a_last_line_break_is_set_apart() {
    assert_eq!(
        update_gitignore("target").unwrap(),
        "\n\n# braze-sync\n.env\n.env.*\n"
    );
}

#[test]
fn scaffold_creates_all_four_dirs() {
    let created = scaffold_resource_dirs(&vec![]);
    assert_eq!(created.len(), 4);
    assert_eq!(
        created,
        vec![
            "catalogs",
            "content_blocks",
            "email_templates",
            "custom_attributes"
        ]
    );
}

#[test]
fn scaffold_is_idempotent() {
    let created = scaffold_resource_dirs(&workspace_dirs());
    assert_eq!(created.len(), 0, "second run creates nothing");
    assert_eq!(
        scaffold_resource_dirs(&vec!["catalogs".to_string()]).len(),
        3
    );
}

#[test]
fn write_config_refuses_to_overwrite_without_force() {
    match config_action("braze-sync.config.yaml", true, OnExisting::Fail) {
        ConfigAction::Refuse { message } => assert!(message.contains("--force")),
        other => panic!("expected a refusal, got {other:?}"),
    }
}

#[test]
fn write_config_overwrites_with_force() {
    let action = config_action("braze-sync.config.yaml", true, OnExisting::Overwrite);
    assert!(matches!(action, ConfigAction::Overwrite { .. }));
    assert!(CONFIG_TEMPLATE.contains("braze-sync configuration"));
}

#[test]
fn write_config_keeps_existing_on_keep() {
    let action = config_action("braze-sync.config.yaml", true, OnExisting::Keep);
    assert_eq!(action, ConfigAction::Keep, "existing config should be kept");
}

#[test]
fn write_config_writes_fresh_on_keep_when_no_existing() {
    let action = config_action("braze-sync.config.yaml", false, OnExisting::Keep);
    assert_eq!(action, ConfigAction::Write);
}

#[test]
fn flags_choose_what_happens_to_a_config() {
    let args = |force: bool, from_existing: bool| InitArgs {
        force,
        from_existing,
    };
    assert_eq!(args(true, true).on_existing(), OnExisting::Overwrite);
    assert_eq!(args(false, true).on_existing(), OnExisting::Keep);
    assert_eq!(args(false, false).on_existing(), OnExisting::Fail);
}

#[test]
fn local_commands_need_no_api_key() {
    assert!(Command::Export(ExportArgs::default()).needs_api_key());
    assert!(Command::Diff(DiffArgs {
        resource: None,
        name: None,
        fail_on_drift: false,
        only_drift: false,
        plan_out: None,
    })
    .needs_api_key());
    assert!(!Command::Validate(ValidateArgs { resource: None }).needs_api_key());
}

#[test]
fn selected_kinds_are_the_enabled_ones() {
    let mut resources = ResourcesConfig::default();
    resources.email_template.enabled = false;
    assert_eq!(
        selected_kinds(None, &resources),
        vec![
            ResourceKind::CatalogSchema,
            ResourceKind::ContentBlock,
            ResourceKind::CustomAttribute
        ]
    );
    resources.tag.enabled = true;
    assert_eq!(selected_kinds(None, &resources).len(), 4);
    assert_eq!(
        selected_kinds(Some(ResourceKind::EmailTemplate), &resources),
        vec![ResourceKind::EmailTemplate]
    );
}

#[test]
fn excluded_names_take_no_part() {
    let excludes = vec![pattern("^tmp_")];
    let items = || {
        vec![
            block("tmp_a", "", &[]),
            block("b", "", &[]),
            block("c", "", &[]),
        ]
    };
    let names = |v: Vec<ContentBlock>| v.into_iter().map(|b| b.name).collect::<Vec<_>>();
    assert_eq!(names(select(items(), None, &excludes)), vec!["b", "c"]);
    assert_eq!(names(select(items(), Some("c"), &excludes)), vec!["c"]);
    assert!(names(select(items(), Some("tmp_a"), &excludes)).is_empty());
    assert!(is_name_excluded(Some("tmp_a"), &excludes));
    assert!(!is_name_excluded(Some("b"), &excludes));
    assert!(!is_name_excluded(None, &excludes));
    assert!(is_excluded("tmp_a", &excludes));
    assert_eq!(excludes[0].as_str(), "^tmp_");
    assert!(NamePattern::compile("[").is_err());
    assert_eq!(
        capture_first_groups("<([a-z]+)>", "<a> b <c>"),
        vec!["a", "c"]
    );
    assert_eq!(capture_first_groups("a(b)?", "ab a ab"), vec!["b", "b"]);
    assert!(capture_first_groups("a(", "a").is_empty());
}

#[test]
fn catalogs_of_both_sides_are_paired() {
    let local = vec![
        catalog("b", vec![field("id", CatalogFieldType::String)]),
        catalog("a", vec![]),
    ];
    let remote = vec![catalog("c", vec![]), catalog("a", vec![])];
    let diffs = compute_catalog_schema_diffs(&local, &remote);
    let names: Vec<&str> = diffs.iter().map(|d| d.name()).collect();
    assert_eq!(names, vec!["a", "b", "c"]);
    assert!(!diffs[0].has_changes());
    assert!(diffs[1].is_actionable());
    assert!(diffs[2].has_destructive());
}

#[test]
fn blocks_are_fetched_where_both_sides_have_them() {
    let local = vec![block("both", "new", &[]), block("mine", "x", &[])];
    let listed = vec![listed_block("1", "both"), listed_block("2", "theirs")];
    assert_eq!(shared_names(&local, &listed), vec!["both"]);
    let none: Vec<Fetched<ContentBlock>> = vec![];
    assert!(!is_fetch_complete(&local, &listed, &none));
    let fetched = vec![Fetched {
        name: "both".into(),
        value: block("both", "old", &[]),
    }];
    assert!(is_fetch_complete(&local, &listed, &fetched));
    let diffs = compute_content_block_plan(&local, &listed, &fetched);
    let names: Vec<&str> = diffs.iter().map(|d| d.name()).collect();
    assert_eq!(names, vec!["both", "mine", "theirs"]);
    assert!(diffs[0].is_actionable());
    assert!(diffs[1].is_actionable());
    assert!(diffs[2].is_orphan());
}

#[test]
fn templates_are_fetched_where_both_sides_have_them() {
    let local = vec![template("both", "s", &[])];
    let listed = vec![
        EmailTemplateSummary {
            email_template_id: "1".into(),
            name: "both".into(),
        },
        EmailTemplateSummary {
            email_template_id: "2".into(),
            name: "theirs".into(),
        },
    ];
    let fetched = vec![Fetched {
        name: "both".into(),
        value: template("both", "s", &[]),
    }];
    assert!(is_fetch_complete(&local, &listed, &fetched));
    let diffs = compute_email_template_plan(&local, &listed, &fetched);
    assert_eq!(diffs.len(), 2);
    assert!(!diffs[0].has_changes());
    assert!(diffs[1].is_orphan());
}

#[test]
fn drift_fails_only_where_that_was_asked_for() {
    let drift = DiffSummary {
        diffs: vec![
            ResourceDiff::ContentBlock(ContentBlockDiff::orphan("x")),
            attribute_diff("a", CustomAttributeOp::PresentInGitOnly),
        ],
    };
    assert!(check_drift(&drift, false).is_ok());
    match check_drift(&drift, true) {
        Err(Error::DriftDetected { count }) => assert_eq!(count, 1),
        other => panic!("expected DriftDetected, got {other:?}"),
    }
    let report_only = DiffSummary {
        diffs: vec![attribute_diff("a", CustomAttributeOp::PresentInGitOnly)],
    };
    assert!(check_drift(&report_only, true).is_ok());
}

#[test]
fn apply_is_a_dry_run_unless_confirmed() {
    let b = block("a", "x", &[]);
    let some = DiffSummary {
        diffs: vec![block_diff(Some(&b), None)],
    };
    assert_eq!(decide(&some, false, false).unwrap(), ApplyDecision::DryRun);
    assert_eq!(decide(&some, true, false).unwrap(), ApplyDecision::Write);
    let none = DiffSummary { diffs: vec![] };
    assert_eq!(
        decide(&none, true, true).unwrap(),
        ApplyDecision::Nothing { drift: false }
    );
    let orphan = DiffSummary {
        diffs: vec![ResourceDiff::ContentBlock(ContentBlockDiff::orphan("x"))],
    };
    let d = decide(&orphan, true, true).unwrap();
    assert_eq!(d, ApplyDecision::Nothing { drift: true });
    assert!(d.message().unwrap().contains("export"));
    assert_eq!(
        ApplyDecision::DryRun.message(),
        Some("DRY RUN — pass --confirm to apply these changes.")
    );
    assert_eq!(ApplyDecision::Write.message(), None);
}

#[test]
fn losing_data_needs_permission() {
    let c = catalog("c", vec![field("id", CatalogFieldType::String)]);
    let s = DiffSummary {
        diffs: vec![catalog_diff(None, Some(&c))],
    };
    assert_eq!(
        decide(&s, true, false).unwrap_err(),
        Error::DestructiveBlocked
    );
    assert_eq!(decide(&s, true, true).unwrap(), ApplyDecision::Write);
}

#[test]
fn type_changes_are_refused() {
    let l = catalog("c", vec![field("v", CatalogFieldType::Number)]);
    let r = catalog("c", vec![field("v", CatalogFieldType::String)]);
    let s = DiffSummary {
        diffs: vec![catalog_diff(Some(&l), Some(&r))],
    };
    let err = check_for_unsupported_ops(&s).unwrap_err();
    let msg = err.to_string();
    assert!(msg.contains("field 'v' on catalog 'c'"), "{msg}");
    assert!(msg.contains("string → number"), "{msg}");
    assert_eq!(decide(&s, true, true).unwrap_err(), err);
}

#[test]
fn undeclared_tags_stop_apply() {
    let b = block("promo", "x", &["known", "new", "skip_me"]);
    let t = template("welcome", "s", &["new"]);
    let s = DiffSummary {
        diffs: vec![block_diff(Some(&b), None), template_diff(Some(&t), None)],
    };
    let registry = tags(&["known"]);
    let excludes = vec![pattern("^skip_")];
    let err = enforce_tag_preflight(true, Some(&registry), &excludes, &s).unwrap_err();
    let msg = err.to_string();
    assert!(
        msg.contains(
            "  • 'new' — referenced by:\n      - content_block 'promo'\n      - email_template 'welcome'\n"
        ),
        "{msg}"
    );
    assert!(!msg.contains("'known'"), "{msg}");
    assert!(!msg.contains("skip_me"), "{msg}");
    assert!(enforce_tag_preflight(false, Some(&registry), &excludes, &s).is_ok());
    let all = tags(&["known", "new"]);
    assert!(enforce_tag_preflight(true, Some(&all), &excludes, &s).is_ok());
    assert!(enforce_tag_preflight(true, None, &excludes, &s).is_ok());
}

#[test]
fn writes_follow_the_summary() {
    let new_block = block("new", "x", &[]);
    let old_block = block("promo", "old", &[]);
    let changed = block("promo", "new", &[]);
    let tpl = template("welcome", "s", &[]);
    let local = catalog(
        "c",
        vec![
            field("id", CatalogFieldType::String),
            field("plus", CatalogFieldType::Number),
        ],
    );
    let remote = catalog(
        "c",
        vec![
            field("id", CatalogFieldType::String),
            field("gone", CatalogFieldType::String),
        ],
    );
    let s = DiffSummary {
        diffs: vec![
            catalog_diff(Some(&local), Some(&remote)),
            block_diff(Some(&new_block), None),
            block_diff(Some(&changed), Some(&old_block)),
            ResourceDiff::ContentBlock(ContentBlockDiff::orphan("orphan")),
            template_diff(Some(&tpl), None),
            attribute_diff(
                "a",
                CustomAttributeOp::DeprecationToggled {
                    from: false,
                    to: true,
                },
            ),
            attribute_diff(
                "b",
                CustomAttributeOp::DeprecationToggled {
                    from: true,
                    to: false,
                },
            ),
            ResourceDiff::Tag(TagDiff {
                name: "t".into(),
                op: TagOp::RegisteredButUnreferenced,
                hints: vec![],
            }),
        ],
    };
    assert!(is_applicable(&s));
    let blocks = vec![listed_block("id-promo", "promo")];
    let planned = planned_writes(&s, Some(&blocks), Some(&vec![]));
    assert_eq!(planned.stop, None);
    let writes = planned.writes;
    let labels: Vec<String> = writes.iter().map(|w| w.label()).collect();
    assert_eq!(
        labels,
        vec![
            "catalog_schema 'c' field 'plus'",
            "catalog_schema 'c' field 'gone'",
            "content_block 'new'",
            "content_block 'promo'",
            "email_template 'welcome'",
            "custom_attribute 'a'",
            "custom_attribute 'b'",
        ]
    );
    assert!(matches!(&writes[3], Write::UpdateBlock { id, .. } if id == "id-promo"));
    assert!(matches!(
        &writes[5],
        Write::SetDeprecated {
            deprecated: true,
            ..
        }
    ));
    assert_eq!(writes.iter().map(|w| w.changes()).sum::<usize>(), 7);
    let cut = planned_writes(&s, Some(&vec![]), Some(&vec![]));
    assert_eq!(
        cut.stop.as_deref(),
        Some("internal: modified content block 'promo' missing from id index")
    );
    let labels: Vec<String> = cut.writes.iter().map(|w| w.label()).collect();
    assert_eq!(
        labels,
        vec![
            "catalog_schema 'c' field 'plus'",
            "catalog_schema 'c' field 'gone'",
            "content_block 'new'",
        ]
    );
    assert_eq!(
        planned_writes(&s, None, None).stop.as_deref(),
        Some("internal: content_block id index missing for modified apply path")
    );
}

#[test]
fn a_template_with_no_id_ends_the_run_at_its_turn() {
    let old = template("welcome", "Hi", &[]);
    let new = template("welcome", "Hello", &[]);
    let fresh = block("first", "x", &[]);
    let s = DiffSummary {
        diffs: vec![
            block_diff(Some(&fresh), None),
            template_diff(Some(&new), Some(&old)),
            attribute_diff(
                "a",
                CustomAttributeOp::DeprecationToggled {
                    from: false,
                    to: true,
                },
            ),
        ],
    };
    let cut = planned_writes(&s, Some(&vec![]), Some(&vec![]));
    assert_eq!(cut.writes.len(), 1);
    assert_eq!(
        cut.stop.as_deref(),
        Some("internal: modified email template 'welcome' missing from id index")
    );
    assert_eq!(next_write(&cut, 0, None, false), WriteStep::Issue(0));
    match next_write(&cut, 1, None, false) {
        WriteStep::Stop(m) => assert!(m.contains("'welcome'"), "{m}"),
        other => panic!("{other:?}"),
    }
    assert_eq!(
        planned_writes(&s, None, None).stop.as_deref(),
        Some("internal: email_template id index missing for modified apply path")
    );
    let ids = vec![EmailTemplateSummary {
        email_template_id: "id-1".into(),
        name: "welcome".into(),
    }];
    let whole = planned_writes(&s, None, Some(&ids));
    assert_eq!(whole.stop, None);
    assert_eq!(whole.writes.len(), 3);
}

#[test]
fn a_type_change_ends_the_run_after_the_fields_before_it() {
    let local = catalog(
        "c",
        vec![
            field("a", CatalogFieldType::String),
            field("b", CatalogFieldType::Number),
            field("d", CatalogFieldType::Number),
        ],
    );
    let remote = catalog("c", vec![field("b", CatalogFieldType::String)]);
    let s = DiffSummary {
        diffs: vec![catalog_diff(Some(&local), Some(&remote))],
    };
    let cut = planned_writes(&s, None, None);
    assert_eq!(cut.writes.len(), 1);
    assert_eq!(cut.writes[0].label(), "catalog_schema 'c' field 'a'");
    assert_eq!(
        cut.stop.as_deref(),
        Some(
            "internal: Modified field op should have been rejected by check_for_unsupported_ops"
        )
    );
}

#[test]
fn a_run_stops_at_the_first_failed_write() {
    let planned = PlannedWrites {
        writes: vec![
            Write::CreateBlock(block("header", "x", &[])),
            Write::CreateBlock(block("promo", "x", &[])),
            Write::CreateBlock(block("footer", "x", &[])),
        ],
        stop: None,
    };
    assert_eq!(next_write(&planned, 0, None, false), WriteStep::Issue(0));
    assert_eq!(next_write(&planned, 1, None, false), WriteStep::Issue(1));
    assert_eq!(
        next_write(&planned, 2, Some("no"), false),
        WriteStep::Abort(report_abort(&planned.writes, 1, "no", false))
    );
    assert_eq!(
        next_write(&planned, 1, Some("no"), true),
        WriteStep::Abort(report_abort(&planned.writes, 0, "no", true))
    );
    assert_eq!(next_write(&planned, 3, None, false), WriteStep::Done);
}

#[test]
fn excluded_names_are_pointed_out() {
    let excludes = vec![pattern("^tmp_")];
    assert_eq!(
        warn_if_name_excluded(ResourceKind::ContentBlock, Some("tmp_a"), &excludes).as_deref(),
        Some("⚠ content_block: 'tmp_a' matches exclude_patterns; skipping")
    );
    assert_eq!(
        warn_if_name_excluded(ResourceKind::ContentBlock, Some("a"), &excludes),
        None
    );
    assert_eq!(
        warn_if_name_excluded(ResourceKind::ContentBlock, None, &excludes),
        None
    );
}

#[test]
fn exclude_patterns_are_compiled_in_order() {
    let mut resources = ResourcesConfig::default();
    resources.tag.exclude_patterns = vec!["^a".into(), "b$".into()];
    let compiled = resources.excludes_for(ResourceKind::Tag).ok().unwrap();
    let texts: Vec<&str> = compiled.iter().map(|p| p.as_str()).collect();
    assert_eq!(texts, vec!["^a", "b$"]);
    assert!(resources
        .excludes_for(ResourceKind::ContentBlock)
        .ok()
        .unwrap()
        .is_empty());
    resources.tag.exclude_patterns = vec!["^a".into(), "[".into(), "(".into()];
    match resources.excludes_for(ResourceKind::Tag) {
        Err(Error::Config(m)) => assert!(
            m.starts_with("resources.tag.exclude_patterns: invalid regex \"[\": "),
            "{m}"
        ),
        _ => panic!("the second pattern does not compile"),
    }
}

#[test]
fn an_abort_names_every_write() {
    let writes = vec![
        Write::CreateBlock(block("header", "x", &[])),
        Write::CreateBlock(block("promo", "x", &[])),
        Write::CreateBlock(block("footer", "x", &[])),
    ];
    assert_eq!(
        report_abort(&writes, 1, "HTTP 400 Bad Request: no", false),
        "✗ apply aborted — partial state left in Braze (no cross-resource rollback):\n\
         \x20 applied (1):\n\
         \x20   - content_block 'header'\n\
         \x20 failed (may or may not have landed):\n\
         \x20   - content_block 'promo': HTTP 400 Bad Request: no\n\
         \x20 not attempted (1):\n\
         \x20   - content_block 'footer'\n\
         \x20 → the applied writes above are live and are not rolled back.\n\
         \x20 → a failed write is not proof that nothing changed: Braze can\n\
         \x20   commit a write whose response never reaches the client.\n\
         \x20   Run `braze-sync diff` to confirm the current remote state, then\n\
         \x20   re-run `apply` with the same flags to pick up the changes that\n\
         \x20   were not attempted.\n"
    );
    let first = report_abort(&writes, 0, "no", true);
    assert!(first.contains("the first write failed"), "{first}");
    assert!(first.contains("diff --plan-out"), "{first}");
}

fn plan(diffs: Vec<ResourceDiff>) -> PlanFile {
    PlanFile::from_summary(
        &DiffSummary { diffs },
        "dev",
        "https://rest.iad-01.braze.com/",
        Some(ResourceKind::ContentBlock),
        None,
        at(0),
        "1.0.0",
    )
}

#[test]
fn a_plan_only_applies_in_its_scope() {
    let p = plan(vec![]);
    let endpoint = "https://rest.iad-01.braze.com/";
    let kind = Some(ResourceKind::ContentBlock);
    assert!(check_plan_scope(&p, "dev", endpoint, kind, None).is_ok());
    let refused = check_plan_scope(&p, "prod", endpoint, kind, None).unwrap_err();
    assert_eq!(refused.error, Error::PlanDrift);
    assert_eq!(
        refused.notice,
        "✗ plan drift: plan was generated for environment 'dev' but apply targets 'prod'"
    );
    assert!(check_plan_scope(&p, "dev", "https://other/", kind, None).is_err());
    let refused = check_plan_scope(&p, "dev", endpoint, None, None).unwrap_err();
    assert!(
        refused.notice.contains("--resource=Some(\"content_block\")"),
        "{}",
        refused.notice
    );
    let refused = check_plan_scope(&p, "dev", endpoint, kind, Some("x")).unwrap_err();
    assert!(
        refused.notice.contains("--name=Some(\"x\")"),
        "{}",
        refused.notice
    );
}

#[test]
fn a_plan_of_another_version_has_no_scope() {
    let mut p = plan(vec![]);
    p.version = 1;
    let refused = check_plan_scope(&p, "prod", "https://other/", None, None).unwrap_err();
    assert_eq!(refused.notice, "");
    assert_eq!(
        refused.error,
        Error::Other(
            "plan file version 1 is not supported by this binary (expected 2). \
             Regenerate with `diff --plan-out`."
                .into()
        )
    );
}

#[test]
fn old_plans_are_pointed_out() {
    let p = plan(vec![]);
    assert!(warn_on_plan_metadata(&p, "1.0.0", at(3600)).is_empty());
    let w = warn_on_plan_metadata(&p, "1.0.1", at(25 * 3600));
    assert_eq!(w.len(), 2);
    assert!(w[0].contains("1.0.1"), "{}", w[0]);
    assert!(w[1].contains("25 hour(s) old"), "{}", w[1]);
}

#[test]
fn a_plan_holds_while_the_world_does() {
    let local = block("promo", "new", &[]);
    let remote = block("promo", "old", &[]);
    let moved = block("promo", "other", &[]);
    let p = plan(vec![block_diff(Some(&local), Some(&remote))]);
    let same = DiffSummary {
        diffs: vec![block_diff(Some(&local), Some(&remote))],
    };
    assert!(check_plan_ops(&p, &same).is_ok());
    let edited = block("promo", "newer", &[]);
    let still = DiffSummary {
        diffs: vec![block_diff(Some(&edited), Some(&remote))],
    };
    assert!(check_plan_ops(&p, &still).is_ok());
    let drifted = DiffSummary {
        diffs: vec![block_diff(Some(&local), Some(&moved))],
    };
    let refused = check_plan_ops(&p, &drifted).unwrap_err();
    assert_eq!(refused.error, Error::PlanDrift);
    assert!(
        refused.notice.contains("remote side moved"),
        "{}",
        refused.notice
    );
    let gone = DiffSummary { diffs: vec![] };
    let refused = check_plan_ops(&p, &gone).unwrap_err();
    assert!(
        refused
            .notice
            .contains("    - content_block 'promo' [Modify]\n"),
        "{}",
        refused.notice
    );
}

#[test]
fn an_export_keeps_what_braze_has_not_seen() {
    let local = || {
        Ok(Some(CustomAttributeRegistry {
            attributes: vec![attribute("planned", false), attribute("seen", false)],
        }))
    };
    let returned = || {
        vec![
            attribute("seen", true),
            attribute("fresh", false),
            attribute("tmp_x", false),
        ]
    };
    let excludes = vec![pattern("^tmp_")];
    let (registry, done) =
        export_custom_attributes(returned(), &excludes, local(), false).unwrap();
    let names: Vec<&str> = registry.attributes.iter().map(|a| a.name.as_str()).collect();
    assert_eq!(names, vec!["fresh", "planned", "seen"]);
    assert!(registry.attributes[2].deprecated);
    assert_eq!(
        done,
        RegistryExport {
            refreshed: 2,
            kept: 1,
            removed: 0
        }
    );
    assert_eq!(done.written(), 3);
    assert_eq!(
        done.summary_line(),
        "✓ custom_attribute: refreshed 2 from Braze, kept 1 registry-only entry"
    );
    let (registry, done) = export_custom_attributes(returned(), &excludes, local(), true).unwrap();
    assert_eq!(registry.attributes.len(), 2);
    assert_eq!(done.removed, 1);
    assert_eq!(
        done.summary_line(),
        "✓ custom_attribute: refreshed 2 from Braze, removed 1 registry entry \
         this workspace does not have (--prune)"
    );
}

#[test]
fn an_unreadable_registry_stops_an_export_unless_pruned() {
    let broken = || {
        Err(Error::YamlParse {
            path: "registry.yaml".into(),
            source: "bad".into(),
        })
    };
    assert!(export_custom_attributes(vec![], &vec![], broken(), false).is_err());
    let (registry, done) = export_custom_attributes(vec![], &vec![], broken(), true).unwrap();
    assert!(registry.attributes.is_empty());
    assert_eq!(
        done.summary_line(),
        "✓ custom_attribute: exported 0 attribute(s)"
    );
}

#[test]
fn pruning_means_custom_attributes() {
    assert!(prune_is_idle(true, &vec![ResourceKind::Tag]));
    assert!(!prune_is_idle(true, &vec![ResourceKind::CustomAttribute]));
    assert!(!prune_is_idle(false, &vec![ResourceKind::Tag]));
}

#[test]
fn exported_tags_are_the_referenced_ones() {
    let blocks = vec![block("a", "", &["z", "a"]), block("b", "", &["a", "tmp_1"])];
    let templates = vec![template("t", "s", &["m"])];
    let references = collect_local_tag_references(&blocks, &templates);
    assert_eq!(references, vec!["a", "m", "tmp_1", "z"]);
    let registry = export_tags(&references, &vec![pattern("^tmp_")]);
    let names: Vec<&str> = registry.tags.iter().map(|t| t.name.as_str()).collect();
    assert_eq!(names, vec!["a", "m", "z"]);
}

#[test]
fn local_files_decide_about_placeholders() {
    assert!(should_templatize(None));
    assert!(should_templatize(Some(true)));
    assert!(!should_templatize(Some(false)));
    let remote = block("a", "raw", &[]);
    assert_eq!(
        block_to_save(&remote, None, "rewritten".into()).content,
        "rewritten"
    );
    assert_eq!(
        block_to_save(&remote, Some(false), "rewritten".into()).content,
        "raw"
    );
    let t = template("t", "raw", &[]);
    let rewritten = || RewrittenTexts {
        subject: "S".into(),
        body_html: "H".into(),
        body_plaintext: "P".into(),
        preheader: Some("R".into()),
    };
    assert_eq!(template_to_save(&t, None, rewritten()).subject, "S");
    let saved = template_to_save(
        &t,
        Some(TemplatePlaceholders {
            subject: false,
            body_html: true,
            body_plaintext: false,
            preheader: Some(false),
        }),
        rewritten(),
    );
    assert_eq!(saved.subject, "raw");
    assert_eq!(saved.body_html, "H");
    assert_eq!(saved.body_plaintext, "x");
    assert_eq!(saved.preheader, None);
}

#[test]
fn validation_names_what_is_wrong() {
    let p = pattern("^[a-z_]+$");
    let none: Vec<NamePattern> = vec![];
    let rules = Rules {
        label: "content block",
        place: "file stem",
        pattern: Some(&p),
        key: "content_block_name_pattern",
        excludes: &none,
    };
    let found = vec![
        Found {
            path: "a.liquid".into(),
            expected_name: "a".into(),
            value: Ok(block("a", "", &[])),
        },
        Found {
            path: "b.liquid".into(),
            expected_name: "b".into(),
            value: Ok(block("B-1", "", &[])),
        },
        Found {
            path: "c.liquid".into(),
            expected_name: "c".into(),
            value: Err(Error::Other("broken".into())),
        },
    ];
    let mut issues = vec![];
    validate_resources(&found, &rules, &mut issues);
    let lines: Vec<(&str, &str)> = issues
        .iter()
        .map(|i| (i.path.as_str(), i.message.as_str()))
        .collect();
    assert_eq!(
        lines,
        vec![
            (
                "b.liquid",
                "content block name 'B-1' does not match its file stem 'b'"
            ),
            (
                "b.liquid",
                "content block name 'B-1' does not match content_block_name_pattern '^[a-z_]+$'"
            ),
            ("c.liquid", "parse error: broken"),
        ]
    );
    assert_eq!(exit_code_for(&conclude(&issues).unwrap_err()), 3);
    assert!(report(&issues).starts_with("✗ Validation found 3 issue(s):\n  • b.liquid: "));
    assert!(conclude(&vec![]).is_ok());
    assert_eq!(report(&vec![]), "✓ All checks passed.\n");
}

#[test]
fn validation_skips_what_is_managed_elsewhere() {
    let excludes = vec![pattern("^B")];
    let rules = Rules {
        label: "content block",
        place: "file stem",
        pattern: None,
        key: "content_block_name_pattern",
        excludes: &excludes,
    };
    let found = vec![Found {
        path: "b.liquid".into(),
        expected_name: "b".into(),
        value: Ok(block("B-1", "", &[])),
    }];
    let mut issues = vec![];
    validate_resources(&found, &rules, &mut issues);
    assert!(issues.is_empty());
}

#[test]
fn templates_need_a_subject() {
    let found = vec![Found {
        path: "t".into(),
        expected_name: "t".into(),
        value: Ok(template("t", "", &[])),
    }];
    let mut issues = vec![];
    validate_email_templates(&found, &vec![], &mut issues);
    assert_eq!(issues.len(), 1);
    assert_eq!(issues[0].message, "email template 't' has an empty subject");
}

#[test]
fn registries_list_a_name_once() {
    let none: Vec<NamePattern> = vec![];
    let path = "custom_attributes/registry.yaml";
    let registry = || CustomAttributeRegistry {
        attributes: vec![
            attribute("a", false),
            attribute("b", false),
            attribute("a", true),
        ],
    };
    let mut issues = vec![];
    validate_custom_attributes(Ok(Some(registry())), path, None, &none, &mut issues).unwrap();
    assert_eq!(issues.len(), 1);
    assert_eq!(issues[0].path, path);
    assert_eq!(issues[0].message, "duplicate custom attribute name 'a'");
    assert_eq!(repeated_names(&registry()), vec!["a"]);
    let mut issues = vec![];
    validate_custom_attributes(Ok(Some(registry())), path, Some("^a$"), &none, &mut issues)
        .unwrap();
    assert_eq!(issues.len(), 2);
    assert_eq!(
        issues[0].message,
        "custom attribute name 'b' does not match custom_attribute_name_pattern '^a$'"
    );
}

#[test]
fn a_pattern_counts_only_where_there_is_a_registry() {
    let none: Vec<NamePattern> = vec![];
    let mut issues = vec![];
    validate_custom_attributes(Ok(None), "r.yaml", Some("["), &none, &mut issues).unwrap();
    assert!(issues.is_empty());
    let empty = CustomAttributeRegistry { attributes: vec![] };
    match validate_custom_attributes(Ok(Some(empty)), "r.yaml", Some("["), &none, &mut issues) {
        Err(Error::Other(m)) => assert!(
            m.starts_with("invalid custom_attribute_name_pattern regex \"[\": "),
            "{m}"
        ),
        other => panic!("{other:?}"),
    }
    assert!(issues.is_empty());
    let broken = Err(Error::YamlParse {
        path: "r.yaml".into(),
        source: "no".into(),
    });
    validate_custom_attributes(broken, "r.yaml", Some("["), &none, &mut issues).unwrap();
    assert_eq!(issues.len(), 1);
    assert_eq!(issues[0].message, "parse error: no");
}

#[test]
fn the_entries_of_any_registry_are_checked() {
    let excludes = vec![pattern("^tmp_")];
    let digits = pattern("^[0-9]+$");
    let rules = RegistryRules {
        path: "tags/registry.yaml",
        label: "tag",
        pattern: Some(&digits),
        key: "tag_name_pattern",
        excludes: &excludes,
    };
    let mut issues = vec![];
    validate_entries(&tags(&["1", "tmp_x", "x", "1"]).tags, &rules, &mut issues);
    let messages: Vec<&str> = issues.iter().map(|i| i.message.as_str()).collect();
    assert_eq!(
        messages,
        vec![
            "tag name 'x' does not match tag_name_pattern '^[0-9]+$'",
            "duplicate tag name '1'",
        ]
    );
}

#[test]
fn referenced_tags_have_to_be_declared() {
    let mut issues = vec![];
    validate_tag_references(
        &vec!["a".to_string(), "b".to_string(), "tmp_c".to_string()],
        &tags(&["a"]),
        "tags/registry.yaml",
        &vec![pattern("^tmp_")],
        &mut issues,
    );
    assert_eq!(issues.len(), 1);
    assert_eq!(
        issues[0].message,
        "tag 'b' is referenced by a local resource but not declared"
    );
}

#[test]
fn broken_patterns_are_refused() {
    assert!(compile_name_pattern(None, "k").unwrap().is_none());
    let p = compile_name_pattern(Some("^a$"), "k").unwrap().unwrap();
    assert!(p.is_match("a"));
    assert!(!p.is_match("b"));
    let err = compile_name_pattern(Some("["), "k").err().unwrap();
    assert!(
        err.to_string().contains("invalid k regex \"[\""),
        "{}",
        err.to_string()
    );
    let mut issues = vec![];
    check_name_pattern(Some(&p), "b", "path", "label", "k", &mut issues);
    assert_eq!(issues[0].message, "label name 'b' does not match k '^a$'");
}

#[test]
fn a_root_that_is_a_file_is_an_issue() {
    let listing: RootListing<u8> = RootListing::NotADirectory;
    let (entries, issue) = open_resource_dir("root", "catalogs", listing).unwrap();
    assert!(entries.is_empty());
    assert_eq!(issue.unwrap().path, "root");
    let (entries, issue) =
        open_resource_dir("root", "catalogs", RootListing::Entries(vec![1u8])).unwrap();
    assert_eq!(entries, vec![1]);
    assert!(issue.is_none());
}

fn rewrite(body: &str, lids: usize, ids: usize, warnings: &[&str]) -> Rewrite {
    Rewrite {
        new_body: body.into(),
        lid_rewrites: lids,
        cb_id_rewrites: ids,
        warnings: warnings.iter().map(|w| w.to_string()).collect(),
    }
}

#[test]
fn templatizing_adds_up() {
    let mut summary = RunSummary::default();
    assert!(templatize_block(&mut summary, block("a", "x", &[]), rewrite("x", 0, 0, &[])).is_none());
    let done = "see __BRAZESYNC.lid.1__";
    assert!(holds_placeholder(done));
    assert!(!holds_placeholder("plain"));
    assert!(
        templatize_block(&mut summary, block("b", done, &[]), rewrite(done, 0, 0, &[])).is_none()
    );
    let saved = templatize_block(
        &mut summary,
        block("c", "x", &[]),
        rewrite("y", 2, 1, &["odd"]),
    )
    .unwrap();
    assert_eq!(saved.content, "y");
    let t = templatize_template(
        &mut summary,
        template("t", "s", &[]),
        TemplateRewrites {
            subject: rewrite("S", 1, 0, &[]),
            body_html: rewrite("<p>x</p>", 0, 0, &["html"]),
            body_plaintext: rewrite("x", 0, 0, &[]),
            preheader: None,
        },
    )
    .unwrap();
    assert_eq!(t.subject, "S");
    assert_eq!(
        summary.report(),
        "templatize summary:\n\
         \x20 • touched 2 resource(s); 3 lid + 1 cb_id rewrite(s)\n\
         \x20 • content_block 'b' already templated — skipping\n\
         \x20 ⚠ content_block 'c': odd\n\
         \x20 ⚠ email_template 't' (body_html): html\n"
    );
}

#[test]
fn targets_are_applied_before_what_refers_to_them() {
    let page = block("a_page", "{{content_blocks.${z_header}}}", &[]);
    let header = block("z_header", "hi", &[]);
    let diffs = || vec![block_diff(Some(&page), None), block_diff(Some(&header), None)];
    let ordered = order_diffs(diffs(), ApplyOrder::Dependency).unwrap();
    assert_eq!(ordered[0].name(), "z_header");
    assert_eq!(ordered[1].name(), "a_page");
    let kept = order_diffs(diffs(), ApplyOrder::Alphabetical).unwrap();
    assert_eq!(kept[0].name(), "a_page");
    assert_eq!(kept[1].name(), "z_header");
}

#[test]
fn a_cycle_ends_the_run_by_name() {
    let a = block("a", "{{content_blocks.${b}}}", &[]);
    let b = block("b", "{{content_blocks.${a}}}", &[]);
    let diffs = vec![block_diff(Some(&a), None), block_diff(Some(&b), None)];
    match order_diffs(diffs, ApplyOrder::Dependency) {
        Err(Error::Other(m)) => {
            assert!(
                m.starts_with("content_block dependency cycle detected\n       "),
                "{m}"
            );
            assert!(m.contains("a → b → a") || m.contains("b → a → b"), "{m}");
            assert!(
                m.ends_with(
                    "\n       resolve by removing one of these references and try again"
                ),
                "{m}"
            );
        }
        other => panic!("{:?}", other.map(|v| v.len())),
    }
}

#[test]
fn nothing_is_prepared_with_an_unknown_tag() {
    let tagged = block("promo", "x", &["sale"]);
    let diffs = || vec![block_diff(Some(&tagged), None)];
    let known = tags(&["sale"]);
    let other = tags(&["other"]);
    let ready = prepare(
        diffs(),
        ApplyOrder::Dependency,
        true,
        Some(&known),
        &vec![],
    )
    .unwrap();
    assert_eq!(ready.diffs.len(), 1);
    match prepare(
        diffs(),
        ApplyOrder::Dependency,
        true,
        Some(&other),
        &vec![],
    ) {
        Err(Error::Other(m)) => assert!(m.contains("  • 'sale' — referenced by:\n"), "{m}"),
        _ => panic!("the tag is not declared"),
    }
    let ignored = vec![pattern("^sale$")];
    assert!(prepare(
        diffs(),
        ApplyOrder::Dependency,
        true,
        Some(&other),
        &ignored
    )
    .is_ok());
    assert!(prepare(
        diffs(),
        ApplyOrder::Dependency,
        false,
        Some(&other),
        &vec![]
    )
    .is_ok());
}

#[test]
fn the_heading_tells_a_dry_run() {
    assert_eq!(heading(true), "Plan:");
    assert_eq!(heading(false), "Plan (dry-run, pass --confirm to apply):");
}

#[test]
fn a_run_is_held_to_its_plan_first() {
    let local = block("promo", "new", &[]);
    let remote = block("promo", "old", &[]);
    let summary = DiffSummary {
        diffs: vec![block_diff(Some(&local), Some(&remote))],
    };
    let empty = DiffSummary { diffs: vec![] };
    let saved = plan(vec![block_diff(Some(&local), Some(&remote))]);
    match decide_run(Some(&saved), &summary, true, false) {
        Ok(ApplyDecision::Write) => {}
        _ => panic!("the plan holds"),
    }
    match decide_run(Some(&saved), &empty, true, false) {
        Err(refused) => {
            assert_eq!(refused.error, Error::PlanDrift);
            assert!(!refused.notice.is_empty());
        }
        Ok(_) => panic!("the change is gone"),
    }
    match decide_run(None, &summary, false, false) {
        Ok(ApplyDecision::DryRun) => {}
        _ => panic!("nothing was confirmed"),
    }
    match decide_run(None, &empty, true, false) {
        Ok(ApplyDecision::Nothing { drift }) => assert!(!drift),
        _ => panic!("nothing to do"),
    }
    let removal = DiffSummary {
        diffs: vec![catalog_diff(None, Some(&catalog("old", vec![])))],
    };
    match decide_run(None, &removal, true, false) {
        Err(refused) => {
            assert_eq!(refused.error, Error::DestructiveBlocked);
            assert_eq!(refused.notice, "");
        }
        Ok(_) => panic!("the catalog would be lost"),
    }
}

#[test]
fn a_name_that_is_not_there_is_pointed_out() {
    assert_eq!(
        missing_notice("content_block", Some("promo"), 0).unwrap(),
        "⚠ content_block: 'promo' not found in Braze"
    );
    assert_eq!(missing_notice("content_block", Some("promo"), 1), None);
    assert_eq!(missing_notice("content_block", None, 0), None);
}

#[test]
fn placeholders_are_looked_for_in_every_text() {
    let mut t = template("welcome", "Hi __BRAZESYNC.x__", &[]);
    let p = placeholders_in(&t);
    assert!(p.subject);
    assert!(!p.body_html);
    assert!(!p.body_plaintext);
    assert_eq!(p.preheader, None);
    t.preheader = Some("see __BRAZESYNC.y__".into());
    assert_eq!(placeholders_in(&t).preheader, Some(true));
    t.preheader = Some("plain".into());
    assert_eq!(placeholders_in(&t).preheader, Some(false));
}

#[test]
fn a_templatize_run_says_how_it_ended() {
    let mut s = RunSummary::default();
    assert_eq!(closing_line(&s, false, 0), "nothing to templatize.");
    s.touched_resources = 2;
    assert_eq!(
        closing_line(&s, true, 2),
        "(dry-run) would rewrite 2 resource file(s) in place"
    );
    assert_eq!(
        closing_line(&s, false, 2),
        "✓ templatize: rewrote 2 resource file(s)"
    );
}

#[test]
fn only_a_decision_to_write_has_writes() {
    let fresh = block("new", "x", &[]);
    let local = block("promo", "new", &[]);
    let remote = block("promo", "old", &[]);
    let diffs = || {
        vec![
            block_diff(Some(&fresh), None),
            block_diff(Some(&local), Some(&remote)),
        ]
    };
    let summary = DiffSummary { diffs: diffs() };
    let ids = vec![listed_block("id-1", "promo")];

    let run = plan_run(None, &summary, true, false, Some(&ids), None).unwrap();
    assert_eq!(run.decision, ApplyDecision::Write);
    let labels: Vec<String> = run.plan.writes.iter().map(|w| w.label()).collect();
    let planned = planned_writes(&summary, Some(&ids), None);
    let expected: Vec<String> = planned.writes.iter().map(|w| w.label()).collect();
    assert_eq!(labels, expected);
    assert_eq!(labels, vec!["content_block 'new'", "content_block 'promo'"]);
    assert_eq!(run.plan.stop, None);

    let dry = plan_run(None, &summary, false, true, Some(&ids), None).unwrap();
    assert_eq!(dry.decision, ApplyDecision::DryRun);
    assert!(dry.plan.writes.is_empty());
    assert_eq!(next_write(&dry.plan, 0, None, false), WriteStep::Done);

    let idle = DiffSummary { diffs: vec![] };
    let none = plan_run(None, &idle, true, true, None, None).unwrap();
    assert_eq!(none.decision, ApplyDecision::Nothing { drift: false });
    assert!(none.plan.writes.is_empty());
    assert_eq!(none.plan.stop, None);

    let removal = DiffSummary {
        diffs: vec![catalog_diff(None, Some(&catalog("old", vec![])))],
    };
    let refused = plan_run(None, &removal, true, false, None, None).unwrap_err();
    assert_eq!(refused.error, Error::DestructiveBlocked);
    let allowed = plan_run(None, &removal, true, true, None, None).unwrap();
    assert_eq!(allowed.plan.writes.len(), 1);
}

#[test]
fn a_run_needs_a_plan_that_can_be_checked() {
    let local = block("promo", "new", &[]);
    let remote = block("promo", "old", &[]);
    let summary = DiffSummary {
        diffs: vec![block_diff(Some(&local), Some(&remote))],
    };
    let ids = vec![listed_block("id-1", "promo")];
    let mut saved = plan(vec![block_diff(Some(&local), Some(&remote))]);
    assert!(saved.check_contents().is_ok());
    let run = plan_run(Some(&saved), &summary, true, false, Some(&ids), None).unwrap();
    assert_eq!(run.plan.writes.len(), 1);

    let moved = block("promo", "other", &[]);
    let drifted = DiffSummary {
        diffs: vec![block_diff(Some(&local), Some(&moved))],
    };
    let refused = plan_run(Some(&saved), &drifted, true, true, Some(&ids), None).unwrap_err();
    assert_eq!(refused.error, Error::PlanDrift);

    saved.ops[0].precondition = None;
    let problem = saved.check_contents().unwrap_err();
    assert_eq!(problem, saved.validate().unwrap_err().join("\n"));
    let refused = plan_run(Some(&saved), &summary, true, true, Some(&ids), None).unwrap_err();
    assert_eq!(refused.notice, "");
    assert_eq!(refused.error, Error::Other(problem));

    saved.version = 3;
    let problem = saved.check_contents().unwrap_err();
    assert!(problem.contains("carries no evidence"), "{problem}");
    let refused = plan_run(Some(&saved), &summary, true, true, Some(&ids), None).unwrap_err();
    assert_eq!(refused.error, Error::Other(problem));
}
