use braze_sync::braze::catalog::{
    add_catalog_field, create_catalog, delete_catalog, delete_catalog_field, get_catalog,
    get_catalog_call, list_catalogs, list_catalogs_call, one_catalog,
};
use braze_sync::braze::content_block::{
    create_content_block, create_content_block_call, get_content_block, get_content_block_call,
    list_content_blocks, list_content_blocks_call, update_content_block,
    update_content_block_call, ContentBlockInfo, ContentBlockSummary,
};
use braze_sync::braze::custom_attribute::{
    list_custom_attributes_call, set_custom_attribute_blocklist, unknown_data_type,
    AttributeListing, CustomAttributeWire, ListingStep, SAFETY_CAP_PAGES,
};
use braze_sync::braze::email_template::{
    create_email_template, create_email_template_call, get_email_template,
    get_email_template_call, list_email_templates, list_email_templates_call,
    update_email_template, update_email_template_call, EmailTemplateInfo, EmailTemplateSummary,
};
use braze_sync::braze::error::BrazeApiError;
use braze_sync::braze::{compute_backoff, next_step, Method, NextStep, RetryState};
use braze_sync::resource::{
    Catalog, CatalogField, CatalogFieldType, ContentBlock, ContentBlockState, CustomAttributeType,
    EmailTemplate,
};

fn field(name: &str, field_type: CatalogFieldType) -> CatalogField {
    CatalogField {
        name: name.into(),
        field_type,
    }
}

fn cat(name: &str, description: Option<&str>, fields: Vec<CatalogField>) -> Catalog {
    Catalog {
        name: name.into(),
        description: description.map(Into::into),
        fields,
    }
}

#[test]
fn list_catalogs_happy_path() {
    let call = list_catalogs_call();
    assert_eq!(call.method, Method::Get);
    assert_eq!(call.segments, vec!["catalogs"]);
    let cats = list_catalogs(
        vec![
            cat(
                "cardiology",
                Some("Cardiology catalog"),
                vec![
                    field("id", CatalogFieldType::String),
                    field("score", CatalogFieldType::Number),
                ],
            ),
            cat(
                "dermatology",
                None,
                vec![field("id", CatalogFieldType::String)],
            ),
        ],
        None,
    )
    .unwrap();
    assert_eq!(cats.len(), 2);
    assert_eq!(cats[0].name, "cardiology");
    assert_eq!(cats[0].description.as_deref(), Some("Cardiology catalog"));
    assert_eq!(cats[0].fields.len(), 2);
    assert_eq!(cats[0].fields[1].field_type, CatalogFieldType::Number);
    assert_eq!(cats[1].name, "dermatology");
    assert_eq!(cats[1].description, None);
}

#[test]
fn list_catalogs_empty() {
    assert!(list_catalogs(vec![], None).unwrap().is_empty());
}

#[test]
fn list_catalogs_errors_when_next_cursor_present() {
    let err = list_catalogs(
        vec![cat(
            "cardiology",
            None,
            vec![field("id", CatalogFieldType::String)],
        )],
        Some("abc123"),
    )
    .unwrap_err();
    match err {
        BrazeApiError::PaginationNotImplemented { endpoint, detail } => {
            assert_eq!(endpoint, "/catalogs");
            assert!(detail.contains("next_cursor"), "detail: {detail}");
            assert!(detail.contains("1 catalog"), "detail: {detail}");
        }
        other => panic!("expected PaginationNotImplemented, got {other:?}"),
    }
}

#[test]
fn list_catalogs_empty_string_cursor_is_treated_as_no_more_pages() {
    let cats = list_catalogs(vec![cat("only", None, vec![])], Some("")).unwrap();
    assert_eq!(cats.len(), 1);
    assert_eq!(cats[0].name, "only");
}

#[test]
fn get_catalog_happy_path() {
    let call = get_catalog_call("cardiology");
    assert_eq!(call.method, Method::Get);
    assert_eq!(call.segments, vec!["catalogs", "cardiology"]);
    let c = get_catalog(
        "cardiology",
        Ok(vec![cat(
            "cardiology",
            None,
            vec![field("id", CatalogFieldType::String)],
        )]),
    )
    .unwrap();
    assert_eq!(c.name, "cardiology");
    assert_eq!(c.fields.len(), 1);
}

#[test]
fn get_catalog_404_is_mapped_to_not_found() {
    let err = get_catalog(
        "missing",
        Err(BrazeApiError::Http {
            status: 404,
            body: "not found".into(),
        }),
    )
    .unwrap_err();
    match err {
        BrazeApiError::NotFound { resource } => assert!(resource.contains("missing")),
        other => panic!("expected NotFound, got {other:?}"),
    }
}

#[test]
fn get_catalog_empty_response_array_is_not_found() {
    let err = get_catalog("ghost", Ok(vec![])).unwrap_err();
    assert!(matches!(err, BrazeApiError::NotFound { .. }), "got {err:?}");
}

#[test]
fn get_catalog_passes_other_failures_on() {
    let err = get_catalog("x", Err(BrazeApiError::Unauthorized)).unwrap_err();
    assert!(matches!(err, BrazeApiError::Unauthorized), "got {err:?}");
    let err = get_catalog(
        "x",
        Err(BrazeApiError::Http {
            status: 500,
            body: "oops".into(),
        }),
    )
    .unwrap_err();
    assert!(
        matches!(err, BrazeApiError::Http { status: 500, .. }),
        "got {err:?}"
    );
}

#[test]
fn add_catalog_field_happy_path_sends_correct_body() {
    let (call, fields) = add_catalog_field(
        "cardiology",
        &field("severity_level", CatalogFieldType::Number),
    );
    assert_eq!(call.method, Method::Post);
    assert_eq!(call.segments, vec!["catalogs", "cardiology", "fields"]);
    assert_eq!(fields.len(), 1);
    assert_eq!(fields[0].name, "severity_level");
    assert_eq!(fields[0].field_type.as_str(), "number");
}

#[test]
fn delete_catalog_field_happy_path_uses_segment_encoded_path() {
    let call = delete_catalog_field("cardiology", "legacy_code");
    assert_eq!(call.method, Method::Delete);
    assert_eq!(
        call.segments,
        vec!["catalogs", "cardiology", "fields", "legacy_code"]
    );
}

#[test]
fn whole_catalogs_are_made_and_removed_by_name() {
    let cardiology = Catalog {
        name: "cardiology".into(),
        description: Some("Heart".into()),
        fields: vec![field("condition_id", CatalogFieldType::String)],
    };
    let (call, body) = create_catalog(&cardiology);
    assert_eq!(call.method, Method::Post);
    assert_eq!(call.segments, vec!["catalogs"]);
    assert_eq!(body, vec![cardiology]);
    let call = delete_catalog("cardiology");
    assert_eq!(call.method, Method::Delete);
    assert_eq!(call.segments, vec!["catalogs", "cardiology"]);
}

fn block_entry(id: &str, name: &str) -> ContentBlockSummary {
    ContentBlockSummary {
        content_block_id: id.into(),
        name: name.into(),
    }
}

fn hundred_blocks() -> Vec<ContentBlockSummary> {
    (0..100)
        .map(|i| block_entry(&format!("id-{i}"), &format!("block-{i}")))
        .collect()
}

#[test]
fn content_block_list_happy_path() {
    let call = list_content_blocks_call();
    assert_eq!(call.method, Method::Get);
    assert_eq!(call.segments, vec!["content_blocks", "list"]);
    assert_eq!(call.query, vec![("limit".to_string(), "100".to_string())]);
    let summaries = list_content_blocks(
        vec![block_entry("id-1", "promo"), block_entry("id-2", "header")],
        Some(2),
    )
    .unwrap();
    assert_eq!(summaries.len(), 2);
    assert_eq!(summaries[0].content_block_id, "id-1");
    assert_eq!(summaries[0].name, "promo");
}

#[test]
fn content_block_list_empty_array() {
    assert!(list_content_blocks(vec![], None).unwrap().is_empty());
}

fn block_info(message: Option<&str>) -> ContentBlockInfo {
    ContentBlockInfo {
        name: String::new(),
        description: None,
        content: String::new(),
        tags: vec![],
        message: message.map(Into::into),
    }
}

#[test]
fn content_block_info_happy_path() {
    let call = get_content_block_call("id-1");
    assert_eq!(call.segments, vec!["content_blocks", "info"]);
    assert_eq!(
        call.query,
        vec![("content_block_id".to_string(), "id-1".to_string())]
    );
    let cb = get_content_block(
        "id-1",
        ContentBlockInfo {
            name: "promo".into(),
            description: Some("Promo banner".into()),
            content: "Hello {{ user.${first_name} }}".into(),
            tags: vec!["pr".into(), "dialog".into()],
            message: Some("success".into()),
        },
    )
    .unwrap();
    assert_eq!(cb.name, "promo");
    assert_eq!(cb.description.as_deref(), Some("Promo banner"));
    assert_eq!(cb.content, "Hello {{ user.${first_name} }}");
    assert_eq!(cb.tags, vec!["pr".to_string(), "dialog".to_string()]);
    assert_eq!(cb.state, ContentBlockState::Active);
}

#[test]
fn info_with_unrecognised_error_message_surfaces_as_unexpected() {
    let err = get_content_block(
        "some-id",
        block_info(Some("Internal server hiccup, please retry")),
    )
    .unwrap_err();
    match err {
        BrazeApiError::UnexpectedApiMessage { endpoint, message } => {
            assert_eq!(endpoint, "/content_blocks/info");
            assert!(
                message.contains("Internal server hiccup"),
                "message not preserved verbatim: {message}"
            );
        }
        other => panic!("expected UnexpectedApiMessage, got {other:?}"),
    }
}

#[test]
fn info_with_unsuccessful_message_is_not_found() {
    let err = get_content_block(
        "missing",
        block_info(Some("No content block with id 'missing' found")),
    )
    .unwrap_err();
    match err {
        BrazeApiError::NotFound { resource } => assert!(resource.contains("missing")),
        other => panic!("expected NotFound, got {other:?}"),
    }
}

#[test]
fn content_block_create_sends_correct_body_and_returns_id() {
    let call = create_content_block_call();
    assert_eq!(call.method, Method::Post);
    assert_eq!(call.segments, vec!["content_blocks", "create"]);
    let body = create_content_block(&ContentBlock {
        name: "promo".into(),
        description: Some("Promo banner".into()),
        content: "Hello".into(),
        tags: vec!["pr".into()],
        state: ContentBlockState::Active,
    });
    assert_eq!(body.content_block_id, None);
    assert_eq!(body.name, "promo");
    assert_eq!(body.description.as_deref(), Some("Promo banner"));
    assert_eq!(body.content, "Hello");
    assert_eq!(body.tags, vec!["pr"]);
    assert_eq!(body.state, Some(ContentBlockState::Active));
}

#[test]
fn create_omits_description_when_none() {
    let body = create_content_block(&ContentBlock {
        name: "minimal".into(),
        description: None,
        content: "x".into(),
        tags: vec![],
        state: ContentBlockState::Active,
    });
    assert_eq!(body.description, None);
    assert!(body.tags.is_empty());
}

#[test]
fn create_forwards_draft_state_to_request_body() {
    let body = create_content_block(&ContentBlock {
        name: "wip".into(),
        description: None,
        content: "draft body".into(),
        tags: vec![],
        state: ContentBlockState::Draft,
    });
    assert_eq!(body.state, Some(ContentBlockState::Draft));
}

#[test]
fn update_sends_id_in_body_and_omits_state() {
    let call = update_content_block_call();
    assert_eq!(call.method, Method::Post);
    assert_eq!(call.segments, vec!["content_blocks", "update"]);
    let body = update_content_block(
        "id-1",
        &ContentBlock {
            name: "promo".into(),
            description: None,
            content: "Updated body".into(),
            tags: vec![],
            state: ContentBlockState::Draft,
        },
    );
    assert_eq!(body.content_block_id.as_deref(), Some("id-1"));
    assert_eq!(body.name, "promo");
    assert_eq!(body.content, "Updated body");
    assert_eq!(body.state, None);
}

#[test]
fn content_block_list_errors_when_count_exceeds_returned() {
    let err = list_content_blocks(hundred_blocks(), Some(250)).unwrap_err();
    match err {
        BrazeApiError::PaginationNotImplemented { endpoint, detail } => {
            assert_eq!(endpoint, "/content_blocks/list");
            assert!(detail.contains("100"), "detail: {detail}");
            assert!(detail.contains("250"), "detail: {detail}");
        }
        other => panic!("expected PaginationNotImplemented, got {other:?}"),
    }
}

#[test]
fn content_block_list_errors_on_full_page_with_no_count_field() {
    let err = list_content_blocks(hundred_blocks(), None).unwrap_err();
    assert!(
        matches!(err, BrazeApiError::PaginationNotImplemented { .. }),
        "got {err:?}"
    );
}

#[test]
fn list_short_page_with_no_count_is_trusted_as_complete() {
    let summaries =
        list_content_blocks(vec![block_entry("id-1", "a"), block_entry("id-2", "b")], None)
            .unwrap();
    assert_eq!(summaries.len(), 2);
    assert_eq!(summaries[0].name, "a");
    assert_eq!(summaries[1].name, "b");
}

#[test]
fn list_succeeds_when_count_matches_full_page_exactly() {
    let summaries = list_content_blocks(hundred_blocks(), Some(100)).unwrap();
    assert_eq!(summaries.len(), 100);
}

#[test]
fn list_errors_on_duplicate_name_in_response() {
    let err = list_content_blocks(
        vec![block_entry("id-a", "dup"), block_entry("id-b", "dup")],
        Some(2),
    )
    .unwrap_err();
    match err {
        BrazeApiError::DuplicateNameInListResponse { endpoint, name } => {
            assert_eq!(endpoint, "/content_blocks/list");
            assert_eq!(name, "dup");
        }
        other => panic!("expected DuplicateNameInListResponse, got {other:?}"),
    }
}

fn wire(name: &str, data_type: Option<&str>, status: Option<&str>) -> CustomAttributeWire {
    CustomAttributeWire {
        name: name.into(),
        description: None,
        data_type: data_type.map(Into::into),
        status: status.map(Into::into),
    }
}

#[test]
fn custom_attribute_list_happy_path() {
    let call = list_custom_attributes_call();
    assert_eq!(call.method, Method::Get);
    assert_eq!(call.segments, vec!["custom_attributes"]);
    let page = vec![
        CustomAttributeWire {
            name: "last_visit_date".into(),
            description: Some("Most recent visit".into()),
            data_type: Some("Date (Automatically Detected)".into()),
            status: Some("Active".into()),
        },
        CustomAttributeWire {
            name: "legacy_segment".into(),
            description: None,
            data_type: Some("String".into()),
            status: Some("Blocklisted".into()),
        },
    ];
    let ListingStep::Complete(attrs) = AttributeListing::start().on_page(page, None) else {
        panic!("expected all attributes");
    };
    assert_eq!(attrs.len(), 2);
    assert_eq!(attrs[0].name, "last_visit_date");
    assert_eq!(attrs[0].attribute_type, CustomAttributeType::Time);
    assert_eq!(attrs[0].description.as_deref(), Some("Most recent visit"));
    assert!(!attrs[0].deprecated);
    assert_eq!(attrs[1].name, "legacy_segment");
    assert!(attrs[1].deprecated);
}

#[test]
fn custom_attribute_list_empty_array() {
    let ListingStep::Complete(attrs) = AttributeListing::start().on_page(vec![], None) else {
        panic!("expected all attributes");
    };
    assert!(attrs.is_empty());
}

#[test]
fn list_follows_link_header_through_pages() {
    let first = vec![
        wire("a", Some("String"), Some("Active")),
        wire("b", Some("Number"), Some("Active")),
    ];
    let next = "https://rest.example/custom_attributes?cursor=p2".to_string();
    let ListingStep::Continue(l) = AttributeListing::start().on_page(first, Some(next.clone()))
    else {
        panic!("expected another page");
    };
    assert_eq!(l.next_url, Some(next));
    let second = vec![wire("c", Some("String"), Some("Active"))];
    let ListingStep::Complete(attrs) = l.on_page(second, None) else {
        panic!("expected all attributes");
    };
    assert_eq!(attrs.len(), 3);
    assert_eq!(attrs[0].name, "a");
    assert_eq!(attrs[2].name, "c");
}

#[test]
fn list_maps_data_types_correctly() {
    let page = vec![
        wire("s", Some("String (Automatically Detected)"), None),
        wire("n", Some("Number"), None),
        wire("b", Some("Boolean"), None),
        wire("t", Some("Date"), None),
        wire("a", Some("Array"), None),
        wire("o", Some("Object"), None),
        wire("oa", Some("Object Array"), None),
    ];
    let ListingStep::Complete(attrs) = AttributeListing::start().on_page(page, None) else {
        panic!("expected all attributes");
    };
    assert_eq!(attrs[0].attribute_type, CustomAttributeType::String);
    assert_eq!(attrs[1].attribute_type, CustomAttributeType::Number);
    assert_eq!(attrs[2].attribute_type, CustomAttributeType::Boolean);
    assert_eq!(attrs[3].attribute_type, CustomAttributeType::Time);
    assert_eq!(attrs[4].attribute_type, CustomAttributeType::Array);
    assert_eq!(attrs[5].attribute_type, CustomAttributeType::Object);
    assert_eq!(attrs[6].attribute_type, CustomAttributeType::ObjectArray);
}

#[test]
fn deprecated_is_derived_from_status_blocklisted() {
    let page = vec![
        wire("active", Some("String"), Some("Active")),
        wire("blocked", Some("String"), Some("Blocklisted")),
        wire("missing", Some("String"), None),
    ];
    let ListingStep::Complete(attrs) = AttributeListing::start().on_page(page, None) else {
        panic!("expected all attributes");
    };
    assert!(!attrs[0].deprecated);
    assert!(attrs[1].deprecated);
    assert!(!attrs[2].deprecated);
}

#[test]
fn blocklist_sends_correct_body() {
    let (call, body) =
        set_custom_attribute_blocklist(&vec!["legacy_segment".to_string()], true);
    assert_eq!(call.method, Method::Post);
    assert_eq!(call.segments, vec!["custom_attributes", "blocklist"]);
    assert_eq!(body.custom_attribute_names, vec!["legacy_segment"]);
    assert!(body.blocklisted);
}

#[test]
fn blocklist_unblocklist() {
    let (_, body) = set_custom_attribute_blocklist(&vec!["reactivated".to_string()], false);
    assert_eq!(body.custom_attribute_names, vec!["reactivated"]);
    assert!(!body.blocklisted);
}

#[test]
fn custom_attribute_list_errors_on_duplicate_name() {
    let page = vec![
        wire("dup", Some("String"), None),
        wire("unique", Some("Number"), None),
        wire("dup", Some("String"), None),
    ];
    match AttributeListing::start().on_page(page, None) {
        ListingStep::Fail(BrazeApiError::DuplicateNameInListResponse { endpoint, name }) => {
            assert_eq!(endpoint, "/custom_attributes");
            assert_eq!(name, "dup");
        }
        other => panic!("expected DuplicateNameInListResponse, got {other:?}"),
    }
}

#[test]
fn list_errors_on_duplicate_name_across_pages() {
    let page = || vec![wire("dup", Some("String"), Some("Active"))];
    let ListingStep::Continue(l) = AttributeListing::start().on_page(page(), Some("p2".into()))
    else {
        panic!("expected another page");
    };
    match l.on_page(page(), None) {
        ListingStep::Fail(BrazeApiError::DuplicateNameInListResponse { endpoint, name }) => {
            assert_eq!(endpoint, "/custom_attributes");
            assert_eq!(name, "dup");
        }
        other => panic!("expected DuplicateNameInListResponse, got {other:?}"),
    }
}

#[test]
fn list_errors_when_cursor_repeats() {
    let ListingStep::Continue(l) = AttributeListing::start().on_page(vec![], Some("loop".into()))
    else {
        panic!("expected another page");
    };
    let step = l.on_page(vec![], Some("loop".into()));
    assert!(
        matches!(
            step,
            ListingStep::Fail(BrazeApiError::PaginationNotImplemented { .. })
        ),
        "got {step:?}"
    );
}

#[test]
fn a_listing_ends_at_the_page_cap() {
    let mut listing = AttributeListing::start();
    let mut pages = 0;
    let detail = loop {
        pages += 1;
        match listing.on_page(vec![], Some(format!("p{pages}"))) {
            ListingStep::Continue(l) => listing = l,
            ListingStep::Fail(BrazeApiError::PaginationNotImplemented { detail, .. }) => {
                break detail
            }
            other => panic!("expected PaginationNotImplemented, got {other:?}"),
        }
    };
    assert_eq!(pages, SAFETY_CAP_PAGES);
    assert_eq!(detail, "exceeded 200 page safety cap");
}

fn template_entry(id: &str, name: &str) -> EmailTemplateSummary {
    EmailTemplateSummary {
        email_template_id: id.into(),
        name: name.into(),
    }
}

fn hundred_templates() -> Vec<EmailTemplateSummary> {
    (0..100)
        .map(|i| template_entry(&format!("id-{i}"), &format!("tpl-{i}")))
        .collect()
}

#[test]
fn email_template_list_happy_path() {
    let call = list_email_templates_call();
    assert_eq!(call.method, Method::Get);
    assert_eq!(call.segments, vec!["templates", "email", "list"]);
    assert_eq!(call.query, vec![("limit".to_string(), "100".to_string())]);
    let summaries = list_email_templates(
        vec![
            template_entry("id-1", "welcome"),
            template_entry("id-2", "password_reset"),
        ],
        Some(2),
    )
    .unwrap();
    assert_eq!(summaries.len(), 2);
    assert_eq!(summaries[0].email_template_id, "id-1");
    assert_eq!(summaries[0].name, "welcome");
}

#[test]
fn list_empty() {
    assert!(list_email_templates(vec![], None).unwrap().is_empty());
}

fn template_info(name: &str, message: Option<&str>) -> EmailTemplateInfo {
    EmailTemplateInfo {
        template_name: name.into(),
        subject: None,
        body: None,
        plaintext_body: None,
        description: None,
        preheader: None,
        should_inline_css: None,
        tags: None,
        message: message.map(Into::into),
    }
}

#[test]
fn email_template_info_happy_path() {
    let call = get_email_template_call("id-1");
    assert_eq!(call.segments, vec!["templates", "email", "info"]);
    assert_eq!(
        call.query,
        vec![("email_template_id".to_string(), "id-1".to_string())]
    );
    let et = get_email_template(
        "id-1",
        EmailTemplateInfo {
            template_name: "welcome".into(),
            subject: Some("Welcome to our service".into()),
            body: Some("<p>Hello</p>".into()),
            plaintext_body: Some("Hello".into()),
            description: Some("Welcome email".into()),
            preheader: Some("Get started".into()),
            should_inline_css: Some(true),
            tags: Some(vec!["onboarding".into(), "email".into()]),
            message: Some("success".into()),
        },
    )
    .unwrap();
    assert_eq!(et.name, "welcome");
    assert_eq!(et.subject, "Welcome to our service");
    assert_eq!(et.body_html, "<p>Hello</p>");
    assert_eq!(et.body_plaintext, "Hello");
    assert_eq!(et.description.as_deref(), Some("Welcome email"));
    assert_eq!(et.preheader.as_deref(), Some("Get started"));
    assert_eq!(et.should_inline_css, Some(true));
    assert_eq!(et.tags, vec!["onboarding", "email"]);
}

#[test]
fn info_missing_optional_fields_default() {
    let et = get_email_template("id-x", template_info("minimal", Some("success"))).unwrap();
    assert_eq!(et.name, "minimal");
    assert_eq!(et.subject, "");
    assert_eq!(et.body_html, "");
    assert_eq!(et.body_plaintext, "");
    assert!(et.description.is_none());
    assert!(et.preheader.is_none());
    assert!(et.should_inline_css.is_none());
    assert!(et.tags.is_empty());
}

#[test]
fn info_not_found_message() {
    let err = get_email_template(
        "missing",
        template_info("", Some("No email template with id 'missing' found")),
    )
    .unwrap_err();
    match err {
        BrazeApiError::NotFound { resource } => assert!(resource.contains("missing")),
        other => panic!("expected NotFound, got {other:?}"),
    }
}

#[test]
fn info_unexpected_message_surfaces_verbatim() {
    let err = get_email_template(
        "some-id",
        template_info("", Some("Internal server hiccup, please retry")),
    )
    .unwrap_err();
    match err {
        BrazeApiError::UnexpectedApiMessage { endpoint, message } => {
            assert_eq!(endpoint, "/templates/email/info");
            assert!(message.contains("Internal server hiccup"));
        }
        other => panic!("expected UnexpectedApiMessage, got {other:?}"),
    }
}

#[test]
fn email_template_create_sends_correct_body_and_returns_id() {
    let call = create_email_template_call();
    assert_eq!(call.method, Method::Post);
    assert_eq!(call.segments, vec!["templates", "email", "create"]);
    let body = create_email_template(&EmailTemplate {
        name: "welcome".into(),
        subject: "Welcome".into(),
        body_html: "<p>Hi</p>".into(),
        body_plaintext: "Hi".into(),
        description: Some("should not be sent".into()),
        preheader: Some("Get started".into()),
        should_inline_css: Some(true),
        tags: vec!["onboarding".into()],
    });
    assert_eq!(body.email_template_id, None);
    assert_eq!(body.template_name, "welcome");
    assert_eq!(body.subject, "Welcome");
    assert_eq!(body.body, "<p>Hi</p>");
    assert_eq!(body.plaintext_body, "Hi");
    assert_eq!(body.preheader.as_deref(), Some("Get started"));
    assert_eq!(body.should_inline_css, Some(true));
    assert_eq!(body.tags, vec!["onboarding"]);
}

#[test]
fn create_minimal_omits_optional_fields() {
    let body = create_email_template(&EmailTemplate {
        name: "minimal".into(),
        subject: "x".into(),
        body_html: String::new(),
        body_plaintext: String::new(),
        description: None,
        preheader: None,
        should_inline_css: None,
        tags: vec![],
    });
    assert_eq!(body.preheader, None);
    assert_eq!(body.should_inline_css, None);
    assert!(body.tags.is_empty());
}

#[test]
fn update_sends_id_and_omits_description() {
    let call = update_email_template_call();
    assert_eq!(call.method, Method::Post);
    assert_eq!(call.segments, vec!["templates", "email", "update"]);
    let body = update_email_template(
        "id-1",
        &EmailTemplate {
            name: "welcome".into(),
            subject: "Updated".into(),
            body_html: "<p>New</p>".into(),
            body_plaintext: "New".into(),
            description: Some("this should not appear in wire body".into()),
            preheader: None,
            should_inline_css: None,
            tags: vec![],
        },
    );
    assert_eq!(body.email_template_id.as_deref(), Some("id-1"));
    assert_eq!(body.template_name, "welcome");
    assert_eq!(body.subject, "Updated");
    assert_eq!(body.body, "<p>New</p>");
    assert_eq!(body.plaintext_body, "New");
}

#[test]
fn email_template_list_errors_when_count_exceeds_returned() {
    let err = list_email_templates(hundred_templates(), Some(250)).unwrap_err();
    match err {
        BrazeApiError::PaginationNotImplemented { endpoint, detail } => {
            assert_eq!(endpoint, "/templates/email/list");
            assert!(detail.contains("100"), "detail: {detail}");
            assert!(detail.contains("250"), "detail: {detail}");
        }
        other => panic!("expected PaginationNotImplemented, got {other:?}"),
    }
}

#[test]
fn email_template_list_errors_on_full_page_with_no_count_field() {
    let err = list_email_templates(hundred_templates(), None).unwrap_err();
    assert!(
        matches!(err, BrazeApiError::PaginationNotImplemented { .. }),
        "got {err:?}"
    );
}

#[test]
fn email_template_list_errors_on_duplicate_name() {
    let err = list_email_templates(
        vec![template_entry("id-a", "dup"), template_entry("id-b", "dup")],
        Some(2),
    )
    .unwrap_err();
    match err {
        BrazeApiError::DuplicateNameInListResponse { endpoint, name } => {
            assert_eq!(endpoint, "/templates/email/list");
            assert_eq!(name, "dup");
        }
        other => panic!("expected DuplicateNameInListResponse, got {other:?}"),
    }
}

/// What is made of the answers to a call, the last one being final.
fn outcome(answers: &[(u16, &str)]) -> Result<usize, BrazeApiError> {
    let mut state = RetryState::start();
    for (i, (status, body)) in answers.iter().enumerate() {
        match next_step(state, *status, body) {
            NextStep::Accept => return Ok(i),
            NextStep::Retry => {
                let wait = compute_backoff(Some(0), state.attempt, state.remaining_ms());
                state = state.after_wait(wait);
            }
            NextStep::Fail(e) => return Err(e),
        }
    }
    panic!("more answers are wanted");
}

#[test]
fn add_catalog_field_unauthorized_propagates() {
    let (call, _) = add_catalog_field("cardiology", &field("x", CatalogFieldType::String));
    assert_eq!(call.segments, vec!["catalogs", "cardiology", "fields"]);
    let err = outcome(&[(401, "invalid key")]).unwrap_err();
    assert!(matches!(err, BrazeApiError::Unauthorized), "got {err:?}");
}

#[test]
fn add_catalog_field_retries_on_429_then_succeeds() {
    let (call, _) = add_catalog_field("cardiology", &field("x", CatalogFieldType::String));
    assert_eq!(call.method, Method::Post);
    assert_eq!(outcome(&[(429, ""), (200, "{\"message\":\"ok\"}")]), Ok(1));
}

#[test]
fn delete_catalog_field_server_error_returns_http() {
    let call = delete_catalog_field("cardiology", "x");
    assert_eq!(call.segments, vec!["catalogs", "cardiology", "fields", "x"]);
    match outcome(&[(500, "oops")]).unwrap_err() {
        BrazeApiError::Http { status, body } => {
            assert_eq!(status, 500);
            assert!(body.contains("oops"));
        }
        other => panic!("expected Http, got {other:?}"),
    }
}

#[test]
fn content_block_list_unauthorized() {
    assert_eq!(
        list_content_blocks_call().segments,
        vec!["content_blocks", "list"]
    );
    let err = outcome(&[(401, "invalid")]).unwrap_err();
    assert!(matches!(err, BrazeApiError::Unauthorized), "got {err:?}");
}

#[test]
fn content_block_update_unauthorized_propagates() {
    assert_eq!(
        update_content_block_call().segments,
        vec!["content_blocks", "update"]
    );
    let err = outcome(&[(401, "invalid")]).unwrap_err();
    assert!(matches!(err, BrazeApiError::Unauthorized), "got {err:?}");
}

#[test]
fn update_server_error_is_http() {
    match outcome(&[(500, "oops")]).unwrap_err() {
        BrazeApiError::Http { status, body } => {
            assert_eq!(status, 500);
            assert!(body.contains("oops"));
        }
        other => panic!("expected Http, got {other:?}"),
    }
}

#[test]
fn list_retries_on_429_then_succeeds() {
    assert_eq!(outcome(&[(429, ""), (200, "")]), Ok(1));
    let summaries = list_content_blocks(vec![block_entry("id-x", "x")], None).unwrap();
    assert_eq!(summaries.len(), 1);
    assert_eq!(summaries[0].name, "x");
}

#[test]
fn custom_attribute_list_unauthorized() {
    assert_eq!(
        list_custom_attributes_call().segments,
        vec!["custom_attributes"]
    );
    let err = outcome(&[(401, "invalid")]).unwrap_err();
    assert!(matches!(err, BrazeApiError::Unauthorized), "got {err:?}");
}

#[test]
fn email_template_list_unauthorized() {
    assert_eq!(
        list_email_templates_call().segments,
        vec!["templates", "email", "list"]
    );
    let err = outcome(&[(401, "invalid")]).unwrap_err();
    assert!(matches!(err, BrazeApiError::Unauthorized), "got {err:?}");
}

#[test]
fn email_template_update_unauthorized_propagates() {
    assert_eq!(
        update_email_template_call().segments,
        vec!["templates", "email", "update"]
    );
    let err = outcome(&[(401, "invalid")]).unwrap_err();
    assert!(matches!(err, BrazeApiError::Unauthorized), "got {err:?}");
}

#[test]
fn a_catalog_that_is_not_there_is_an_empty_list() {
    let c = cat("c", None, vec![]);
    assert_eq!(
        one_catalog(Ok(cat("c", None, vec![]))).unwrap(),
        vec![c]
    );
    assert!(one_catalog(Err(BrazeApiError::NotFound {
        resource: "catalog 'c'".into()
    }))
    .unwrap()
    .is_empty());
    assert_eq!(
        one_catalog(Err(BrazeApiError::Unauthorized)),
        Err(BrazeApiError::Unauthorized)
    );
}

#[test]
fn data_types_that_are_not_known_are_pointed_out() {
    for known in ["String (Automatically Detected)", "object array", "DATE", "", "  "] {
        assert_eq!(unknown_data_type(Some(known)), None, "{known}");
    }
    assert_eq!(unknown_data_type(None), None);
    assert_eq!(
        unknown_data_type(Some("Geo (Automatically Detected)")).as_deref(),
        Some("geo")
    );
}
