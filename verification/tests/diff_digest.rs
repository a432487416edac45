use braze_sync::diff::digest::{catalog, content_block, email_template};
use braze_sync::resource::{
    Catalog, CatalogField, CatalogFieldType, ContentBlock, ContentBlockState, EmailTemplate,
};

fn cb() -> ContentBlock {
    ContentBlock {
        name: "hero".into(),
        description: Some("banner".into()),
        content: "{{ x }}".into(),
        tags: vec!["b".into(), "a".into()],
        state: ContentBlockState::Active,
    }
}

fn tpl() -> EmailTemplate {
    EmailTemplate {
        name: "welcome".into(),
        subject: "Hi".into(),
        body_html: "<p>hi</p>".into(),
        body_plaintext: "hi".into(),
        description: Some("read-only".into()),
        preheader: Some("peek".into()),
        should_inline_css: Some(true),
        tags: vec!["z".into(), "a".into()],
    }
}

fn cat() -> Catalog {
    Catalog {
        name: "products".into(),
        description: Some("read-only".into()),
        fields: vec![
            CatalogField {
                name: "id".into(),
                field_type: CatalogFieldType::String,
            },
            CatalogField {
                name: "price".into(),
                field_type: CatalogFieldType::Number,
            },
        ],
    }
}

#[test]
fn content_block_projection_is_stable() {
    assert_eq!(
        content_block(&cb()),
        framed(&["content_block/v2", "hero", "banner", "{{ x }}", "2", "a", "b"])
    );
}

#[test]
fn email_template_projection_is_stable() {
    assert_eq!(
        email_template(&tpl()),
        framed(&[
            "email_template/v2",
            "welcome",
            "Hi",
            "<p>hi</p>",
            "hi",
            "peek",
            "true",
            "2",
            "a",
            "z",
        ])
    );
}

#[test]
fn catalog_projection_is_stable() {
    assert_eq!(
        catalog(&cat()),
        framed(&["catalog_schema/v2", "products", "2", "id", "string", "price", "number"])
    );
}

#[test]
fn digests_are_domain_separated() {
    let mut a = cb();
    a.name = "same".into();
    a.description = None;
    a.content = String::new();
    a.tags = vec![];

    let mut b = tpl();
    b.name = "same".into();
    b.subject = String::new();
    b.body_html = String::new();
    b.body_plaintext = String::new();
    b.preheader = None;
    b.should_inline_css = None;
    b.tags = vec![];

    let c = Catalog {
        name: "same".into(),
        description: None,
        fields: vec![],
    };

    let (x, y, z) = (content_block(&a), email_template(&b), catalog(&c));
    assert_ne!(x, y);
    assert_ne!(y, z);
    assert_ne!(x, z);
}

#[test]
fn field_boundaries_are_unambiguous() {
    let mut a = cb();
    a.name = "ab".into();
    a.description = Some("c".into());
    let mut b = cb();
    b.name = "a".into();
    b.description = Some("bc".into());
    assert_ne!(content_block(&a), content_block(&b));
}

#[test]
fn tag_count_prefix_prevents_boundary_collision() {
    let mut a = cb();
    a.tags = vec!["x".into(), "y".into()];
    let mut b = cb();
    b.tags = vec!["xy".into()];
    assert_ne!(content_block(&a), content_block(&b));
}

fn framed(texts: &[&str]) -> String {
    let mut bytes: Vec<u8> = Vec::new();
    for t in texts {
        bytes.extend_from_slice(&(t.len() as u64).to_le_bytes());
        bytes.extend_from_slice(t.as_bytes());
    }
    blake3::hash(&bytes).to_hex().to_string()
}

#[test]
fn digests_ignore_what_is_never_written() {
    let mut b = cb();
    b.state = ContentBlockState::Draft;
    b.tags.reverse();
    assert_eq!(content_block(&cb()), content_block(&b));
    let mut t = tpl();
    t.description = None;
    t.tags.reverse();
    assert_eq!(email_template(&tpl()), email_template(&t));
    let mut c = cat();
    c.description = None;
    c.fields.reverse();
    assert_eq!(catalog(&cat()), catalog(&c));
}
