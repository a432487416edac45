use braze_sync::error::Error;
use braze_sync::fs::content_block_io::{
    exported_header_of, header_of as block_header, holds_content_block, load_all_content_blocks,
    read_content_block, save_content_block, BlockFile, ContentBlockHeader,
};
use braze_sync::fs::email_template_io::{
    header_of as template_header, load_all_email_templates, read_email_template_dir,
    save_email_template, EmailTemplateHeader, TemplateDir,
};
use braze_sync::fs::{frontmatter, split_file_name, temp_file_name, validate_resource_name, RootListing};
use braze_sync::resource::{ContentBlock, ContentBlockState, EmailTemplate};

fn yaml(text: &str) -> serde_norway::Value {
    serde_norway::from_str(text).unwrap()
}

#[test]
fn parse_minimal() {
    let (meta, body) =
        frontmatter::parse("test.liquid", "---\nname: hi\n---\nbody line\n").unwrap();
    assert_eq!(yaml(&meta)["name"], "hi");
    assert_eq!(body, "body line\n");
}

#[test]
fn parse_empty_body_after_fence() {
    let (meta, body) = frontmatter::parse("test.liquid", "---\nname: empty\n---\n").unwrap();
    assert_eq!(yaml(&meta)["name"], "empty");
    assert_eq!(body, "");
}

#[test]
fn parse_no_trailing_newline_on_body() {
    let (_, body) = frontmatter::parse("test.liquid", "---\nname: x\n---\nfinal").unwrap();
    assert_eq!(body, "final");
}

#[test]
fn parse_crlf_line_endings_tolerated() {
    let (meta, body) =
        frontmatter::parse("test.liquid", "---\r\nname: crlf\r\n---\r\nbody\r\n").unwrap();
    assert_eq!(yaml(&meta)["name"], "crlf");
    assert_eq!(body, "body\r\n");
}

#[test]
fn parse_bom_stripped() {
    let (meta, _) =
        frontmatter::parse("test.liquid", "\u{feff}---\nname: bom\n---\nbody\n").unwrap();
    assert_eq!(yaml(&meta)["name"], "bom");
}

#[test]
fn parse_body_containing_triple_dash_is_preserved() {
    let (_, body) =
        frontmatter::parse("test.liquid", "---\nname: x\n---\nintro\n---\nmore body\n").unwrap();
    assert_eq!(body, "intro\n---\nmore body\n");
}

#[test]
fn parse_missing_opening_fence_errors() {
    match frontmatter::parse("test.liquid", "name: x\n---\nbody\n").unwrap_err() {
        Error::InvalidFormat { message, path } => {
            assert!(message.contains("opening"));
            assert_eq!(path, "test.liquid");
        }
        other => panic!("expected InvalidFormat, got {other:?}"),
    }
}

#[test]
fn parse_missing_closing_fence_errors() {
    match frontmatter::parse("test.liquid", "---\nname: x\nbody never closes\n").unwrap_err() {
        Error::InvalidFormat { message, .. } => assert!(message.contains("closing")),
        other => panic!("expected InvalidFormat, got {other:?}"),
    }
}

#[test]
fn render_round_trip() {
    let meta = "name: round\ntags:\n- a\n- b\n";
    let body = "hello\nworld\n";
    let text = frontmatter::render(meta, body);
    assert!(text.starts_with("---\n"));
    assert!(text.contains("name: round"));
    assert!(text.ends_with("hello\nworld\n"));
    let (parsed, parsed_body) = frontmatter::parse("test.liquid", &text).unwrap();
    assert_eq!(yaml(&parsed), yaml(meta));
    assert_eq!(parsed_body, body);
}

#[test]
fn render_empty_body_round_trips() {
    let meta = "name: empty\n";
    let text = frontmatter::render(meta, "");
    let (parsed, body) = frontmatter::parse("test.liquid", &text).unwrap();
    assert_eq!(yaml(&parsed), yaml(meta));
    assert_eq!(body, "");
}

fn cb(name: &str, content: &str) -> ContentBlock {
    ContentBlock {
        name: name.into(),
        description: Some(format!("desc for {name}")),
        content: content.into(),
        tags: vec!["t1".into()],
        state: ContentBlockState::Active,
    }
}

fn block_yaml(h: &ContentBlockHeader) -> String {
    let mut out = format!("name: {}\n", h.name);
    if let Some(d) = &h.description {
        out.push_str(&format!("description: {d}\n"));
    }
    if !h.tags.is_empty() {
        out.push_str("tags:\n");
        for t in &h.tags {
            out.push_str(&format!("- {t}\n"));
        }
    }
    match h.state {
        Some(ContentBlockState::Active) => out.push_str("state: active\n"),
        Some(ContentBlockState::Draft) => out.push_str("state: draft\n"),
        None => {}
    }
    out
}

fn block_from_text(path: &str, text: &str) -> Result<ContentBlock, Error> {
    let (meta, body) = frontmatter::parse(path, text)?;
    let meta = yaml(&meta);
    let text_of = |k: &str| meta.get(k).and_then(|v| v.as_str()).map(str::to_string);
    Ok(read_content_block(
        ContentBlockHeader {
            name: text_of("name").unwrap(),
            description: text_of("description"),
            tags: match meta.get("tags").and_then(|v| v.as_sequence()) {
                Some(s) => s.iter().map(|t| t.as_str().unwrap().to_string()).collect(),
                None => vec![],
            },
            state: text_of("state").map(|s| match s.as_str() {
                "draft" => ContentBlockState::Draft,
                _ => ContentBlockState::Active,
            }),
        },
        body,
    ))
}

fn block_file(file_name: &str, text: &str) -> BlockFile {
    let path = format!("content_blocks/{file_name}");
    let block = if holds_content_block(true, file_name) {
        block_from_text(&path, text)
    } else {
        Err(Error::Other("not read".into()))
    };
    BlockFile {
        path,
        file_name: file_name.into(),
        is_file: true,
        block,
    }
}

fn saved(b: &ContentBlock) -> BlockFile {
    let w = save_content_block(b, &block_yaml(&block_header(b))).unwrap();
    assert_eq!(w.directory, None);
    block_file(&w.file_name, &w.contents)
}

fn load(files: Vec<BlockFile>) -> Result<Vec<ContentBlock>, Error> {
    load_all_content_blocks("content_blocks", RootListing::Entries(files))
}

#[test]
fn round_trip_single_block() {
    let original = cb("promo", "Hello {{ user.${first_name} }}\n");
    let loaded = load(vec![saved(&original)]).unwrap();
    assert_eq!(loaded.len(), 1);
    assert_eq!(loaded[0], original);
}

#[test]
fn content_block_io_load_sorts_alphabetically() {
    let loaded = load(vec![
        saved(&cb("zebra", "z")),
        saved(&cb("apple", "a")),
        saved(&cb("mango", "m")),
    ])
    .unwrap();
    assert_eq!(
        loaded.iter().map(|c| c.name.as_str()).collect::<Vec<_>>(),
        vec!["apple", "mango", "zebra"]
    );
}

#[test]
fn content_block_io_missing_root_returns_empty() {
    let loaded = load_all_content_blocks("not_here", RootListing::Missing).unwrap();
    assert!(loaded.is_empty());
}

#[test]
fn content_block_io_empty_root_returns_empty() {
    assert!(load(vec![]).unwrap().is_empty());
}

#[test]
fn content_block_io_root_pointing_at_a_file_is_rejected() {
    let err = load_all_content_blocks("not_a_dir", RootListing::NotADirectory).unwrap_err();
    assert!(matches!(err, Error::InvalidFormat { .. }), "got {err:?}");
    let err =
        load_all_content_blocks("locked", RootListing::Unreadable("denied".into())).unwrap_err();
    assert!(matches!(err, Error::Io(_)), "got {err:?}");
}

#[test]
fn non_liquid_files_are_ignored() {
    let loaded = load(vec![
        block_file("README.md", "# notes\n"),
        block_file("notes.txt", "irrelevant\n"),
        saved(&cb("real", "body")),
    ])
    .unwrap();
    assert_eq!(loaded.len(), 1);
    assert_eq!(loaded[0].name, "real");
}

#[test]
fn name_mismatch_with_file_stem_is_an_error() {
    let err = load(vec![block_file(
        "on_disk_name.liquid",
        "---\nname: in_yaml_name\nstate: active\n---\nbody\n",
    )])
    .unwrap_err();
    match err {
        Error::InvalidFormat { message, .. } => {
            assert!(message.contains("on_disk_name"));
            assert!(message.contains("in_yaml_name"));
        }
        other => panic!("expected InvalidFormat, got {other:?}"),
    }
}

#[test]
fn missing_state_field_defaults_to_active() {
    let loaded = load(vec![block_file(
        "legacy.liquid",
        "---\nname: legacy\n---\nold body\n",
    )])
    .unwrap();
    assert_eq!(loaded.len(), 1);
    assert_eq!(loaded[0].state, ContentBlockState::Active);
    assert_eq!(loaded[0].content, "old body\n");
}

#[test]
fn content_block_io_save_rejects_path_traversal_in_name() {
    for bad in ["../evil", "..", ".", "", "a/b", "a\\b"] {
        let bad_cb = ContentBlock {
            name: bad.into(),
            description: None,
            content: String::new(),
            tags: vec![],
            state: ContentBlockState::Active,
        };
        let err = save_content_block(&bad_cb, "").unwrap_err();
        assert!(
            matches!(err, Error::InvalidFormat { .. }),
            "name {bad:?} should be rejected; got {err:?}"
        );
    }
}

#[test]
fn content_block_io_empty_body_round_trips() {
    let empty_body = ContentBlock {
        name: "blank".into(),
        description: None,
        content: String::new(),
        tags: vec![],
        state: ContentBlockState::Active,
    };
    let loaded = load(vec![saved(&empty_body)]).unwrap();
    assert_eq!(loaded[0], empty_body);
}

#[test]
fn exported_blocks_have_no_state() {
    let b = cb("promo", "x");
    assert_eq!(exported_header_of(&b).state, None);
    assert_eq!(block_header(&b).state, Some(ContentBlockState::Active));
    let w = save_content_block(&b, &block_yaml(&exported_header_of(&b))).unwrap();
    assert_eq!(w.file_name, "promo.liquid");
    assert_eq!(
        w.contents,
        "---\nname: promo\ndescription: desc for promo\ntags:\n- t1\n---\nx\n"
    );
}

#[test]
fn a_file_that_cannot_be_read_ends_the_load() {
    let mut f = saved(&cb("a", "x"));
    f.block = Err(Error::YamlParse {
        path: "content_blocks/a.liquid".into(),
        source: "bad".into(),
    });
    let err = load(vec![f]).unwrap_err();
    assert!(matches!(err, Error::YamlParse { .. }), "got {err:?}");
}

fn et(name: &str, html: &str) -> EmailTemplate {
    EmailTemplate {
        name: name.into(),
        subject: format!("Subject for {name}"),
        body_html: html.into(),
        body_plaintext: format!("plain: {name}"),
        description: Some(format!("desc for {name}")),
        preheader: Some("preview".into()),
        should_inline_css: Some(true),
        tags: vec!["t1".into()],
    }
}

fn template_yaml(h: &EmailTemplateHeader) -> String {
    let mut out = format!("name: {}\nsubject: {}\n", h.name, h.subject);
    if let Some(d) = &h.description {
        out.push_str(&format!("description: {d}\n"));
    }
    if let Some(p) = &h.preheader {
        out.push_str(&format!("preheader: {p}\n"));
    }
    if let Some(c) = h.should_inline_css {
        out.push_str(&format!("should_inline_css: {c}\n"));
    }
    if !h.tags.is_empty() {
        out.push_str("tags:\n");
        for t in &h.tags {
            out.push_str(&format!("- {t}\n"));
        }
    }
    out
}

fn template_dir(
    dir_name: &str,
    header: Option<&str>,
    html: Option<String>,
    txt: Option<String>,
) -> TemplateDir {
    let template = match header {
        None => Err(Error::Other("not read".into())),
        Some(text) => {
            let meta = yaml(text);
            let text_of = |k: &str| meta.get(k).and_then(|v| v.as_str()).map(str::to_string);
            Ok(read_email_template_dir(
                EmailTemplateHeader {
                    name: text_of("name").unwrap(),
                    subject: text_of("subject").unwrap(),
                    description: text_of("description"),
                    preheader: text_of("preheader"),
                    should_inline_css: meta.get("should_inline_css").and_then(|v| v.as_bool()),
                    tags: match meta.get("tags").and_then(|v| v.as_sequence()) {
                        Some(s) => s.iter().map(|t| t.as_str().unwrap().to_string()).collect(),
                        None => vec![],
                    },
                },
                html,
                txt,
            ))
        }
    };
    TemplateDir {
        path: format!("email_templates/{dir_name}"),
        dir_name: dir_name.into(),
        is_dir: true,
        has_yaml: header.is_some(),
        template,
    }
}

fn saved_template(t: &EmailTemplate) -> TemplateDir {
    let files = save_email_template(t, &template_yaml(&template_header(t))).unwrap();
    let find = |name: &str| {
        files
            .iter()
            .find(|f| f.file_name == name)
            .map(|f| f.contents.clone())
            .unwrap()
    };
    let dir = files[0].directory.clone().unwrap();
    template_dir(
        &dir,
        Some(&find("template.yaml")),
        Some(find("body.html")),
        Some(find("body.txt")),
    )
}

fn load_templates(dirs: Vec<TemplateDir>) -> Result<Vec<EmailTemplate>, Error> {
    load_all_email_templates("email_templates", RootListing::Entries(dirs))
}

#[test]
fn round_trip_single_template() {
    let original = et("welcome", "<p>Hello</p>\n");
    let loaded = load_templates(vec![saved_template(&original)]).unwrap();
    assert_eq!(loaded.len(), 1);
    assert_eq!(loaded[0], original);
}

#[test]
fn save_creates_nested_directories() {
    let files = save_email_template(&et("nested", "x"), "name: nested\n").unwrap();
    let names: Vec<(Option<&str>, &str)> = files
        .iter()
        .map(|f| (f.directory.as_deref(), f.file_name.as_str()))
        .collect();
    assert_eq!(names.len(), 3);
    for file in ["template.yaml", "body.html", "body.txt"] {
        assert!(names.contains(&(Some("nested"), file)), "{names:?}");
    }
}

#[test]
fn email_template_io_load_sorts_alphabetically() {
    let loaded = load_templates(vec![
        saved_template(&et("zebra", "z")),
        saved_template(&et("apple", "a")),
        saved_template(&et("mango", "m")),
    ])
    .unwrap();
    assert_eq!(
        loaded.iter().map(|t| t.name.as_str()).collect::<Vec<_>>(),
        vec!["apple", "mango", "zebra"]
    );
}

#[test]
fn email_template_io_missing_root_returns_empty() {
    let loaded = load_all_email_templates("not_here", RootListing::Missing).unwrap();
    assert!(loaded.is_empty());
}

#[test]
fn email_template_io_empty_root_returns_empty() {
    assert!(load_templates(vec![]).unwrap().is_empty());
}

#[test]
fn email_template_io_root_pointing_at_a_file_is_rejected() {
    let err = load_all_email_templates("not_a_dir", RootListing::NotADirectory).unwrap_err();
    assert!(matches!(err, Error::InvalidFormat { .. }), "got {err:?}");
}

#[test]
fn dir_without_template_yaml_is_skipped() {
    let loaded = load_templates(vec![
        template_dir("empty_dir", None, None, None),
        saved_template(&et("real", "body")),
    ])
    .unwrap();
    assert_eq!(loaded.len(), 1);
    assert_eq!(loaded[0].name, "real");
}

#[test]
fn name_mismatch_with_dir_name_is_an_error() {
    let err = load_templates(vec![template_dir(
        "on_disk_name",
        Some("name: in_yaml_name\nsubject: x\n"),
        Some(String::new()),
        Some(String::new()),
    )])
    .unwrap_err();
    match err {
        Error::InvalidFormat { message, .. } => {
            assert!(message.contains("on_disk_name"));
            assert!(message.contains("in_yaml_name"));
        }
        other => panic!("expected InvalidFormat, got {other:?}"),
    }
}

#[test]
fn email_template_io_save_rejects_path_traversal_in_name() {
    for bad in ["../evil", "..", ".", "", "a/b", "a\\b"] {
        let bad_et = EmailTemplate {
            name: bad.into(),
            subject: "x".into(),
            body_html: String::new(),
            body_plaintext: String::new(),
            description: None,
            preheader: None,
            should_inline_css: None,
            tags: vec![],
        };
        let err = save_email_template(&bad_et, "").unwrap_err();
        assert!(
            matches!(err, Error::InvalidFormat { .. }),
            "name {bad:?} should be rejected; got {err:?}"
        );
    }
}

#[test]
fn body_without_trailing_newline_round_trips_byte_exact() {
    let original = EmailTemplate {
        name: "no_eol".into(),
        subject: "x".into(),
        body_html: "<p>Hello</p>".into(),
        body_plaintext: "Hello".into(),
        description: None,
        preheader: None,
        should_inline_css: None,
        tags: vec![],
    };
    let loaded = load_templates(vec![saved_template(&original)]).unwrap();
    assert_eq!(loaded[0].body_html, "<p>Hello</p>");
    assert_eq!(loaded[0].body_plaintext, "Hello");
    assert_eq!(loaded[0], original);
}

#[test]
fn email_template_io_empty_body_round_trips() {
    let empty = EmailTemplate {
        name: "blank".into(),
        subject: "x".into(),
        body_html: String::new(),
        body_plaintext: String::new(),
        description: None,
        preheader: None,
        should_inline_css: None,
        tags: vec![],
    };
    let loaded = load_templates(vec![saved_template(&empty)]).unwrap();
    assert_eq!(loaded[0], empty);
}

#[test]
fn missing_body_files_default_to_empty_string() {
    let loaded = load_templates(vec![template_dir(
        "minimal",
        Some("name: minimal\nsubject: s\n"),
        None,
        None,
    )])
    .unwrap();
    assert_eq!(loaded.len(), 1);
    assert_eq!(loaded[0].body_html, "");
    assert_eq!(loaded[0].body_plaintext, "");
}

#[test]
fn template_yaml_has_header_comment() {
    let files = save_email_template(&et("commented", "<p>hi</p>"), "name: commented\n").unwrap();
    let text = &files
        .iter()
        .find(|f| f.file_name == "template.yaml")
        .unwrap()
        .contents;
    assert!(
        text.starts_with("# Generated by braze-sync."),
        "expected header comment; got:\n{text}"
    );
    assert!(text.ends_with("name: commented\n"));
}

#[test]
fn file_names_are_taken_apart() {
    assert_eq!(
        split_file_name("promo.liquid"),
        ("promo".to_string(), Some("liquid".to_string()))
    );
    assert_eq!(
        split_file_name("a.b.liquid"),
        ("a.b".to_string(), Some("liquid".to_string()))
    );
    assert_eq!(split_file_name("plain"), ("plain".to_string(), None));
    assert_eq!(split_file_name(".hidden"), (".hidden".to_string(), None));
    assert!(holds_content_block(true, "promo.liquid"));
    assert!(!holds_content_block(false, "promo.liquid"));
    assert!(!holds_content_block(true, "promo.html"));
}

#[test]
fn temporary_files_stand_beside_what_they_become() {
    let name = temp_file_name("promo.liquid", 4711);
    assert!(name.contains("promo.liquid"), "{name}");
    assert!(name.contains("4711"), "{name}");
}

#[test]
fn names_that_are_paths_are_refused() {
    assert!(validate_resource_name("content block", "promo").is_ok());
    assert!(validate_resource_name("content block", "..promo").is_ok());
    for bad in ["", ".", "..", "a/b", "a\\b", "a\0b"] {
        assert!(
            validate_resource_name("content block", bad).is_err(),
            "{bad:?}"
        );
    }
}

#[test]
fn saved_templates_load_back_in_name_order() {
    let mut full = et("mango", "<p>m</p>\r\n\n");
    full.body_plaintext = "  m\n".into();
    full.description = Some("a fruit".into());
    full.preheader = Some("soon".into());
    full.should_inline_css = Some(false);
    full.tags = vec!["b".into(), "a".into()];
    let apple = et("apple", "");
    let zebra = et("zebra", "z");
    let dirs = |order: [&EmailTemplate; 3]| order.iter().map(|t| saved_template(t)).collect();
    let expected = vec![apple.clone(), full.clone(), zebra.clone()];
    assert_eq!(load_templates(dirs([&zebra, &full, &apple])).unwrap(), expected);
    assert_eq!(load_templates(dirs([&apple, &zebra, &full])).unwrap(), expected);
}

#[test]
fn saved_blocks_load_back_in_name_order() {
    let zebra = cb("zebra", "z\n\n");
    let apple = cb("apple", "---\nname: inner\n---\n");
    let files = |order: [&ContentBlock; 2]| order.iter().map(|b| saved(b)).collect();
    let first = load(files([&zebra, &apple])).unwrap();
    let second = load(files([&apple, &zebra])).unwrap();
    assert_eq!(first, second);
    assert_eq!(first[0], apple);
    assert_eq!(first[1].name, "zebra");
}
