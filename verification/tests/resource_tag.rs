use braze_sync::resource::{ResourceKind, Tag, TagRegistry};

#[test]
fn normalized_sorts_tags_by_name() {
    let r = TagRegistry {
        tags: vec![
            Tag {
                name: "z".into(),
                description: None,
            },
            Tag {
                name: "a".into(),
                description: None,
            },
        ],
    };
    let n = r.normalized();
    assert_eq!(n.tags[0].name, "a");
    assert_eq!(n.tags[1].name, "z");
}

#[test]
fn contains_finds_existing_name() {
    let r = TagRegistry {
        tags: vec![Tag {
            name: "promo".into(),
            description: None,
        }],
    };
    assert!(r.contains("promo"));
    assert!(!r.contains("missing"));
}

#[test]
fn kinds_are_listed_in_order() {
    let words: Vec<&str> = ResourceKind::all().iter().map(|k| k.as_str()).collect();
    assert_eq!(
        words,
        vec![
            "catalog_schema",
            "content_block",
            "email_template",
            "custom_attribute",
            "tag"
        ]
    );
    for (i, k) in ResourceKind::all().iter().enumerate() {
        assert_eq!(k.ordinal() as usize, i);
    }
}
