use braze_sync::resource::catalog_items::{hash_rows, CatalogItemRow, ItemField, ItemValue};
use braze_sync::resource::{Catalog, CatalogField, CatalogFieldType};

#[test]
fn normalized_sorts_fields_by_name() {
    let cat = Catalog {
        name: "x".into(),
        description: None,
        fields: vec![
            CatalogField {
                name: "z".into(),
                field_type: CatalogFieldType::String,
            },
            CatalogField {
                name: "a".into(),
                field_type: CatalogFieldType::String,
            },
        ],
    };
    let n = cat.normalized();
    assert_eq!(n.fields[0].name, "a");
    assert_eq!(n.fields[1].name, "z");
}

#[test]
fn content_hash_is_field_order_independent() {
    let mut a: Vec<ItemField> = Vec::new();
    a.push(item("name", serde_json::Value::from("af")));
    a.push(item("order", serde_json::Value::from(1)));

    let mut b: Vec<ItemField> = Vec::new();
    b.push(item("order", serde_json::Value::from(1)));
    b.push(item("name", serde_json::Value::from("af")));

    let row_a = CatalogItemRow {
        id: "x".into(),
        fields: a,
    };
    let row_b = CatalogItemRow {
        id: "x".into(),
        fields: b,
    };
    assert_eq!(row_a.content_hash(), row_b.content_hash());
}

#[test]
fn content_hash_changes_when_value_changes() {
    let mut a: Vec<ItemField> = Vec::new();
    a.push(item("v", serde_json::Value::from(1)));
    let mut b: Vec<ItemField> = Vec::new();
    b.push(item("v", serde_json::Value::from(2)));
    let ra = CatalogItemRow {
        id: "x".into(),
        fields: a,
    };
    let rb = CatalogItemRow {
        id: "x".into(),
        fields: b,
    };
    assert_ne!(ra.content_hash(), rb.content_hash());
}

fn item_value(value: serde_json::Value) -> ItemValue {
    match value {
        serde_json::Value::Null => ItemValue::Null,
        serde_json::Value::Bool(b) => ItemValue::Bool(b),
        serde_json::Value::Number(n) => ItemValue::Number(n.to_string()),
        serde_json::Value::String(t) => ItemValue::Text(t),
        serde_json::Value::Array(l) => ItemValue::List(l.into_iter().map(item_value).collect()),
        serde_json::Value::Object(m) => {
            ItemValue::Object(m.into_iter().map(|(n, v)| item(&n, v)).collect())
        }
    }
}

fn item(name: &str, value: serde_json::Value) -> ItemField {
    ItemField {
        name: name.into(),
        value: item_value(value),
    }
}

fn row_of(json: &str) -> CatalogItemRow {
    match item_value(serde_json::from_str(json).unwrap()) {
        ItemValue::Object(fields) => CatalogItemRow {
            id: "x".into(),
            fields,
        },
        _ => panic!("a row is an object"),
    }
}

#[test]
fn members_are_sorted_at_every_depth() {
    let a = row_of(r#"{"m":{"b":[{"y":null,"x":true}],"a":-1.5},"k":"v\n"}"#);
    let b = row_of(r#"{"k":"v\n","m":{"a":-1.5,"b":[{"x":true,"y":null}]}}"#);
    let text = r#"{"k":"v\n","m":{"a":-1.5,"b":[{"x":true,"y":null}]}}"#;
    assert_eq!(a.canonical_text(), text);
    assert_eq!(b.canonical_text(), text);
    assert_eq!(a.content_hash(), b.content_hash());
    assert_eq!(
        a.content_hash(),
        blake3::hash(text.as_bytes()).to_hex().to_string()
    );
    let other = row_of(r#"{"k":"v\n","m":{"a":-1.5,"b":[{"x":false,"y":null}]}}"#);
    assert_ne!(a.content_hash(), other.content_hash());
}

#[test]
fn canonical_json_is_that_of_sorted_values() {
    let json = r#"{"z":[1,2.5,-3,1e30,"q\"\u0007é",[],{}],"a":{"d":{"c":null,"b":false}}}"#;
    let mut sorted: serde_json::Value = serde_json::from_str(json).unwrap();
    sorted.sort_all_objects();
    assert_eq!(row_of(json).canonical_text(), sorted.to_string());
}

#[test]
fn canonical_text_lists_fields_by_name() {
    let row = CatalogItemRow {
        id: "x".into(),
        fields: vec![
            item("order", serde_json::Value::from(1)),
            item("name", serde_json::Value::from("a\"f")),
            item("order", serde_json::Value::from(2)),
        ],
    };
    assert_eq!(row.canonical_text(), r#"{"name":"a\"f","order":2}"#);
}

#[test]
fn content_hash_is_the_hash_of_the_canonical_text() {
    let row = CatalogItemRow {
        id: "x".into(),
        fields: vec![item("v", serde_json::Value::from(1))],
    };
    assert_eq!(
        row.content_hash(),
        blake3::hash(r#"{"v":1}"#.as_bytes()).to_hex().to_string()
    );
    let empty = CatalogItemRow {
        id: "y".into(),
        fields: vec![],
    };
    assert_eq!(empty.canonical_text(), "{}");
    let expected = row.content_hash();
    let hashes = hash_rows(&vec![row, empty]);
    assert_eq!(hashes.len(), 2);
    assert_eq!(hashes[0].id, "x");
    assert_eq!(hashes[0].hash, expected);
    assert_eq!(hashes[1].id, "y");
}

#[test]
fn normalizing_twice_changes_nothing() {
    let cat = Catalog {
        name: "x".into(),
        description: None,
        fields: vec![
            CatalogField {
                name: "z".into(),
                field_type: CatalogFieldType::Time,
            },
            CatalogField {
                name: "a".into(),
                field_type: CatalogFieldType::Object,
            },
            CatalogField {
                name: "m".into(),
                field_type: CatalogFieldType::Array,
            },
        ],
    };
    let once = cat.normalized();
    assert_eq!(once.normalized(), once);
}

#[test]
fn field_types_have_their_words() {
    assert_eq!(CatalogFieldType::String.as_str(), "string");
    assert_eq!(CatalogFieldType::Number.as_str(), "number");
    assert_eq!(CatalogFieldType::Boolean.as_str(), "boolean");
    assert_eq!(CatalogFieldType::Time.as_str(), "time");
    assert_eq!(CatalogFieldType::Object.as_str(), "object");
    assert_eq!(CatalogFieldType::Array.as_str(), "array");
    assert_eq!(CatalogFieldType::Unknown.as_str(), "unknown");
}

#[test]
fn texts_are_escaped_as_json_strings() {
    for (text, json) in [
        ("", "\"\""),
        ("é/\u{7f}", "\"é/\u{7f}\""),
        ("a\"b\\c", "\"a\\\"b\\\\c\""),
        ("\u{8}\t\n\u{c}\r", "\"\\b\\t\\n\\f\\r\""),
        ("\u{0}\u{b}\u{1f}", "\"\\u0000\\u000b\\u001f\""),
    ] {
        assert_eq!(ItemValue::Text(text.into()).canonical_text(), json);
    }
}
