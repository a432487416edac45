use braze_sync::resource::{CustomAttribute, CustomAttributeRegistry, CustomAttributeType};

#[test]
fn normalized_sorts_attributes_by_name() {
    let r = CustomAttributeRegistry {
        attributes: vec![
            CustomAttribute {
                name: "z".into(),
                attribute_type: CustomAttributeType::String,
                description: None,
                deprecated: false,
            },
            CustomAttribute {
                name: "a".into(),
                attribute_type: CustomAttributeType::String,
                description: None,
                deprecated: false,
            },
        ],
    };
    let n = r.normalized();
    assert_eq!(n.attributes[0].name, "a");
    assert_eq!(n.attributes[1].name, "z");
}
