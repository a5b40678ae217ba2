use html2apk::bundle_proto::{
    attribute_values, patch_manifest, Item, Node, OneofValue, Primitive, StringValue, Value,
    XmlAttribute, XmlElement, XmlNamespace, XmlNode,
};
use html2apk::replacements::Replacements;

fn attribute(namespace: &str, name: &str, value: &str, resource_id: u32, item: Option<Item>) -> XmlAttribute {
    XmlAttribute {
        namespace_uri: namespace.to_string(),
        name: name.to_string(),
        value: value.to_string(),
        source: None,
        resource_id,
        compiled_item: item,
    }
}

fn item(value: Value) -> Item {
    Item { value: Some(value), flag_status: 0, flag_negated: false, flag_name: String::new() }
}

fn sample_manifest() -> XmlNode {
    let android = "http://schemas.android.com/apk/res/android";
    let application = XmlNode {
        node: Some(Node::Element(XmlElement {
            namespace_declaration: vec![],
            namespace_uri: String::new(),
            name: "application".to_string(),
            attribute: vec![attribute(
                android,
                "label",
                "__H2A_APP_NAME__",
                0x01010001,
                Some(item(Value::Str(StringValue { value: "__H2A_APP_NAME__".to_string() }))),
            )],
            child: vec![],
        })),
        source: None,
    };
    XmlNode {
        node: Some(Node::Element(XmlElement {
            namespace_declaration: vec![XmlNamespace {
                prefix: "android".to_string(),
                uri: android.to_string(),
                source: None,
            }],
            namespace_uri: String::new(),
            name: "manifest".to_string(),
            attribute: vec![
                attribute("", "package", "io.html2apk.generated", 0, None),
                attribute(
                    android,
                    "versionCode",
                    "1",
                    0x0101021b,
                    Some(item(Value::Prim(Primitive {
                        oneof_value: Some(OneofValue::IntDecimalValue(1)),
                    }))),
                ),
            ],
            child: vec![application],
        })),
        source: None,
    }
}

#[test]
fn patches_package_label_and_version() {
    let mut replacements = Replacements::new();
    replacements.insert("io.html2apk.generated".to_string(), "com.example.app".to_string());
    replacements.insert("__H2A_APP_NAME__".to_string(), "テスト".to_string());
    let decoded = patch_manifest(sample_manifest(), &replacements, 42, true);
    let Some(Node::Element(manifest)) = &decoded.node else {
        panic!("manifest要素がありません");
    };
    assert_eq!(manifest.attribute[0].value, "com.example.app");
    assert_eq!(manifest.attribute[1].value, "42");
    let Some(Node::Element(application)) = &manifest.child[0].node else {
        panic!("application要素がありません");
    };
    assert_eq!(application.attribute[0].value, "テスト");
    let Some(Item { value: Some(Value::Str(label)), .. }) = &application.attribute[0].compiled_item
    else {
        panic!("labelのcompiled_itemが失われました");
    };
    assert_eq!(label.value, "テスト");
}

#[test]
fn version_code_and_cleartext_get_primitives() {
    let mut root = sample_manifest();
    if let Some(Node::Element(e)) = &mut root.node {
        e.attribute.push(attribute("", "usesCleartextTraffic", "false", 0, None));
    }
    let patched = patch_manifest(root, &Replacements::new(), 7, true);
    let Some(Node::Element(manifest)) = &patched.node else { panic!() };
    assert!(matches!(
        &manifest.attribute[1].compiled_item,
        Some(Item { value: Some(Value::Prim(Primitive { oneof_value: Some(OneofValue::IntDecimalValue(7)) })), .. })
    ));
    assert_eq!(manifest.attribute[2].value, "true");
    assert!(matches!(
        &manifest.attribute[2].compiled_item,
        Some(Item { value: Some(Value::Prim(Primitive { oneof_value: Some(OneofValue::BooleanValue(true)) })), flag_status: 0, .. })
    ));
    assert_eq!(manifest.attribute[0].value, "io.html2apk.generated");
}

#[test]
fn attribute_values_are_in_document_order() {
    let mut replacements = Replacements::new();
    replacements.insert("io.html2apk.generated".to_string(), "com.example.html2apkfixture".to_string());
    let before = attribute_values(&sample_manifest());
    assert_eq!(before, vec!["io.html2apk.generated", "1", "__H2A_APP_NAME__"]);
    let after = attribute_values(&patch_manifest(sample_manifest(), &replacements, 1234567, false));
    assert_eq!(after, vec!["com.example.html2apkfixture", "1234567", "__H2A_APP_NAME__"]);
    assert!(!after.iter().any(|v| v == "io.html2apk.generated"));
}

#[test]
fn a_tree_with_nothing_to_patch_keeps_its_values() {
    let mut root = sample_manifest();
    if let Some(Node::Element(e)) = &mut root.node {
        e.attribute.remove(1);
    }
    let mut replacements = Replacements::new();
    replacements.insert("__H2A_OTHER__".to_string(), "x".to_string());
    let before = attribute_values(&root);
    let patched = patch_manifest(root, &replacements, 9, true);
    assert_eq!(attribute_values(&patched), before);
    let Some(Node::Element(manifest)) = &patched.node else { panic!() };
    let Some(Node::Element(application)) = &manifest.child[0].node else { panic!() };
    assert!(matches!(
        &application.attribute[0].compiled_item,
        Some(Item { value: Some(Value::Str(StringValue { value })), .. }) if value == "__H2A_APP_NAME__"
    ));
}

#[test]
fn a_replaced_placeholder_is_gone_and_its_value_present() {
    let mut replacements = Replacements::new();
    replacements.insert("__H2A_APP_NAME__".to_string(), "アプリ".to_string());
    let after = attribute_values(&patch_manifest(sample_manifest(), &replacements, 3, false));
    assert!(!after.iter().any(|v| v == "__H2A_APP_NAME__"));
    assert!(after.iter().any(|v| v == "アプリ"));
    assert!(after.iter().any(|v| v == "3"));
}
