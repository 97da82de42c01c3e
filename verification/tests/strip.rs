use kube_dump::generic::{api_catalog, apply_strips, ResourceMeta, Strip};
use kube_dump::json::JsonValue;

fn obj(entries: Vec<(&str, JsonValue)>) -> JsonValue {
    JsonValue::Object(entries.into_iter().map(|(k, v)| (k.to_string(), v)).collect())
}

fn sample_pod() -> JsonValue {
    obj(vec![
        (
            "metadata",
            obj(vec![
                ("name", JsonValue::Str("web-0".to_string())),
                (
                    "managedFields",
                    JsonValue::Array(vec![obj(vec![(
                        "manager",
                        JsonValue::Str("kubectl".to_string()),
                    )])]),
                ),
            ]),
        ),
        ("spec", obj(vec![("nodeName", JsonValue::Str("n1".to_string()))])),
    ])
}

#[test]
fn managed_fields_becomes_null_but_key_stays() {
    let mut v = sample_pod();
    apply_strips(&mut v, &[Strip::ManagedFields]);
    let metadata = v.get("metadata").unwrap();
    assert_eq!(metadata.get("managedFields"), Some(&JsonValue::Null));
    // the rest of the metadata is untouched
    assert_eq!(
        metadata.get("name"),
        Some(&JsonValue::Str("web-0".to_string()))
    );
    assert_eq!(
        v.get("spec"),
        Some(&obj(vec![("nodeName", JsonValue::Str("n1".to_string()))]))
    );
}

#[test]
fn empty_strip_set_changes_nothing() {
    let mut v = sample_pod();
    let before = sample_pod();
    apply_strips(&mut v, &[]);
    assert_eq!(v, before);
}

#[test]
fn object_without_managed_fields_is_unchanged() {
    let mut v = obj(vec![(
        "metadata",
        obj(vec![("name", JsonValue::Str("x".to_string()))]),
    )]);
    let before = obj(vec![(
        "metadata",
        obj(vec![("name", JsonValue::Str("x".to_string()))]),
    )]);
    apply_strips(&mut v, &[Strip::ManagedFields]);
    assert_eq!(v, before);
}

#[test]
fn lookup_finds_first_entry() {
    let v = obj(vec![
        ("a", JsonValue::Bool(true)),
        ("b", JsonValue::Number("7".to_string())),
    ]);
    assert_eq!(v.get("b"), Some(&JsonValue::Number("7".to_string())));
    assert_eq!(v.get("c"), None);
    assert_eq!(JsonValue::Null.get("a"), None);
}

#[test]
fn catalog_holds_one_entry_per_type_verbatim() {
    let apis = vec![ResourceMeta {
        group: "apps".to_string(),
        version: "v1".to_string(),
        api_version: "apps/v1".to_string(),
        kind: "Deployment".to_string(),
        plural: "deployments".to_string(),
    }];
    let v = api_catalog(&apis);
    let expected = JsonValue::Array(vec![obj(vec![
        ("group", JsonValue::Str("apps".to_string())),
        ("version", JsonValue::Str("v1".to_string())),
        ("apiVersion", JsonValue::Str("apps/v1".to_string())),
        ("kind", JsonValue::Str("Deployment".to_string())),
        ("plural", JsonValue::Str("deployments".to_string())),
    ])]);
    assert_eq!(v, expected);
}
