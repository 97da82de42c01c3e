use kube_dump::discover::{
    collect_partial, legacy_supports_v1, select_group_version, ApiGroupInfo, ApiResource,
    ApiResourceEntry, ApiResourceListing,
};
use kube_dump::generic::Strip;

fn entry(name: &str, kind: &str, verbs: &[&str]) -> ApiResourceEntry {
    ApiResourceEntry {
        name: name.to_string(),
        kind: kind.to_string(),
        verbs: verbs.iter().map(|v| v.to_string()).collect(),
    }
}

#[test]
fn listing_filter_keeps_listable_non_subresources() {
    let listing = ApiResourceListing {
        group_version: "v1".to_string(),
        resources: vec![
            entry("pods", "Pod", &["list", "get", "watch"]),
            entry("pods/status", "Pod", &["get", "patch"]),
            entry("componentstatuses", "ComponentStatus", &["get"]),
            entry("services", "Service", &["get", "list"]),
        ],
    };
    let r = ApiResource::from_kube_api_resource_list(listing);
    assert_eq!(r.len(), 2);
    assert_eq!(r[0].plural, "pods");
    assert_eq!(r[0].kind, "Pod");
    assert_eq!(r[0].api_group, "v1");
    assert_eq!(r[1].plural, "services");
    assert_eq!(r[1].kind, "Service");
}

#[test]
fn listing_filter_takes_plural_and_group_verbatim() {
    // a name that naive pluralization would never produce
    let listing = ApiResourceListing {
        group_version: "networking.k8s.io/v1".to_string(),
        resources: vec![entry("ingresses", "Ingress", &["list"])],
    };
    let r = ApiResource::from_kube_api_resource_list(listing);
    assert_eq!(r.len(), 1);
    assert_eq!(r[0].plural, "ingresses");
    assert_eq!(r[0].api_group, "networking.k8s.io/v1");
}

#[test]
fn bootstrap_descriptor_pluralizes_by_convention() {
    let r = ApiResource::from_kube("v1", "Pod");
    assert_eq!(r.api_group, "v1");
    assert_eq!(r.kind, "Pod");
    assert_eq!(r.plural, "pods");
    // the convention is knowingly imperfect and applies verbatim
    let np = ApiResource::from_kube("networking.k8s.io/v1", "NetworkPolicy");
    assert_eq!(np.plural, "networkpolicys");
}

#[test]
fn group_name_of_grouped_and_legacy() {
    let grouped = ApiResource {
        api_group: "apps/v1".to_string(),
        kind: "Deployment".to_string(),
        plural: "deployments".to_string(),
    };
    assert_eq!(grouped.group_name(), Some("apps"));
    assert!(!grouped.is_legacy());
    let legacy = ApiResource {
        api_group: "v1".to_string(),
        kind: "Pod".to_string(),
        plural: "pods".to_string(),
    };
    assert_eq!(legacy.group_name(), None);
    assert!(legacy.is_legacy());
    // with more segments the group is the one before the version
    let odd = ApiResource {
        api_group: "a/b/c".to_string(),
        kind: "X".to_string(),
        plural: "xs".to_string(),
    };
    assert_eq!(odd.group_name(), Some("b"));
}

#[test]
fn preferred_version_wins() {
    let g = ApiGroupInfo {
        name: "apps".to_string(),
        preferred_version: Some("v1".to_string()),
        versions: vec!["v1beta1".to_string(), "v1".to_string()],
    };
    assert_eq!(select_group_version(&g), Some("v1".to_string()));
}

#[test]
fn missing_preference_falls_back_to_latest_known() {
    let g = ApiGroupInfo {
        name: "apps".to_string(),
        preferred_version: None,
        versions: vec!["v2".to_string(), "v1".to_string()],
    };
    assert_eq!(select_group_version(&g), Some("v2".to_string()));
    let empty = ApiGroupInfo {
        name: "x".to_string(),
        preferred_version: None,
        versions: vec![],
    };
    assert_eq!(select_group_version(&empty), None);
}

#[test]
fn legacy_version_check() {
    assert!(legacy_supports_v1(&vec!["v1".to_string()]));
    assert!(!legacy_supports_v1(&vec!["v2beta1".to_string()]));
    assert!(!legacy_supports_v1(&vec![]));
}

#[test]
fn one_failed_group_hides_nothing_else() {
    let a = ApiResource {
        api_group: "apps/v1".to_string(),
        kind: "Deployment".to_string(),
        plural: "deployments".to_string(),
    };
    let b = ApiResource {
        api_group: "batch/v1".to_string(),
        kind: "Job".to_string(),
        plural: "jobs".to_string(),
    };
    let results = vec![
        Ok(vec![a]),
        Err("the server is currently unable to handle the request".to_string()),
        Ok(vec![b]),
    ];
    let (resources, errs) = collect_partial(results);
    assert_eq!(resources.len(), 2);
    assert_eq!(resources[0].kind, "Deployment");
    assert_eq!(resources[1].kind, "Job");
    assert_eq!(errs.len(), 1);
    assert_eq!(errs[0], "the server is currently unable to handle the request");
}

#[test]
fn strip_name_parses() {
    assert!(matches!(Strip::from_str("managed-fields"), Ok(Strip::ManagedFields)));
}

#[test]
fn unknown_strip_name_is_rejected() {
    let e = Strip::from_str("last-applied").unwrap_err();
    assert_eq!(e, "unknown strip request: last-applied");
}
