use kube_dump::generic::ResourceMeta;
use kube_dump::layout::{Layout, LogsKind};
use kube_dump::Opts;

fn layout(out: &str, escape: bool) -> Layout {
    let opts = Opts {
        out: out.to_string(),
        strip: vec![],
        escape_paths: escape,
    };
    Layout::new(&opts)
}

fn meta(group: &str, kind: &str) -> ResourceMeta {
    ResourceMeta {
        group: group.to_string(),
        version: "v1".to_string(),
        api_version: if group.is_empty() {
            "v1".to_string()
        } else {
            format!("{}/v1", group)
        },
        kind: kind.to_string(),
        plural: String::new(),
    }
}

#[test]
fn cluster_level_paths() {
    let l = layout("/dump", false);
    assert_eq!(l.cluster_info(), "/dump/cluster-info.txt");
    assert_eq!(l.cluster_version(), "/dump/cluster-version.json");
    assert_eq!(l.cluster_api_resources(), "/dump/apis.json");
}

#[test]
fn object_path_core_group_namespaced() {
    let l = layout("/dump", false);
    let o = l.object_layout(&meta("", "Pod"), Some("default"), "web-0");
    assert_eq!(o.representation(), "/dump/default/Pod/web-0/raw.json");
}

#[test]
fn object_path_grouped_cluster_scoped() {
    let l = layout("/dump", false);
    let o = l.object_layout(&meta("apps", "Deployment"), None, "dep");
    assert_eq!(o.representation(), "/dump/_global_/apps/Deployment/dep/raw.json");
}

#[test]
fn log_paths_current_and_previous() {
    let l = layout("/r", false);
    let o = l.object_layout(&meta("", "Pod"), Some("ns"), "p");
    assert_eq!(o.logs(LogsKind::Current, "app"), "/r/ns/Pod/p/logs-app.txt");
    assert_eq!(o.logs(LogsKind::Previous, "app"), "/r/ns/Pod/p/logs-app-prev.txt");
}

#[test]
fn data_and_event_paths() {
    let l = layout("/r", false);
    let o = l.object_layout(&meta("", "ConfigMap"), Some("ns"), "cfg");
    assert_eq!(o.data_piece("app.yaml"), "/r/ns/ConfigMap/cfg/data-app.yaml");
    assert_eq!(o.event_log(), "/r/ns/ConfigMap/cfg/events.txt");
}

#[test]
fn escaping_disabled_is_identity() {
    let l = layout("/r", false);
    assert_eq!(l.maybe_escape_name("we~ird:name"), "we~ird:name");
}

#[test]
fn escaping_substitutes_reserved_characters() {
    let l = layout("/r", true);
    assert_eq!(l.maybe_escape_name("a~b:c"), "a~tilda_b~colon_c");
}

#[test]
fn escaping_is_identity_without_reserved_characters() {
    let l = layout("/r", true);
    assert_eq!(l.maybe_escape_name("plain-name.v1"), "plain-name.v1");
}

#[test]
fn escaped_leaf_used_in_object_path() {
    let l = layout("/r", true);
    let o = l.object_layout(&meta("", "Pod"), Some("ns"), "a:b");
    assert_eq!(o.representation(), "/r/ns/Pod/a~colon_b/raw.json");
}

#[test]
fn path_computation_is_deterministic() {
    let l = layout("/r", true);
    let a = l
        .object_layout(&meta("apps", "Deployment"), Some("ns"), "x~y")
        .representation();
    let b = l
        .object_layout(&meta("apps", "Deployment"), Some("ns"), "x~y")
        .representation();
    assert_eq!(a, b);
}

#[test]
fn distinct_names_stay_distinct_after_escaping() {
    let l = layout("/r", true);
    // the raw names could collide after a naive substitution
    let a = l.maybe_escape_name("a~colon_b");
    let b = l.maybe_escape_name("a:b");
    assert_ne!(a, b);
    let c = l.maybe_escape_name("x~");
    let d = l.maybe_escape_name("x~tilda_");
    assert_ne!(c, d);
}
