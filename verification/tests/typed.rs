use kube_dump::generic::ResourceMeta;
use kube_dump::layout::Layout;
use kube_dump::typed::{config_map_writes, pod_log_writes, secret_writes, ContainerLogs,
    DataPayload};
use kube_dump::Opts;

fn layout(out: &str) -> Layout {
    Layout::new(&Opts {
        out: out.to_string(),
        strip: vec![],
        escape_paths: false,
    })
}

fn meta(group: &str, kind: &str) -> ResourceMeta {
    ResourceMeta {
        group: group.to_string(),
        version: "v1".to_string(),
        api_version: "v1".to_string(),
        kind: kind.to_string(),
        plural: String::new(),
    }
}

#[test]
fn pod_with_one_container_and_no_previous_instance() {
    let l = layout("/r");
    let o = l.object_layout(&meta("", "Pod"), Some("default"), "web-0");
    assert_eq!(o.representation(), "/r/default/Pod/web-0/raw.json");
    let containers = vec![ContainerLogs {
        container: "app".to_string(),
        current: Some("line 1\nline 2\n".to_string()),
        previous: None,
    }];
    let writes = pod_log_writes(&o, containers);
    assert_eq!(writes.len(), 1);
    assert_eq!(writes[0].0, "/r/default/Pod/web-0/logs-app.txt");
    assert_eq!(writes[0].1, "line 1\nline 2\n");
    // no -prev file for a container that never restarted
    assert!(writes.iter().all(|w| !w.0.contains("-prev")));
}

#[test]
fn pod_with_restarted_container_gets_both_logs() {
    let l = layout("/r");
    let o = l.object_layout(&meta("", "Pod"), Some("ns"), "p");
    let containers = vec![
        ContainerLogs {
            container: "main".to_string(),
            current: Some("now".to_string()),
            previous: Some("before".to_string()),
        },
        ContainerLogs {
            container: "sidecar".to_string(),
            current: None,
            previous: None,
        },
    ];
    let writes = pod_log_writes(&o, containers);
    assert_eq!(writes.len(), 2);
    assert_eq!(writes[0].0, "/r/ns/Pod/p/logs-main.txt");
    assert_eq!(writes[0].1, "now");
    assert_eq!(writes[1].0, "/r/ns/Pod/p/logs-main-prev.txt");
    assert_eq!(writes[1].1, "before");
}

#[test]
fn config_map_data_written_exactly_as_stored() {
    let l = layout("/r");
    let o = l.object_layout(&meta("", "ConfigMap"), Some("ns"), "cfg");
    let writes = config_map_writes(
        &o,
        vec![],
        vec![("app.yaml".to_string(), "replicas: 3\n".to_string())],
    );
    assert_eq!(writes.len(), 1);
    assert_eq!(writes[0].0, "/r/ns/ConfigMap/cfg/data-app.yaml");
    match &writes[0].1 {
        DataPayload::Text(body) => assert_eq!(body, "replicas: 3\n"),
        DataPayload::Binary(_) => panic!("expected a text payload"),
    }
}

#[test]
fn config_map_binary_entries_come_before_text_entries() {
    let l = layout("/r");
    let o = l.object_layout(&meta("", "ConfigMap"), Some("ns"), "cfg");
    let writes = config_map_writes(
        &o,
        vec![("blob".to_string(), vec![0u8, 159, 146, 150])],
        vec![("note".to_string(), "hi".to_string())],
    );
    assert_eq!(writes.len(), 2);
    assert_eq!(writes[0].0, "/r/ns/ConfigMap/cfg/data-blob");
    match &writes[0].1 {
        DataPayload::Binary(body) => assert_eq!(body, &vec![0u8, 159, 146, 150]),
        DataPayload::Text(_) => panic!("expected a binary payload"),
    }
    assert_eq!(writes[1].0, "/r/ns/ConfigMap/cfg/data-note");
}

#[test]
fn secret_values_written_exactly_as_received() {
    let l = layout("/r");
    let o = l.object_layout(&meta("", "Secret"), Some("ns"), "s");
    let writes = secret_writes(&o, vec![("token".to_string(), b"opaque".to_vec())]);
    assert_eq!(writes.len(), 1);
    assert_eq!(writes[0].0, "/r/ns/Secret/s/data-token");
    match &writes[0].1 {
        DataPayload::Binary(body) => assert_eq!(body, b"opaque"),
        DataPayload::Text(_) => panic!("expected a binary payload"),
    }
}
