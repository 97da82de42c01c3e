use kube_dump::events::{
    event_group_action, event_group_target, event_log_content, event_to_string, group_events,
    EventRecord, EventRef, InvolvedObject,
};
use kube_dump::layout::Layout;
use kube_dump::Opts;

fn event(api_version: Option<&str>, kind: Option<&str>, ns: Option<&str>, name: Option<&str>,
    message: Option<&str>) -> EventRecord {
    EventRecord {
        involved: EventRef {
            api_version: api_version.map(|s| s.to_string()),
            kind: kind.map(|s| s.to_string()),
            namespace: ns.map(|s| s.to_string()),
            name: name.map(|s| s.to_string()),
        },
        message: message.map(|s| s.to_string()),
    }
}

fn layout(out: &str) -> Layout {
    Layout::new(&Opts {
        out: out.to_string(),
        strip: vec![],
        escape_paths: false,
    })
}

#[test]
fn key_from_grouped_api_version() {
    let ev = event(Some("apps/v1"), Some("Deployment"), Some("ns"), Some("dep"), None);
    let k = InvolvedObject::from_event(&ev).unwrap();
    assert_eq!(k.group.as_deref(), Some("apps"));
    assert_eq!(k.kind, "Deployment");
    assert_eq!(k.namespace.as_deref(), Some("ns"));
    assert_eq!(k.name, "dep");
}

#[test]
fn key_from_legacy_or_missing_api_version() {
    let ev = event(Some("v1"), Some("Pod"), Some("ns"), Some("p"), None);
    assert_eq!(InvolvedObject::from_event(&ev).unwrap().group, None);
    let ev2 = event(None, Some("Pod"), None, Some("p"), None);
    let k2 = InvolvedObject::from_event(&ev2).unwrap();
    assert_eq!(k2.group, None);
    assert_eq!(k2.namespace, None);
}

#[test]
fn key_group_is_everything_before_the_last_slash() {
    let ev = event(Some("a/b/c"), Some("X"), None, Some("x"), None);
    let k = InvolvedObject::from_event(&ev).unwrap();
    assert_eq!(k.group.as_deref(), Some("a/b"));
}

#[test]
fn reference_without_name_or_kind_forms_no_key() {
    let no_name = event(Some("v1"), Some("Pod"), Some("ns"), None, None);
    assert!(InvolvedObject::from_event(&no_name).is_none());
    let no_kind = event(Some("v1"), None, Some("ns"), Some("p"), None);
    assert!(InvolvedObject::from_event(&no_kind).is_none());
}

#[test]
fn message_extraction() {
    assert_eq!(
        event_to_string(event(None, None, None, None, Some("Started container"))),
        "Started container"
    );
    assert_eq!(event_to_string(event(None, None, None, None, None)), "");
}

#[test]
fn grouping_by_identity_in_first_occurrence_order() {
    let events = vec![
        event(Some("v1"), Some("Pod"), Some("ns"), Some("a"), Some("m1")),
        event(Some("v1"), Some("Pod"), Some("ns"), Some("b"), Some("m2")),
        event(Some("v1"), Some("Pod"), Some("ns"), Some("a"), Some("m3")),
        event(Some("v1"), Some("Pod"), Some("ns"), None, Some("dangling")),
    ];
    let (groups, dropped) = group_events(events);
    assert_eq!(groups.len(), 2);
    assert_eq!(groups[0].object.name, "a");
    assert_eq!(groups[0].events.len(), 2);
    assert_eq!(groups[0].events[0].message.as_deref(), Some("m1"));
    assert_eq!(groups[0].events[1].message.as_deref(), Some("m3"));
    assert_eq!(groups[1].object.name, "b");
    assert_eq!(groups[1].events.len(), 1);
    assert_eq!(dropped.len(), 1);
    assert_eq!(dropped[0].message.as_deref(), Some("dangling"));
}

#[test]
fn log_content_joins_messages_in_fetch_order() {
    let events = vec![
        event(None, None, None, None, Some("first")),
        event(None, None, None, None, None),
        event(None, None, None, None, Some("third")),
    ];
    assert_eq!(event_log_content(&events), "first\n\nthird");
}

#[test]
fn target_is_the_referenced_objects_directory() {
    let l = layout("/r");
    let key = InvolvedObject {
        group: None,
        kind: "Pod".to_string(),
        namespace: Some("ns".to_string()),
        name: "web-0".to_string(),
    };
    let t = event_group_target(&l, &key);
    assert_eq!(t.representation(), "/r/ns/Pod/web-0/raw.json");
    assert_eq!(t.event_log(), "/r/ns/Pod/web-0/events.txt");
    let grouped = InvolvedObject {
        group: Some("apps".to_string()),
        kind: "Deployment".to_string(),
        namespace: None,
        name: "dep".to_string(),
    };
    let t2 = event_group_target(&l, &grouped);
    assert_eq!(t2.event_log(), "/r/_global_/apps/Deployment/dep/events.txt");
}

#[test]
fn missing_dump_skips_the_group() {
    let l = layout("/r");
    let events = vec![event(Some("v1"), Some("Pod"), Some("ns"), Some("gone"), Some("m"))];
    let (groups, _) = group_events(events);
    let t = event_group_target(&l, &groups[0].object);
    assert_eq!(event_group_action(&groups[0], &t, false), None);
}

#[test]
fn present_dump_gets_the_event_log() {
    let l = layout("/r");
    let events = vec![
        event(Some("v1"), Some("Pod"), Some("ns"), Some("web-0"), Some("Scheduled")),
        event(Some("v1"), Some("Pod"), Some("ns"), Some("web-0"), Some("Started")),
    ];
    let (groups, _) = group_events(events);
    let t = event_group_target(&l, &groups[0].object);
    let (path, content) = event_group_action(&groups[0], &t, true).unwrap();
    assert_eq!(path, "/r/ns/Pod/web-0/events.txt");
    assert_eq!(content, "Scheduled\nStarted");
}
