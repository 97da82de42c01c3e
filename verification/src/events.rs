//! Event correlation: each fetched event is keyed by the identity of the
//! object it describes, the events of one object are grouped together in a
//! deterministic order (keys by first occurrence, events of one key in fetch
//! order), and each group is written beside its object's dump — or skipped
//! when that object was never dumped.
use vstd::prelude::*;
use vstd::string::StrSliceExecFns;
use vstd::string::StringExecFns;
use crate::strutil::{joined, last_index_of, lemma_last_index_of_bounds, rfind_char, str_eq};
use crate::layout::{object_root_spec, Layout, ObjectLayout};
use crate::generic::ResourceMeta;

verus! {

/// The reference an event carries to the object it describes, as fetched:
/// every part may be missing.
pub struct EventRef {
    /// E.g. "apps/v1", or "v1" for the legacy group
    pub api_version: Option<String>,
    pub kind: Option<String>,
    pub namespace: Option<String>,
    pub name: Option<String>,
}

/// One fetched event: the reference to the object it describes, and its
/// message.
pub struct EventRecord {
    pub involved: EventRef,
    pub message: Option<String>,
}

/// Identity of the object a group of events describes.
pub struct InvolvedObject {
    pub group: Option<String>,
    pub kind: String,
    pub namespace: Option<String>,
    pub name: String,
}

pub open spec fn opt_string_view(s: Option<String>) -> Option<Seq<char>> {
    match s {
        Some(x) => Some(x@),
        None => None,
    }
}

/// Mathematical model of an event.
pub struct EventRecordView {
    pub api_version: Option<Seq<char>>,
    pub kind: Option<Seq<char>>,
    pub namespace: Option<Seq<char>>,
    pub name: Option<Seq<char>>,
    pub message: Option<Seq<char>>,
}

impl View for EventRecord {
    type V = EventRecordView;

    open spec fn view(&self) -> EventRecordView {
        EventRecordView {
            api_version: opt_string_view(self.involved.api_version),
            kind: opt_string_view(self.involved.kind),
            namespace: opt_string_view(self.involved.namespace),
            name: opt_string_view(self.involved.name),
            message: opt_string_view(self.message),
        }
    }
}

/// Mathematical model of an object identity.
pub struct InvolvedObjectView {
    pub group: Option<Seq<char>>,
    pub kind: Seq<char>,
    pub namespace: Option<Seq<char>>,
    pub name: Seq<char>,
}

impl View for InvolvedObject {
    type V = InvolvedObjectView;

    open spec fn view(&self) -> InvolvedObjectView {
        InvolvedObjectView {
            group: opt_string_view(self.group),
            kind: self.kind@,
            namespace: opt_string_view(self.namespace),
            name: self.name@,
        }
    }
}

/// The group part derived from an event's apiVersion: everything before the
/// last '/', or no group at all for a bare legacy version. A missing
/// apiVersion counts as the legacy "v1". This derivation is heuristic for
/// legacy-group objects and documented as a known limitation.
pub open spec fn group_of_api_version(api_version: Option<Seq<char>>) -> Option<Seq<char>> {
    let av = match api_version {
        Some(s) => s,
        None => "v1"@,
    };
    let j = last_index_of(av, '/');
    if j >= 0 {
        Some(av.subrange(0, j))
    } else {
        None
    }
}

/// The grouping key of an event: None when the reference lacks a name or a
/// kind, so the event cannot be correlated.
pub open spec fn involved_key_of(ev: EventRecordView) -> Option<InvolvedObjectView> {
    match (ev.name, ev.kind) {
        (Some(name), Some(kind)) => Some(
            InvolvedObjectView {
                group: group_of_api_version(ev.api_version),
                kind: kind,
                namespace: ev.namespace,
                name: name,
            },
        ),
        _ => None,
    }
}

impl InvolvedObject {
    /// Extract the grouping key from an event; an event whose reference
    /// lacks a name or kind forms no key and is dropped by the caller.
    pub fn from_event(ev: &EventRecord) -> (r: Option<InvolvedObject>)
        ensures
            match r {
                Some(o) => involved_key_of(ev@) == Some(o@),
                None => involved_key_of(ev@) is None,
            },
    {
        let name = match &ev.involved.name {
            Some(n) => n.clone(),
            None => {
                return None;
            },
        };
        let kind = match &ev.involved.kind {
            Some(k) => k.clone(),
            None => {
                return None;
            },
        };
        let av: &str = match &ev.involved.api_version {
            Some(s) => s.as_str(),
            None => "v1",
        };
        let group = match rfind_char(av, '/') {
            Some(j) => {
                proof {
                    lemma_last_index_of_bounds(av@, '/');
                }
                Some(av.substring_char(0, j).to_owned())
            },
            None => None,
        };
        let namespace = match &ev.involved.namespace {
            Some(ns) => Some(ns.clone()),
            None => None,
        };
        Some(InvolvedObject { group, kind, namespace, name })
    }
}

/// An event's contribution to the correlated log: its message, or nothing.
pub open spec fn msg_of(ev: EventRecordView) -> Seq<char> {
    match ev.message {
        Some(m) => m,
        None => Seq::empty(),
    }
}

/// Turn one event into its log line.
pub fn event_to_string(ev: EventRecord) -> (r: String)
    ensures
        r@ == msg_of(ev@),
{
    match ev.message {
        Some(m) => m,
        None => String::new(),
    }
}

/// The events of one object, in fetch order.
pub struct EventGroup {
    pub object: InvolvedObject,
    pub events: Vec<EventRecord>,
}

/// Mathematical model of one group.
pub struct EventGroupView {
    pub object: InvolvedObjectView,
    pub events: Seq<EventRecordView>,
}

impl View for EventGroup {
    type V = EventGroupView;

    open spec fn view(&self) -> EventGroupView {
        EventGroupView {
            object: self.object@,
            events: self.events@.map_values(|e: EventRecord| e@),
        }
    }
}

/// Whether an event resolves to the given key.
pub open spec fn has_key(ev: EventRecordView, k: InvolvedObjectView) -> bool {
    involved_key_of(ev) == Some(k)
}

/// The distinct keys of a fetch result, in order of first occurrence.
pub open spec fn group_keys(events: Seq<EventRecordView>) -> Seq<InvolvedObjectView>
    decreases events.len(),
{
    if events.len() == 0 {
        Seq::empty()
    } else {
        let pre = group_keys(events.drop_last());
        match involved_key_of(events.last()) {
            Some(k) => {
                if pre.contains(k) {
                    pre
                } else {
                    pre.push(k)
                }
            },
            None => pre,
        }
    }
}

/// The events that resolve to one key, in fetch order.
pub open spec fn events_with_key(events: Seq<EventRecordView>, k: InvolvedObjectView) -> Seq<
    EventRecordView,
> {
    events.filter(|e: EventRecordView| has_key(e, k))
}

/// The events whose reference resolves to no key at all.
pub open spec fn dangling_events(events: Seq<EventRecordView>) -> Seq<EventRecordView> {
    events.filter(|e: EventRecordView| involved_key_of(e) is None)
}

/// Every key that some event resolves to is among the grouping keys.
pub proof fn lemma_group_keys_complete(
    events: Seq<EventRecordView>,
    i: int,
    k: InvolvedObjectView,
)
    requires
        0 <= i < events.len(),
        involved_key_of(events[i]) == Some(k),
    ensures
        group_keys(events).contains(k),
    decreases events.len(),
{
    let pre = group_keys(events.drop_last());
    if i == events.len() - 1 {
        if !pre.contains(k) {
            assert(pre.push(k)[pre.len() as int] == k);
            assert(group_keys(events).contains(k));
        }
    } else {
        assert(events.drop_last()[i] == events[i]);
        lemma_group_keys_complete(events.drop_last(), i, k);
        let w = choose|w: int| 0 <= w < pre.len() && pre[w] == k;
        match involved_key_of(events.last()) {
            Some(k2) => {
                if !pre.contains(k2) {
                    assert(pre.push(k2)[w] == k);
                }
            },
            None => {
            },
        }
    }
}

proof fn lemma_no_key_filter_empty(events: Seq<EventRecordView>, k: InvolvedObjectView)
    requires
        forall|i: int| 0 <= i < events.len() ==> !has_key(events[i], k),
    ensures
        events_with_key(events, k) == Seq::<EventRecordView>::empty(),
    decreases events.len(),
{
    reveal(Seq::filter);
    if events.len() > 0 {
        assert(forall|i: int|
            0 <= i < events.drop_last().len() ==> !has_key(events.drop_last()[i], k));
        lemma_no_key_filter_empty(events.drop_last(), k);
    }
}

/// First group whose key equals the given one.
fn find_group(groups: &Vec<EventGroup>, key: &InvolvedObject) -> (r: Option<usize>)
    ensures
        match r {
            Some(i) => i < groups@.len() && groups@[i as int]@.object == key@ && forall|j: int|
                0 <= j < i ==> groups@[j]@.object != key@,
            None => forall|j: int| 0 <= j < groups@.len() ==> groups@[j]@.object != key@,
        },
{
    let n: usize = groups.len();
    let mut i: usize = 0;
    while i < n
        invariant
            i <= n,
            n == groups.len(),
            forall|j: int| 0 <= j < i ==> groups@[j]@.object != key@,
        decreases n - i,
    {
        if involved_eq(&groups[i].object, key) {
            return Some(i);
        }
        i = i + 1;
    }
    None
}

fn opt_str_eq(a: &Option<String>, b: &Option<String>) -> (r: bool)
    ensures
        r == (opt_string_view(*a) == opt_string_view(*b)),
{
    match (a, b) {
        (None, None) => true,
        (Some(x), Some(y)) => str_eq(x.as_str(), y.as_str()),
        _ => false,
    }
}

fn involved_eq(a: &InvolvedObject, b: &InvolvedObject) -> (r: bool)
    ensures
        r == (a@ == b@),
{
    let r = opt_str_eq(&a.group, &b.group) && str_eq(a.kind.as_str(), b.kind.as_str())
        && opt_str_eq(&a.namespace, &b.namespace) && str_eq(a.name.as_str(), b.name.as_str());
    proof {
        if r {
            assert(a@ == b@);
        }
    }
    r
}

/// Group a fetch result by the identity of the described object: keys in
/// order of first occurrence, each group holding exactly its events in fetch
/// order; events that resolve to no key are handed back for diagnostics.
pub fn group_events(events: Vec<EventRecord>) -> (r: (Vec<EventGroup>, Vec<EventRecord>))
    ensures
        ({
            let evs = events@.map_values(|e: EventRecord| e@);
            let keys = group_keys(evs);
            &&& r.0@.len() == keys.len()
            &&& forall|i: int|
                0 <= i < keys.len() ==> #[trigger] r.0@[i]@.object == keys[i] && r.0@[i]@.events
                    == events_with_key(evs, keys[i])
            &&& r.1@.map_values(|e: EventRecord| e@) == dangling_events(evs)
        }),
{
    let ghost evs = events@.map_values(|e: EventRecord| e@);
    let mut rest = events;
    let mut groups: Vec<EventGroup> = Vec::new();
    let mut dropped: Vec<EventRecord> = Vec::new();
    let mut k: usize = 0;
    let ghost total: nat = evs.len();
    let n0: usize = rest.len();
    proof {
        assert(total == n0);
        assert(evs.take(0) =~= Seq::<EventRecordView>::empty());
        reveal(Seq::filter);
        assert(dropped@.map_values(|e: EventRecord| e@) =~= dangling_events(evs.take(0)));
    }
    while rest.len() > 0
        invariant
            k + rest@.len() == total,
            total == evs.len(),
            total <= usize::MAX,
            rest@.map_values(|e: EventRecord| e@) == evs.skip(k as int),
            groups@.len() == group_keys(evs.take(k as int)).len(),
            forall|i: int|
                0 <= i < groups@.len() ==> #[trigger] groups@[i]@.object == group_keys(
                    evs.take(k as int),
                )[i] && groups@[i]@.events == events_with_key(
                    evs.take(k as int),
                    group_keys(evs.take(k as int))[i],
                ),
            forall|i: int, j: int|
                0 <= i < j < groups@.len() ==> groups@[i]@.object != groups@[j]@.object,
            dropped@.map_values(|e: EventRecord| e@) == dangling_events(evs.take(k as int)),
        decreases rest.len(),
    {
        let ghost prefix = evs.take(k as int);
        let ghost keys_pre = group_keys(prefix);
        let ghost groups_pre = groups@;
        let ghost dropped_pre = dropped@.map_values(|e: EventRecord| e@);
        proof {
            assert(rest@.map_values(|e: EventRecord| e@)[0] == evs.skip(k as int)[0]);
            assert(evs.skip(k as int)[0] == evs[k as int]);
        }
        let ghost rest_pre = rest@;
        let ev = rest.remove(0);
        let ghost evv = ev@;
        proof {
            assert(evv == evs[k as int]);
            assert(rest@ =~= rest_pre.drop_first());
            assert forall|i: int| 0 <= i < rest@.len() implies (#[trigger] rest@[i])@ == evs.skip(
                k as int + 1,
            )[i] by {
                assert(rest@[i] == rest_pre[i + 1]);
                assert(rest_pre.map_values(|e: EventRecord| e@)[i + 1] == evs.skip(
                    k as int,
                )[i + 1]);
            }
            assert(rest@.map_values(|e: EventRecord| e@) =~= evs.skip(k as int + 1));
            assert(evs.take(k as int + 1) =~= prefix.push(evv));
            assert(evs.take(k as int + 1).drop_last() =~= prefix);
            reveal(Seq::filter);
        }
        match InvolvedObject::from_event(&ev) {
            None => {
                dropped.push(ev);
                proof {
                    assert(dangling_events(prefix.push(evv)) == dangling_events(prefix).push(
                        evv,
                    ));
                    assert(dropped@.map_values(|e: EventRecord| e@) =~= dropped_pre.push(evv));
                    assert(group_keys(prefix.push(evv)) == keys_pre);
                    assert forall|i: int| 0 <= i < groups@.len() implies #[trigger] groups@[i]@.object
                        == group_keys(evs.take(k as int + 1))[i] && groups@[i]@.events
                        == events_with_key(
                        evs.take(k as int + 1),
                        group_keys(evs.take(k as int + 1))[i],
                    ) by {
                        assert(events_with_key(prefix.push(evv), keys_pre[i]) == events_with_key(
                            prefix,
                            keys_pre[i],
                        ));
                    }
                }
            },
            Some(key) => {
                let ghost keyv = key@;
                proof {
                    assert(involved_key_of(evv) == Some(keyv));
                    assert(dangling_events(prefix.push(evv)) == dangling_events(prefix));
                    assert(events_with_key(prefix.push(evv), keyv) == events_with_key(
                        prefix,
                        keyv,
                    ).push(evv));
                    assert forall|other: InvolvedObjectView| other != keyv implies events_with_key(
                        prefix.push(evv),
                        other,
                    ) == events_with_key(prefix, other) by {
                        assert(!has_key(evv, other));
                    }
                }
                match find_group(&groups, &key) {
                    Some(gi) => {
                        proof {
                            // the key occurs already, so the key list is unchanged
                            assert(keys_pre[gi as int] == keyv);
                            assert(keys_pre.contains(keyv));
                            assert(group_keys(prefix.push(evv)) == keys_pre);
                        }
                        let mut g = groups.remove(gi);
                        g.events.push(ev);
                        proof {
                            assert(g@.events =~= events_with_key(prefix, keyv).push(evv));
                        }
                        groups.insert(gi, g);
                        proof {
                            assert forall|i: int| 0 <= i < groups@.len() implies #[trigger] groups@[i]@.object
                                == keys_pre[i] && groups@[i]@.events == events_with_key(
                                evs.take(k as int + 1),
                                keys_pre[i],
                            ) by {
                                if i < gi {
                                    assert(groups@[i] == groups_pre[i]);
                                } else if i == gi {
                                    assert(groups@[i]@.events =~= events_with_key(
                                        prefix,
                                        keyv,
                                    ).push(evv));
                                } else {
                                    assert(groups@[i] == groups_pre[i]);
                                }
                            }
                            assert(dropped@.map_values(|e: EventRecord| e@) =~= dangling_events(
                                evs.take(k as int + 1),
                            ));
                        }
                    },
                    None => {
                        proof {
                            // a fresh key: it is appended to the key list
                            assert forall|j: int| 0 <= j < keys_pre.len() implies keys_pre[j]
                                != keyv by {
                                assert(groups_pre[j]@.object == keys_pre[j]);
                            }
                            assert(!keys_pre.contains(keyv));
                            assert(group_keys(prefix.push(evv)) == keys_pre.push(keyv));
                        }
                        let mut evlist: Vec<EventRecord> = Vec::new();
                        evlist.push(ev);
                        let g = EventGroup { object: key, events: evlist };
                        proof {
                            assert(g@.events =~= seq![evv]);
                            assert forall|j: int| 0 <= j < prefix.len() implies !has_key(
                                prefix[j],
                                keyv,
                            ) by {
                                if has_key(prefix[j], keyv) {
                                    lemma_group_keys_complete(prefix, j, keyv);
                                }
                            }
                            lemma_no_key_filter_empty(prefix, keyv);
                        }
                        groups.push(g);
                        proof {
                            let keys_now = group_keys(evs.take(k as int + 1));
                            assert forall|i: int| 0 <= i < groups@.len() implies #[trigger] groups@[i]@.object
                                == keys_now[i] && groups@[i]@.events == events_with_key(
                                evs.take(k as int + 1),
                                keys_now[i],
                            ) by {
                                if i < groups@.len() - 1 {
                                    assert(groups@[i] == groups_pre[i]);
                                    assert(keys_now[i] == keys_pre[i]);
                                } else {
                                    assert(groups@[i] == g);
                                    assert(keys_now[i] == keyv);
                                    assert(g@.events =~= events_with_key(
                                        prefix,
                                        keyv,
                                    ).push(evv));
                                }
                            }
                            assert(dropped@.map_values(|e: EventRecord| e@) =~= dangling_events(
                                evs.take(k as int + 1),
                            ));
                        }
                    },
                }
            },
        }
        k = k + 1;
    }
    proof {
        assert(evs.take(total as int) =~= evs);
    }
    (groups, dropped)
}

/// The correlated log of one group: the messages newline-joined, in fetch
/// order, never re-sorted.
pub open spec fn joined_messages(events: Seq<EventRecordView>) -> Seq<char>
    decreases events.len(),
{
    if events.len() == 0 {
        Seq::empty()
    } else if events.len() == 1 {
        msg_of(events[0])
    } else {
        joined_messages(events.drop_last()) + seq!['\n'] + msg_of(events.last())
    }
}

/// Concatenate the messages of one group, newline-separated.
pub fn event_log_content(events: &Vec<EventRecord>) -> (r: String)
    ensures
        r@ == joined_messages(events@.map_values(|e: EventRecord| e@)),
{
    let ghost evs = events@.map_values(|e: EventRecord| e@);
    let n: usize = events.len();
    let mut out = String::new();
    let mut i: usize = 0;
    proof {
        assert(evs.take(0) =~= Seq::<EventRecordView>::empty());
    }
    while i < n
        invariant
            i <= n,
            n == events.len(),
            evs == events@.map_values(|e: EventRecord| e@),
            out@ == joined_messages(evs.take(i as int)),
        decreases n - i,
    {
        if i > 0 {
            let mut sep = String::new();
            crate::strutil::push_char(&mut sep, '\n');
            out.append(sep.as_str());
        }
        match &events[i].message {
            Some(m) => out.append(m.as_str()),
            None => (),
        }
        proof {
            let pre = evs.take(i as int);
            let now = evs.take(i as int + 1);
            assert(now =~= pre.push(evs[i as int]));
            assert(now.drop_last() =~= pre);
            assert(evs[i as int] == events@[i as int]@);
            if i == 0 {
                assert(out@ =~= joined_messages(now));
            } else {
                assert(out@ =~= joined_messages(pre) + seq!['\n'] + msg_of(evs[i as int]));
            }
        }
        i = i + 1;
    }
    proof {
        assert(evs.take(n as int) =~= evs);
    }
    out
}

/// The directory where the object a group of events describes was dumped:
/// the referenced object's layout, not the event's own.
pub fn event_group_target(layout: &Layout, object: &InvolvedObject) -> (r: ObjectLayout)
    ensures
        r.spec_dir() == object_root_spec(
            layout.spec_root(),
            layout.spec_escape(),
            (match object@.group {
                Some(g) => g,
                None => Seq::empty(),
            }),
            object@.kind,
            object@.namespace,
            object@.name,
        ),
{
    let group = match &object.group {
        Some(g) => g.clone(),
        None => String::new(),
    };
    let resource = ResourceMeta {
        group,
        version: String::new(),
        api_version: String::new(),
        kind: object.kind.clone(),
        plural: String::new(),
    };
    let namespace = match &object.namespace {
        Some(ns) => Some(ns.as_str()),
        None => None,
    };
    layout.object_layout(&resource, namespace, object.name.as_str())
}

/// What one group of events becomes: nothing at all when the referenced
/// object's dump is absent (the group is skipped), or the event-log path and
/// the newline-joined messages when it is present.
pub fn event_group_action(group: &EventGroup, target: &ObjectLayout, dumped: bool) -> (r: Option<
    (String, String),
>)
    ensures
        dumped ==> (r matches Some(pc) && pc.0@ == joined(target.spec_dir(), "events.txt"@)
            && pc.1@ == joined_messages(group@.events)),
        !dumped ==> r is None,
{
    if dumped {
        Some((target.event_log(), event_log_content(&group.events)))
    } else {
        None
    }
}

} // verus!
