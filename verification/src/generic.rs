//! Generic dumping behavior: the content transforms applied to every object
//! representation before it is written, and the discovered-resources catalog
//! representation written at the dump root.
use vstd::prelude::*;
use vstd::string::StringExecFns;
use crate::strutil::str_eq;
use crate::json::{json_entries_view, json_lookup, json_seq_view, key_index, lemma_json_entries_view,
    lemma_json_seq_view, lemma_key_index_bounds, lemma_key_index_found, lemma_key_index_none,
    JsonValue, JsonView};

verus! {

/// One entry of the discovered resource catalog, as the generic dumper and
/// the layout engine consume it: the group is empty for the legacy/core
/// group, and the plural is the lowercase path segment used in list requests.
pub struct ResourceMeta {
    pub group: String,
    pub version: String,
    pub api_version: String,
    pub kind: String,
    pub plural: String,
}

/// Mathematical model of one catalog entry.
pub struct ResourceMetaView {
    pub group: Seq<char>,
    pub version: Seq<char>,
    pub api_version: Seq<char>,
    pub kind: Seq<char>,
    pub plural: Seq<char>,
}

impl View for ResourceMeta {
    type V = ResourceMetaView;

    open spec fn view(&self) -> ResourceMetaView {
        ResourceMetaView {
            group: self.group@,
            version: self.version@,
            api_version: self.api_version@,
            kind: self.kind@,
            plural: self.plural@,
        }
    }
}

/// The catalog representation of one discovered resource type.
pub open spec fn catalog_entry_view(r: ResourceMetaView) -> JsonView {
    JsonView::Object(
        seq![
            ("group"@, JsonView::Str(r.group)),
            ("version"@, JsonView::Str(r.version)),
            ("apiVersion"@, JsonView::Str(r.api_version)),
            ("kind"@, JsonView::Str(r.kind)),
            ("plural"@, JsonView::Str(r.plural)),
        ],
    )
}

/// The discovered-resources catalog written at the dump root: an array with
/// one entry per discovered type, in catalog order.
pub open spec fn catalog_view(rs: Seq<ResourceMetaView>) -> JsonView {
    JsonView::Array(rs.map_values(|r: ResourceMetaView| catalog_entry_view(r)))
}

/// Build the representation of the discovered-resources catalog.
pub fn api_catalog(apis: &Vec<ResourceMeta>) -> (r: JsonValue)
    ensures
        r@ == catalog_view(apis@.map_values(|a: ResourceMeta| a@)),
{
    let n: usize = apis.len();
    let mut items: Vec<JsonValue> = Vec::new();
    let mut i: usize = 0;
    while i < n
        invariant
            i <= n,
            n == apis.len(),
            items@.len() == i,
            forall|j: int| 0 <= j < i ==> (#[trigger] items@[j])@ == catalog_entry_view(
                apis@[j]@,
            ),
        decreases n - i,
    {
        let a = &apis[i];
        let mut entries: Vec<(String, JsonValue)> = Vec::new();
        entries.push(("group".to_owned(), JsonValue::Str(a.group.clone())));
        entries.push(("version".to_owned(), JsonValue::Str(a.version.clone())));
        entries.push(("apiVersion".to_owned(), JsonValue::Str(a.api_version.clone())));
        entries.push(("kind".to_owned(), JsonValue::Str(a.kind.clone())));
        entries.push(("plural".to_owned(), JsonValue::Str(a.plural.clone())));
        let obj = JsonValue::Object(entries);
        proof {
            lemma_json_entries_view(entries@);
            let vents = json_entries_view(entries@);
            assert(entries@.len() == 5);
            assert(vents[0] == (entries@[0].0@, entries@[0].1@));
            assert(vents[1] == (entries@[1].0@, entries@[1].1@));
            assert(vents[2] == (entries@[2].0@, entries@[2].1@));
            assert(vents[3] == (entries@[3].0@, entries@[3].1@));
            assert(vents[4] == (entries@[4].0@, entries@[4].1@));
            assert(vents =~~= catalog_entry_view(a@)->Object_0);
            assert(obj@ =~~= catalog_entry_view(a@));
        }
        items.push(obj);
        i = i + 1;
    }
    let r = JsonValue::Array(items);
    proof {
        lemma_json_seq_view(items@);
        let rs = apis@.map_values(|a: ResourceMeta| a@);
        assert forall|j: int| 0 <= j < n implies json_seq_view(items@)[j] == rs.map_values(
            |x: ResourceMetaView| catalog_entry_view(x),
        )[j] by {
            assert(json_seq_view(items@)[j] == items@[j]@);
            assert(rs[j] == apis@[j]@);
        }
        assert(json_seq_view(items@) =~= rs.map_values(|x: ResourceMetaView| catalog_entry_view(x)));
        assert(r@ == catalog_view(rs));
    }
    r
}

/// One named transform applied to each dumped object representation.
#[derive(Clone, Copy, PartialEq, Eq, Structural, Debug)]
pub enum Strip {
    ManagedFields,
}

impl Strip {
    /// Parse a strip-operation name; unknown names are a configuration error.
    pub fn from_str(s: &str) -> (r: Result<Strip, String>)
        ensures
            s@ == "managed-fields"@ ==> r == Ok::<Strip, String>(Strip::ManagedFields),
            s@ != "managed-fields"@ ==> (r matches Err(m) && m@ == "unknown strip request: "@
                + s@),
    {
        if str_eq(s, "managed-fields") {
            Ok(Strip::ManagedFields)
        } else {
            let mut m = "unknown strip request: ".to_owned();
            m.append(s);
            Err(m)
        }
    }
}

/// A representation with `metadata.managedFields` emptied: the key is kept
/// but its value becomes null. Anything else, including a representation
/// without that path, is left exactly as it was.
pub open spec fn strip_managed_fields_view(v: JsonView) -> JsonView {
    match v {
        JsonView::Object(entries) => {
            let mi = key_index(entries, "metadata"@);
            if mi >= 0 {
                match entries[mi].1 {
                    JsonView::Object(me) => {
                        let fi = key_index(me, "managedFields"@);
                        if fi >= 0 {
                            JsonView::Object(
                                entries.update(
                                    mi,
                                    (
                                        entries[mi].0,
                                        JsonView::Object(me.update(fi, (me[fi].0, JsonView::Null))),
                                    ),
                                ),
                            )
                        } else {
                            v
                        }
                    },
                    _ => v,
                }
            } else {
                v
            }
        },
        _ => v,
    }
}

/// Index of the first entry with the given key of a mapping, when present.
fn find_key(entries: &Vec<(String, JsonValue)>, key: &str) -> (r: Option<usize>)
    ensures
        match r {
            Some(i) => i < entries@.len() && key_index(json_entries_view(entries@), key@)
                == i as int,
            None => key_index(json_entries_view(entries@), key@) == -1,
        },
{
    let n: usize = entries.len();
    let mut i: usize = 0;
    while i < n
        invariant
            i <= n,
            n == entries.len(),
            forall|j: int| 0 <= j < i ==> entries@[j].0@ != key@,
        decreases n - i,
    {
        if str_eq(entries[i].0.as_str(), key) {
            proof {
                lemma_json_entries_view(entries@);
                lemma_key_index_found(json_entries_view(entries@), key@, i as int);
            }
            return Some(i);
        }
        i = i + 1;
    }
    proof {
        lemma_json_entries_view(entries@);
        lemma_key_index_none(json_entries_view(entries@), key@);
    }
    None
}

/// Empty `metadata.managedFields` of one representation, if present.
fn strip_value(v: JsonValue) -> (r: JsonValue)
    ensures
        r@ == strip_managed_fields_view(v@),
{
    match v {
        JsonValue::Object(mut entries) => {
            let ghost entries0 = entries@;
            let ghost vents0 = json_entries_view(entries0);
            proof {
                lemma_json_entries_view(entries0);
            }
            match find_key(&entries, "metadata") {
                None => {
                    JsonValue::Object(entries)
                },
                Some(mi) => {
                    let pair = entries.remove(mi);
                    let k = pair.0;
                    match pair.1 {
                        JsonValue::Object(mut me) => {
                            let ghost me0 = me@;
                            let ghost vme0 = json_entries_view(me0);
                            proof {
                                lemma_json_entries_view(me0);
                            }
                            match find_key(&me, "managedFields") {
                                Some(fi) => {
                                    let fpair = me.remove(fi);
                                    me.insert(fi, (fpair.0, JsonValue::Null));
                                    proof {
                                        lemma_json_entries_view(me@);
                                        assert(json_entries_view(me@) =~~= vme0.update(
                                            fi as int,
                                            (vme0[fi as int].0, JsonView::Null),
                                        ));
                                    }
                                    let inner = JsonValue::Object(me);
                                    entries.insert(mi, (k, inner));
                                    proof {
                                        lemma_json_entries_view(entries@);
                                        assert(json_entries_view(entries@) =~~= vents0.update(
                                            mi as int,
                                            (
                                                vents0[mi as int].0,
                                                JsonView::Object(
                                                    vme0.update(
                                                        fi as int,
                                                        (vme0[fi as int].0, JsonView::Null),
                                                    ),
                                                ),
                                            ),
                                        ));
                                    }
                                    JsonValue::Object(entries)
                                },
                                None => {
                                    entries.insert(mi, (k, JsonValue::Object(me)));
                                    proof {
                                        lemma_json_entries_view(entries@);
                                        assert(json_entries_view(entries@) =~~= vents0);
                                    }
                                    JsonValue::Object(entries)
                                },
                            }
                        },
                        other => {
                            entries.insert(mi, (k, other));
                            proof {
                                lemma_json_entries_view(entries@);
                                assert(json_entries_view(entries@) =~~= vents0);
                            }
                            JsonValue::Object(entries)
                        },
                    }
                },
            }
        },
        other => other,
    }
}

/// Modifies `object` in-place, applying all requested strips.
///
/// With no strip requested the representation is untouched; with the
/// managed-fields strip requested, `metadata.managedFields` is emptied to
/// null (the key itself is kept).
pub fn apply_strips(object: &mut JsonValue, strips: &[Strip])
    ensures
        strips@.contains(Strip::ManagedFields) ==> final(object)@ == strip_managed_fields_view(
            old(object)@,
        ),
        !strips@.contains(Strip::ManagedFields) ==> *final(object) == *old(object),
{
    let n: usize = strips.len();
    let mut requested = false;
    let mut i: usize = 0;
    while i < n
        invariant
            i <= n,
            n == strips@.len(),
            requested == exists|j: int| 0 <= j < i && strips@[j] == Strip::ManagedFields,
        decreases n - i,
    {
        match strips[i] {
            Strip::ManagedFields => {
                proof {
                    assert(strips@[i as int] == Strip::ManagedFields);
                }
                requested = true;
            },
        }
        i = i + 1;
    }
    if requested {
        let mut tmp = JsonValue::Null;
        core::mem::swap(object, &mut tmp);
        let stripped = strip_value(tmp);
        *object = stripped;
    }
}

/// Emptying `metadata.managedFields` really leaves null under that key: the
/// metadata mapping keeps its keys, and the managed-fields entry keeps its
/// key with a null value.
pub proof fn lemma_strip_nulls_managed_fields(v: JsonView, m: JsonView)
    requires
        json_lookup(v, "metadata"@) == Some(m),
        m is Object,
        json_lookup(m, "managedFields"@) is Some,
    ensures
        json_lookup(strip_managed_fields_view(v), "metadata"@) matches Some(m2)
            && json_lookup(m2, "managedFields"@) == Some(JsonView::Null),
{
    let entries = v->Object_0;
    let mi = key_index(entries, "metadata"@);
    lemma_key_index_bounds(entries, "metadata"@);
    let me = m->Object_0;
    let fi = key_index(me, "managedFields"@);
    lemma_key_index_bounds(me, "managedFields"@);
    let me2 = me.update(fi, (me[fi].0, JsonView::Null));
    let entries2 = entries.update(mi, (entries[mi].0, JsonView::Object(me2)));
    assert(strip_managed_fields_view(v) == JsonView::Object(entries2));
    lemma_key_index_found(entries2, "metadata"@, mi);
    lemma_key_index_found(me2, "managedFields"@, fi);
    assert(json_lookup(JsonView::Object(entries2), "metadata"@) == Some(
        JsonView::Object(me2),
    ));
    assert(json_lookup(JsonView::Object(me2), "managedFields"@) == Some(JsonView::Null));
}

} // verus!
