//! This module defines utilities to discover all api resources.
//!
//! The discovery responses arrive as plain values (group/version listings and
//! per-group resource listings); everything here that filters, selects or
//! merges them is pure and verified. Discovery is best-effort per group: one
//! failed group never hides the others.
use vstd::prelude::*;
use vstd::string::StrSliceExecFns;
use vstd::string::StringExecFns;
use crate::strutil::{contains_char, last_index_of, lemma_last_index_of_bounds, push_char,
    rfind_char, str_eq};

verus! {

/// One discovered resource type.
pub struct ApiResource {
    /// E.g. "apps/v1" or "v1" (for legacy api group)
    pub api_group: String,
    /// E.g. "Deployment"
    pub kind: String,
    /// E.g. "statefulsets", used in urls
    pub plural: String,
}

/// Mathematical model of one discovered resource type.
pub struct ApiResourceView {
    pub api_group: Seq<char>,
    pub kind: Seq<char>,
    pub plural: Seq<char>,
}

impl View for ApiResource {
    type V = ApiResourceView;

    open spec fn view(&self) -> ApiResourceView {
        ApiResourceView { api_group: self.api_group@, kind: self.kind@, plural: self.plural@ }
    }
}

/// One entry of a resource listing as the API reports it: `name` is the
/// plural path segment (it holds a '/' exactly for subresources), and `verbs`
/// are the operations the type supports.
pub struct ApiResourceEntry {
    pub name: String,
    pub kind: String,
    pub verbs: Vec<String>,
}

/// Mathematical model of one resource listing entry.
pub struct ApiResourceEntryView {
    pub name: Seq<char>,
    pub kind: Seq<char>,
    pub verbs: Seq<Seq<char>>,
}

impl View for ApiResourceEntry {
    type V = ApiResourceEntryView;

    open spec fn view(&self) -> ApiResourceEntryView {
        ApiResourceEntryView {
            name: self.name@,
            kind: self.kind@,
            verbs: self.verbs@.map_values(|v: String| v@),
        }
    }
}

/// A whole resource listing for one (group, version).
pub struct ApiResourceListing {
    /// E.g. "apps/v1", or "v1" for the legacy group
    pub group_version: String,
    pub resources: Vec<ApiResourceEntry>,
}

/// One API group as the group-listing endpoint reports it: its versions in
/// priority order (latest first) and the version the group prefers.
pub struct ApiGroupInfo {
    pub name: String,
    pub preferred_version: Option<String>,
    pub versions: Vec<String>,
}

pub open spec fn has_verb(verbs: Seq<Seq<char>>, verb: Seq<char>) -> bool {
    exists|i: int| 0 <= i < verbs.len() && verbs[i] == verb
}

/// An entry is kept only when it is no subresource and supports listing.
pub open spec fn entry_listable(e: ApiResourceEntryView) -> bool {
    !e.name.contains('/') && has_verb(e.verbs, "list"@)
}

/// The descriptor a kept entry turns into: group and plural are taken
/// verbatim from the listing, never re-derived.
pub open spec fn descriptor_of(gv: Seq<char>, e: ApiResourceEntryView) -> ApiResourceView {
    ApiResourceView { api_group: gv, kind: e.kind, plural: e.name }
}

/// All listable entries of a listing, in listing order, as descriptors.
pub open spec fn listable_of(gv: Seq<char>, entries: Seq<ApiResourceEntryView>) -> Seq<
    ApiResourceView,
>
    decreases entries.len(),
{
    if entries.len() == 0 {
        Seq::empty()
    } else {
        (if entry_listable(entries[0]) {
            seq![descriptor_of(gv, entries[0])]
        } else {
            Seq::empty()
        }) + listable_of(gv, entries.drop_first())
    }
}

fn entry_is_listable(e: &ApiResourceEntry) -> (r: bool)
    ensures
        r == entry_listable(e@),
{
    if contains_char(e.name.as_str(), '/') {
        return false;
    }
    let n: usize = e.verbs.len();
    let mut j: usize = 0;
    while j < n
        invariant
            j <= n,
            n == e.verbs.len(),
            !e.name@.contains('/'),
            forall|k: int| 0 <= k < j ==> e.verbs@[k]@ != "list"@,
        decreases n - j,
    {
        if str_eq(e.verbs[j].as_str(), "list") {
            proof {
                assert(e@.verbs[j as int] == e.verbs@[j as int]@);
                assert(has_verb(e@.verbs, "list"@));
            }
            return true;
        }
        j = j + 1;
    }
    proof {
        assert(forall|k: int| 0 <= k < e@.verbs.len() ==> e@.verbs[k] == e.verbs@[k]@);
        assert(!has_verb(e@.verbs, "list"@));
    }
    false
}

impl ApiResource {
    /// Filter one resource listing down to its listable, non-subresource
    /// entries; every kept descriptor carries the listing's group/version and
    /// the entry's plural name exactly as declared.
    pub fn from_kube_api_resource_list(list: ApiResourceListing) -> (r: Vec<ApiResource>)
        ensures
            r@.map_values(|a: ApiResource| a@) == listable_of(
                list.group_version@,
                list.resources@.map_values(|e: ApiResourceEntry| e@),
            ),
    {
        let ghost gv = list.group_version@;
        let ghost evs = list.resources@.map_values(|e: ApiResourceEntry| e@);
        let n: usize = list.resources.len();
        let mut out: Vec<ApiResource> = Vec::new();
        let mut i: usize = 0;
        proof {
            assert(evs.skip(0) =~= evs);
            assert(out@.map_values(|a: ApiResource| a@) =~= Seq::<ApiResourceView>::empty());
            assert(Seq::<ApiResourceView>::empty() + listable_of(gv, evs) =~= listable_of(
                gv,
                evs,
            ));
        }
        while i < n
            invariant
                i <= n,
                n == list.resources.len(),
                evs == list.resources@.map_values(|e: ApiResourceEntry| e@),
                gv == list.group_version@,
                out@.map_values(|a: ApiResource| a@) + listable_of(gv, evs.skip(i as int))
                    == listable_of(gv, evs),
            decreases n - i,
        {
            let ghost out_pre = out@.map_values(|a: ApiResource| a@);
            proof {
                assert(evs.skip(i as int)[0] == evs[i as int]);
                assert(evs.skip(i as int).drop_first() =~= evs.skip(i + 1));
            }
            let e = &list.resources[i];
            if entry_is_listable(e) {
                let d = ApiResource {
                    api_group: list.group_version.clone(),
                    kind: e.kind.clone(),
                    plural: e.name.clone(),
                };
                proof {
                    assert(d@ == descriptor_of(gv, evs[i as int]));
                }
                out.push(d);
                proof {
                    assert(out@.map_values(|a: ApiResource| a@) =~= out_pre.push(
                        descriptor_of(gv, evs[i as int]),
                    ));
                    assert(out_pre.push(descriptor_of(gv, evs[i as int])) + listable_of(
                        gv,
                        evs.skip(i + 1),
                    ) =~= out_pre + (seq![descriptor_of(gv, evs[i as int])] + listable_of(
                        gv,
                        evs.skip(i + 1),
                    )));
                }
            } else {
                proof {
                    assert(listable_of(gv, evs.skip(i as int)) =~= Seq::<
                        ApiResourceView,
                    >::empty() + listable_of(gv, evs.skip(i + 1)));
                    assert(Seq::<ApiResourceView>::empty() + listable_of(gv, evs.skip(i + 1))
                        =~= listable_of(gv, evs.skip(i + 1)));
                }
            }
            i = i + 1;
        }
        proof {
            assert(evs.skip(n as int) =~= Seq::<ApiResourceEntryView>::empty());
            assert(out@.map_values(|a: ApiResource| a@) + Seq::<ApiResourceView>::empty()
                =~= out@.map_values(|a: ApiResource| a@));
        }
        out
    }

    /// Bootstrap descriptor for a statically-known type: the plural is the
    /// naming convention "lowercase kind + 's'", used only for types the
    /// program knows at build time, never for discovered ones.
    pub fn from_kube(api_version: &str, kind: &str) -> (r: ApiResource)
        ensures
            r@.api_group == api_version@,
            r@.kind == kind@,
            r@.plural == lower_ascii(kind@) + seq!['s'],
    {
        let mut plural = lowercase_ascii(kind);
        push_char(&mut plural, 's');
        ApiResource {
            api_group: api_version.to_owned(),
            kind: kind.to_owned(),
            plural,
        }
    }

    /// The group part of the group/version pair: the segment before the last
    /// '/', itself cut at the preceding '/'. None for the legacy group.
    pub fn group_name(&self) -> (r: Option<&str>)
        ensures
            ({
                let s = self.api_group@;
                let j = last_index_of(s, '/');
                match r {
                    Some(g) => j >= 0 && g@ == s.subrange(
                        last_index_of(s.subrange(0, j), '/') + 1,
                        j,
                    ),
                    None => j < 0,
                }
            }),
    {
        let s = self.api_group.as_str();
        match rfind_char(s, '/') {
            None => None,
            Some(j) => {
                proof {
                    lemma_last_index_of_bounds(s@, '/');
                }
                let prefix = s.substring_char(0, j);
                proof {
                    lemma_last_index_of_bounds(prefix@, '/');
                }
                let start: usize = match rfind_char(prefix, '/') {
                    None => 0,
                    Some(k) => k + 1,
                };
                Some(s.substring_char(start, j))
            },
        }
    }

    /// The legacy/core group carries a bare version with no '/'.
    pub fn is_legacy(&self) -> (r: bool)
        ensures
            r == !self.api_group@.contains('/'),
    {
        !contains_char(self.api_group.as_str(), '/')
    }
}

/// One character mapped to ASCII lowercase.
pub open spec fn lower_ascii_char(c: char) -> char {
    if 'A' <= c && c <= 'Z' {
        ((c as u8) + 32) as char
    } else {
        c
    }
}

/// A string mapped to ASCII lowercase, character by character.
pub open spec fn lower_ascii(s: Seq<char>) -> Seq<char> {
    s.map_values(|c: char| lower_ascii_char(c))
}

/// ASCII-lowercase a string: uppercase ASCII letters are shifted, everything
/// else is copied through.
pub fn lowercase_ascii(s: &str) -> (r: String)
    ensures
        r@ == lower_ascii(s@),
{
    let len: usize = s.unicode_len();
    let mut out = String::new();
    let mut i: usize = 0;
    while i < len
        invariant
            i <= len,
            len == s@.len(),
            out@ == lower_ascii(s@).subrange(0, i as int),
        decreases len - i,
    {
        let c = s.get_char(i);
        let lc: char = if c >= 'A' && c <= 'Z' {
            (((c as u8) + 32) as char)
        } else {
            c
        };
        push_char(&mut out, lc);
        proof {
            assert(lower_ascii(s@).subrange(0, i + 1) =~= lower_ascii(s@).subrange(
                0,
                i as int,
            ).push(lower_ascii_char(s@[i as int])));
        }
        i = i + 1;
    }
    proof {
        assert(lower_ascii(s@).subrange(0, len as int) =~= lower_ascii(s@));
    }
    out
}

/// The version to enumerate for a group: the advertised preferred version,
/// or the latest known one when no preference is advertised; None only when
/// the group advertises no version at all.
pub fn select_group_version(group: &ApiGroupInfo) -> (r: Option<String>)
    ensures
        match group.preferred_version {
            Some(ref v) => r matches Some(x) && x@ == v@,
            None => {
                if group.versions@.len() > 0 {
                    r matches Some(x) && x@ == group.versions@[0]@
                } else {
                    r is None
                }
            },
        },
{
    match &group.preferred_version {
        Some(v) => Some(v.clone()),
        None => {
            if group.versions.len() > 0 {
                Some(group.versions[0].clone())
            } else {
                None
            }
        },
    }
}

/// Does the legacy group advertise version "v1"? Everything cluster-wide
/// depends on it, so its absence is fatal to discovery.
pub fn legacy_supports_v1(versions: &Vec<String>) -> (r: bool)
    ensures
        r == exists|i: int| 0 <= i < versions@.len() && versions@[i]@ == "v1"@,
{
    let n: usize = versions.len();
    let mut i: usize = 0;
    while i < n
        invariant
            i <= n,
            n == versions.len(),
            forall|j: int| 0 <= j < i ==> versions@[j]@ != "v1"@,
        decreases n - i,
    {
        if str_eq(versions[i].as_str(), "v1") {
            return true;
        }
        i = i + 1;
    }
    false
}

/// View of one per-group discovery outcome.
pub open spec fn result_view(r: Result<Vec<ApiResource>, String>) -> Result<
    Seq<ApiResourceView>,
    Seq<char>,
> {
    match r {
        Ok(v) => Ok(v@.map_values(|a: ApiResource| a@)),
        Err(e) => Err(e@),
    }
}

/// All successfully discovered descriptors, groups in order, each group's
/// descriptors in its listing order.
pub open spec fn oks_of(results: Seq<Result<Seq<ApiResourceView>, Seq<char>>>) -> Seq<
    ApiResourceView,
>
    decreases results.len(),
{
    if results.len() == 0 {
        Seq::empty()
    } else {
        (match results[0] {
            Ok(part) => part,
            Err(_) => Seq::empty(),
        }) + oks_of(results.drop_first())
    }
}

/// The diagnostics of the failed groups, in order.
pub open spec fn errs_of(results: Seq<Result<Seq<ApiResourceView>, Seq<char>>>) -> Seq<Seq<char>>
    decreases results.len(),
{
    if results.len() == 0 {
        Seq::empty()
    } else {
        (match results[0] {
            Ok(_) => Seq::<Seq<char>>::empty(),
            Err(e) => seq![e],
        }) + errs_of(results.drop_first())
    }
}

/// Merge per-group discovery outcomes: keep every successful group's
/// descriptors in order, and carry each failure as a diagnostic. One failed
/// group never hides another group's resources.
pub fn collect_partial(results: Vec<Result<Vec<ApiResource>, String>>) -> (r: (
    Vec<ApiResource>,
    Vec<String>,
))
    ensures
        r.0@.map_values(|a: ApiResource| a@) == oks_of(
            results@.map_values(|x: Result<Vec<ApiResource>, String>| result_view(x)),
        ),
        r.1@.map_values(|s: String| s@) == errs_of(
            results@.map_values(|x: Result<Vec<ApiResource>, String>| result_view(x)),
        ),
{
    let ghost rvs = results@.map_values(|x: Result<Vec<ApiResource>, String>| result_view(x));
    let mut rest = results;
    let mut out: Vec<ApiResource> = Vec::new();
    let mut errs: Vec<String> = Vec::new();
    proof {
        assert(rvs.skip(0) =~= rvs);
        assert(out@.map_values(|a: ApiResource| a@) =~= Seq::<ApiResourceView>::empty());
        assert(errs@.map_values(|s: String| s@) =~= Seq::<Seq<char>>::empty());
        assert(Seq::<ApiResourceView>::empty() + oks_of(rvs) =~= oks_of(rvs));
        assert(Seq::<Seq<char>>::empty() + errs_of(rvs) =~= errs_of(rvs));
    }
    while rest.len() > 0
        invariant
            rest@.map_values(|x: Result<Vec<ApiResource>, String>| result_view(x)) == rvs.skip(
                rvs.len() - rest@.len(),
            ),
            out@.map_values(|a: ApiResource| a@) + oks_of(rvs.skip(rvs.len() - rest@.len()))
                == oks_of(rvs),
            errs@.map_values(|s: String| s@) + errs_of(rvs.skip(rvs.len() - rest@.len()))
                == errs_of(rvs),
            rest@.len() <= rvs.len(),
        decreases rest.len(),
    {
        let ghost k: int = rvs.len() - rest@.len();
        let ghost out_pre = out@.map_values(|a: ApiResource| a@);
        let ghost errs_pre = errs@.map_values(|s: String| s@);
        proof {
            assert(rvs.skip(k)[0] == rvs[k]);
            assert(rvs.skip(k).drop_first() =~= rvs.skip(k + 1));
            assert(rvs[k] == result_view(rest@[0]));
        }
        let head = rest.remove(0);
        proof {
            assert(rest@.map_values(|x: Result<Vec<ApiResource>, String>| result_view(x))
                =~= rvs.skip(k + 1));
        }
        match head {
            Ok(mut part) => {
                let ghost part_v = part@.map_values(|a: ApiResource| a@);
                out.append(&mut part);
                proof {
                    assert(out@.map_values(|a: ApiResource| a@) =~= out_pre + part_v);
                    assert((out_pre + part_v) + oks_of(rvs.skip(k + 1)) =~= out_pre + (part_v
                        + oks_of(rvs.skip(k + 1))));
                    assert(errs_pre + errs_of(rvs.skip(k)) =~= errs_pre + errs_of(
                        rvs.skip(k + 1),
                    ));
                }
            },
            Err(e) => {
                let ghost e_v = e@;
                errs.push(e);
                proof {
                    assert(errs@.map_values(|s: String| s@) =~= errs_pre.push(e_v));
                    assert(errs_pre.push(e_v) + errs_of(rvs.skip(k + 1)) =~= errs_pre + (seq![
                        e_v,
                    ] + errs_of(rvs.skip(k + 1))));
                    assert(out_pre + oks_of(rvs.skip(k)) =~= out_pre + oks_of(rvs.skip(k + 1)));
                }
            },
        }
    }
    proof {
        assert(rvs.skip(rvs.len() - 0) =~= Seq::<Result<Seq<ApiResourceView>, Seq<char>>>::empty());
        assert(out@.map_values(|a: ApiResource| a@) + Seq::<ApiResourceView>::empty() =~= out@.map_values(
            |a: ApiResource| a@,
        ));
        assert(errs@.map_values(|s: String| s@) + Seq::<Seq<char>>::empty() =~= errs@.map_values(
            |s: String| s@,
        ));
    }
    (out, errs)
}

/// Partial discovery: every descriptor of every successful group is present
/// in the merged catalog, whatever happened to the other groups.
pub proof fn lemma_partial_discovery(
    results: Seq<Result<Seq<ApiResourceView>, Seq<char>>>,
    i: int,
    part: Seq<ApiResourceView>,
)
    requires
        0 <= i < results.len(),
        results[i] == Ok::<Seq<ApiResourceView>, Seq<char>>(part),
    ensures
        forall|j: int| 0 <= j < part.len() ==> oks_of(results).contains(#[trigger] part[j]),
    decreases results.len(),
{
    let head = (match results[0] {
        Ok(p) => p,
        Err(_) => Seq::<ApiResourceView>::empty(),
    });
    assert(oks_of(results) == head + oks_of(results.drop_first()));
    if i == 0 {
        assert forall|j: int| 0 <= j < part.len() implies oks_of(results).contains(
            #[trigger] part[j],
        ) by {
            assert(oks_of(results)[j] == part[j]);
        }
    } else {
        lemma_partial_discovery(results.drop_first(), i - 1, part);
        assert forall|j: int| 0 <= j < part.len() implies oks_of(results).contains(
            #[trigger] part[j],
        ) by {
            let sub = oks_of(results.drop_first());
            assert(sub.contains(part[j]));
            let w = choose|w: int| 0 <= w < sub.len() && sub[w] == part[j];
            assert(oks_of(results)[head.len() + w] == part[j]);
        }
    }
}

} // verus!
