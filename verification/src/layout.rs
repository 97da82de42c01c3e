//! Layout tells where specific thing should live.
//!
//! The layout engine is a pure, total function from an object's identity
//! (group, kind, namespace, name) to the directory that holds everything
//! dumped about that object. Name escaping, when enabled, applies only to the
//! leaf name segment and is injective, so distinct identities never collide.
use vstd::prelude::*;
use vstd::string::StrSliceExecFns;
use vstd::string::StringExecFns;
use crate::strutil::{joined, join_path, push_char};
use crate::Opts;
use crate::generic::ResourceMeta;

verus! {

/// The escape sequence standing for one character of a name: reserved
/// characters become a literal marker, every other character stands for
/// itself.
pub open spec fn esc_char(c: char) -> Seq<char> {
    if c == '~' {
        seq!['~', 't', 'i', 'l', 'd', 'a', '_']
    } else if c == ':' {
        seq![
            '~',
            'c',
            'o',
            'l',
            'o',
            'n',
            '_',
        ]
    } else {
        seq![c]
    }
}

/// A name with every reserved character replaced by its escape sequence.
pub open spec fn escaped(s: Seq<char>) -> Seq<char>
    decreases s.len(),
{
    if s.len() == 0 {
        Seq::empty()
    } else {
        esc_char(s[0]) + escaped(s.drop_first())
    }
}

/// Inverse of `escaped`: folds each marker back into the character it stands
/// for. Used to show that escaping never makes two distinct names collide.
pub open spec fn unescaped(s: Seq<char>) -> Seq<char>
    decreases s.len(),
{
    if s.len() == 0 {
        Seq::empty()
    } else if s.len() >= 7 && s.subrange(0, 7) == esc_char('~') {
        seq!['~'] + unescaped(s.subrange(7, s.len() as int))
    } else if s.len() >= 7 && s.subrange(0, 7) == esc_char(':') {
        seq![':'] + unescaped(s.subrange(7, s.len() as int))
    } else {
        seq![s[0]] + unescaped(s.subrange(1, s.len() as int))
    }
}

pub proof fn lemma_escaped_push(s: Seq<char>, c: char)
    ensures
        escaped(s.push(c)) == escaped(s) + esc_char(c),
    decreases s.len(),
{
    if s.len() == 0 {
        assert(s.push(c)[0] == c);
        assert(s.push(c).drop_first() =~= Seq::<char>::empty());
        assert(escaped(s.push(c)) == esc_char(c) + escaped(Seq::<char>::empty()));
        assert(escaped(s.push(c)) =~= escaped(s) + esc_char(c));
    } else {
        assert(s.push(c)[0] == s[0]);
        assert(s.push(c).drop_first() =~= s.drop_first().push(c));
        lemma_escaped_push(s.drop_first(), c);
        assert(escaped(s.push(c)) == esc_char(s[0]) + (escaped(s.drop_first()) + esc_char(c)));
        assert(escaped(s) + esc_char(c) == (esc_char(s[0]) + escaped(s.drop_first())) + esc_char(
            c,
        ));
        assert(escaped(s.push(c)) =~= escaped(s) + esc_char(c));
    }
}

/// Escaping round-trip: folding the markers back recovers the original name,
/// for every name.
pub proof fn lemma_unescape_escape(s: Seq<char>)
    ensures
        unescaped(escaped(s)) == s,
    decreases s.len(),
{
    if s.len() == 0 {
        assert(unescaped(escaped(s)) =~= s);
    } else {
        let rest = s.drop_first();
        lemma_unescape_escape(rest);
        let e = escaped(s);
        assert(e == esc_char(s[0]) + escaped(rest));
        if s[0] == '~' {
            assert(e.subrange(0, 7) =~= esc_char('~'));
            assert(e.subrange(7, e.len() as int) =~= escaped(rest));
            assert(unescaped(e) =~= s);
        } else if s[0] == ':' {
            assert(e.subrange(0, 7) =~= esc_char(':'));
            assert(e.subrange(0, 7) != esc_char('~')) by {
                assert(esc_char(':')[1] != esc_char('~')[1]);
            }
            assert(e.subrange(7, e.len() as int) =~= escaped(rest));
            assert(unescaped(e) =~= s);
        } else {
            assert(e[0] == s[0]);
            if e.len() >= 7 {
                assert(e.subrange(0, 7) != esc_char('~')) by {
                    assert(e.subrange(0, 7)[0] == e[0]);
                    assert(esc_char('~')[0] == '~');
                }
                assert(e.subrange(0, 7) != esc_char(':')) by {
                    assert(e.subrange(0, 7)[0] == e[0]);
                    assert(esc_char(':')[0] == '~');
                }
            }
            assert(e.subrange(1, e.len() as int) =~= escaped(rest));
            assert(unescaped(e) =~= s);
        }
    }
}

/// Escaping is injective: distinct names have distinct escaped forms, so two
/// identities differing only by name land in distinct directories.
pub proof fn lemma_escaped_names_distinct(a: Seq<char>, b: Seq<char>)
    requires
        a != b,
    ensures
        escaped(a) != escaped(b),
{
    lemma_unescape_escape(a);
    lemma_unescape_escape(b);
}

/// An escaped name holds no colon at all.
pub proof fn lemma_escaped_no_colon(s: Seq<char>)
    ensures
        forall|i: int| 0 <= i < escaped(s).len() ==> escaped(s)[i] != ':',
    decreases s.len(),
{
    if s.len() > 0 {
        lemma_escaped_no_colon(s.drop_first());
        let e0 = esc_char(s[0]);
        let rest = escaped(s.drop_first());
        assert(escaped(s) == e0 + rest);
        assert(forall|i: int| 0 <= i < e0.len() ==> e0[i] != ':');
        assert forall|i: int| 0 <= i < escaped(s).len() implies escaped(s)[i] != ':' by {
            if i < e0.len() {
                assert(escaped(s)[i] == e0[i]);
            } else {
                assert(escaped(s)[i] == rest[i - e0.len()]);
            }
        }
    }
}

/// In an escaped name every '~' begins an escape marker: no reserved
/// character of the original survives in its raw form.
pub proof fn lemma_escaped_tilde_starts_marker(s: Seq<char>, i: int)
    requires
        0 <= i < escaped(s).len(),
        escaped(s)[i] == '~',
    ensures
        i + 7 <= escaped(s).len(),
        escaped(s).subrange(i, i + 7) == esc_char('~') || escaped(s).subrange(i, i + 7)
            == esc_char(':'),
    decreases s.len(),
{
    let e0 = esc_char(s[0]);
    let rest = escaped(s.drop_first());
    assert(escaped(s) == e0 + rest);
    if i < e0.len() {
        if s[0] == '~' || s[0] == ':' {
            assert(forall|j: int| 0 < j < 7 ==> e0[j] != '~');
            assert(i == 0);
            assert(escaped(s).subrange(0, 7) =~= e0);
        } else {
            assert(escaped(s)[i] == s[0]);
            assert(false);
        }
    } else {
        assert(rest[i - e0.len()] == escaped(s)[i]);
        lemma_escaped_tilde_starts_marker(s.drop_first(), i - e0.len());
        assert(escaped(s).subrange(i, i + 7) =~= rest.subrange(i - e0.len(), i - e0.len() + 7));
    }
}

/// Escaping a name without reserved characters is the identity transform.
pub proof fn lemma_escaped_identity(s: Seq<char>)
    requires
        forall|i: int| 0 <= i < s.len() ==> s[i] != '~' && s[i] != ':',
    ensures
        escaped(s) == s,
    decreases s.len(),
{
    if s.len() == 0 {
        assert(escaped(s) =~= s);
    } else {
        lemma_escaped_identity(s.drop_first());
        assert(escaped(s) =~= s);
    }
}

/// The leaf name segment as the layout writes it.
pub open spec fn leaf_name(escape: bool, name: Seq<char>) -> Seq<char> {
    if escape {
        escaped(name)
    } else {
        name
    }
}

/// The namespace path segment: the namespace itself, or the marker segment
/// for cluster-scoped objects.
pub open spec fn namespace_segment(namespace: Option<Seq<char>>) -> Seq<char> {
    match namespace {
        Some(ns) => ns,
        None => "_global_"@,
    }
}

/// The directory that holds everything dumped about one object:
/// `<root>/<namespace|_global_>/<group>/<kind>/<leaf name>`, with the group
/// segment omitted entirely for the legacy/core group.
pub open spec fn object_root_spec(
    root: Seq<char>,
    escape: bool,
    group: Seq<char>,
    kind: Seq<char>,
    namespace: Option<Seq<char>>,
    name: Seq<char>,
) -> Seq<char> {
    let kind_part = if group.len() > 0 {
        group + seq!['/'] + kind
    } else {
        kind
    };
    joined(joined(joined(root, namespace_segment(namespace)), kind_part), leaf_name(escape, name))
}

/// View of an optional borrowed namespace.
pub open spec fn opt_str_view(s: Option<&str>) -> Option<Seq<char>> {
    match s {
        Some(x) => Some(x@),
        None => None,
    }
}

/// Escape a name: each reserved character becomes its marker, everything else
/// is copied through.
pub fn escape_name(name: &str) -> (r: String)
    ensures
        r@ == escaped(name@),
{
    let len = name.unicode_len();
    let mut out = String::new();
    let mut i: usize = 0;
    while i < len
        invariant
            i <= len,
            len == name@.len(),
            out@ == escaped(name@.subrange(0, i as int)),
        decreases len - i,
    {
        let c = name.get_char(i);
        if c == '~' {
            out.append("~tilda_");
        } else if c == ':' {
            out.append("~colon_");
        } else {
            push_char(&mut out, c);
        }
        proof {
            reveal_strlit("~tilda_");
            reveal_strlit("~colon_");
            assert("~tilda_"@ =~= esc_char('~'));
            assert("~colon_"@ =~= esc_char(':'));
            let pre = name@.subrange(0, i as int);
            assert(name@.subrange(0, i + 1 as int) =~= pre.push(name@[i as int]));
            lemma_escaped_push(pre, name@[i as int]);
        }
        i = i + 1;
    }
    proof {
        assert(name@.subrange(0, len as int) =~= name@);
    }
    out
}

/// Where each dumped file lives under the output root.
pub struct Layout {
    root: String,
    escape: bool,
}

impl Layout {
    /// The output root this layout writes under.
    pub closed spec fn spec_root(&self) -> Seq<char> {
        self.root@
    }

    /// Whether reserved characters in leaf names are escaped.
    pub closed spec fn spec_escape(&self) -> bool {
        self.escape
    }

    pub fn new(opts: &Opts) -> (r: Layout)
        ensures
            r.spec_root() == opts.out@,
            r.spec_escape() == opts.escape_paths,
    {
        Layout { root: opts.out.clone(), escape: opts.escape_paths }
    }

    /// Information reported by the auxiliary cluster summary command.
    pub fn cluster_info(&self) -> (r: String)
        ensures
            r@ == joined(self.spec_root(), "cluster-info.txt"@),
    {
        join_path(self.root.as_str(), "cluster-info.txt")
    }

    /// The API server release.
    pub fn cluster_version(&self) -> (r: String)
        ensures
            r@ == joined(self.spec_root(), "cluster-version.json"@),
    {
        join_path(self.root.as_str(), "cluster-version.json")
    }

    /// All discovered API resources.
    pub fn cluster_api_resources(&self) -> (r: String)
        ensures
            r@ == joined(self.spec_root(), "apis.json"@),
    {
        join_path(self.root.as_str(), "apis.json")
    }

    /// The leaf name segment, escaped only when this layout asks for it.
    pub fn maybe_escape_name(&self, name: &str) -> (r: String)
        ensures
            r@ == leaf_name(self.spec_escape(), name@),
    {
        if !self.escape {
            return name.to_owned();
        }
        escape_name(name)
    }

    /// The directory for one object, from its identity.
    pub fn object_layout(&self, resource: &ResourceMeta, namespace: Option<&str>, name: &str) -> (r:
        ObjectLayout)
        ensures
            r.spec_dir() == object_root_spec(
                self.spec_root(),
                self.spec_escape(),
                resource.group@,
                resource.kind@,
                opt_str_view(namespace),
                name@,
            ),
    {
        let mut p = self.root.clone();
        push_char(&mut p, '/');
        match namespace {
            Some(ns) => p.append(ns),
            None => p.append("_global_"),
        }
        push_char(&mut p, '/');
        if !self.group_is_empty(resource) {
            p.append(resource.group.as_str());
            push_char(&mut p, '/');
        }
        p.append(resource.kind.as_str());
        push_char(&mut p, '/');
        let leaf = self.maybe_escape_name(name);
        p.append(leaf.as_str());
        proof {
            assert(p@ =~= object_root_spec(
                self.spec_root(),
                self.spec_escape(),
                resource.group@,
                resource.kind@,
                opt_str_view(namespace),
                name@,
            ));
        }
        ObjectLayout { root: p }
    }

    fn group_is_empty(&self, resource: &ResourceMeta) -> (r: bool)
        ensures
            r == (resource.group@.len() == 0),
    {
        resource.group.as_str().is_empty()
    }
}

/// Computing an object's directory twice from the same identity yields the
/// same directory: the layout is a function of its inputs alone.
pub proof fn lemma_layout_deterministic(
    l1: Layout,
    l2: Layout,
    group: Seq<char>,
    kind: Seq<char>,
    namespace: Option<Seq<char>>,
    name: Seq<char>,
)
    requires
        l1.spec_root() == l2.spec_root(),
        l1.spec_escape() == l2.spec_escape(),
    ensures
        object_root_spec(l1.spec_root(), l1.spec_escape(), group, kind, namespace, name)
            == object_root_spec(l2.spec_root(), l2.spec_escape(), group, kind, namespace, name),
{
}

/// Two identities that differ only by name land in distinct directories
/// whenever escaping is enabled: the escaped leaf segments are distinct.
pub proof fn lemma_object_roots_distinct(
    root: Seq<char>,
    group: Seq<char>,
    kind: Seq<char>,
    namespace: Option<Seq<char>>,
    name_a: Seq<char>,
    name_b: Seq<char>,
)
    requires
        name_a != name_b,
    ensures
        leaf_name(true, name_a) != leaf_name(true, name_b),
        object_root_spec(root, true, group, kind, namespace, name_a) != object_root_spec(
            root,
            true,
            group,
            kind,
            namespace,
            name_b,
        ),
{
    lemma_escaped_names_distinct(name_a, name_b);
    let pa = object_root_spec(root, true, group, kind, namespace, name_a);
    let pb = object_root_spec(root, true, group, kind, namespace, name_b);
    if pa == pb {
        let kind_part = if group.len() > 0 {
            group + seq!['/'] + kind
        } else {
            kind
        };
        let pre = joined(joined(root, namespace_segment(namespace)), kind_part) + seq!['/'];
        assert(pa =~= pre + escaped(name_a));
        assert(pb =~= pre + escaped(name_b));
        assert(escaped(name_a) =~= pa.subrange(pre.len() as int, pa.len() as int));
        assert(escaped(name_b) =~= pb.subrange(pre.len() as int, pb.len() as int));
    }
}

/// Where object-related files live inside one object's directory.
pub struct ObjectLayout {
    root: String,
}

/// Which instance of a container the logs belong to.
pub enum LogsKind {
    Current,
    Previous,
}

/// The file-name suffix that marks the log instance.
pub open spec fn logs_suffix(kind: LogsKind) -> Seq<char> {
    match kind {
        LogsKind::Current => Seq::empty(),
        LogsKind::Previous => "-prev"@,
    }
}

impl ObjectLayout {
    /// The object's directory.
    pub closed spec fn spec_dir(&self) -> Seq<char> {
        self.root@
    }

    /// The object's own representation file.
    pub fn representation(&self) -> (r: String)
        ensures
            r@ == joined(self.spec_dir(), "raw.json"@),
    {
        join_path(self.root.as_str(), "raw.json")
    }

    /// Log file for one container of a pod.
    pub fn logs(&self, kind: LogsKind, container_name: &str) -> (r: String)
        ensures
            r@ == joined(
                self.spec_dir(),
                "logs-"@ + container_name@ + logs_suffix(kind) + ".txt"@,
            ),
    {
        let mut file_name = "logs-".to_owned();
        file_name.append(container_name);
        match kind {
            LogsKind::Current => {
            },
            LogsKind::Previous => {
                file_name.append("-prev");
            },
        }
        file_name.append(".txt");
        let r = join_path(self.root.as_str(), file_name.as_str());
        proof {
            assert(file_name@ =~= "logs-"@ + container_name@ + logs_suffix(kind) + ".txt"@);
            assert(r@ =~= joined(
                self.spec_dir(),
                "logs-"@ + container_name@ + logs_suffix(kind) + ".txt"@,
            ));
        }
        r
    }

    /// One extracted data entry of a config map or secret.
    pub fn data_piece(&self, key: &str) -> (r: String)
        ensures
            r@ == joined(self.spec_dir(), "data-"@ + key@),
    {
        let mut file_name = "data-".to_owned();
        file_name.append(key);
        let r = join_path(self.root.as_str(), file_name.as_str());
        r
    }

    /// The correlated event log written beside the object.
    pub fn event_log(&self) -> (r: String)
        ensures
            r@ == joined(self.spec_dir(), "events.txt"@),
    {
        join_path(self.root.as_str(), "events.txt")
    }
}

} // verus!
