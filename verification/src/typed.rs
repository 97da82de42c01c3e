//! Typed enrichers: per-kind post-processing of objects the pipeline already
//! dumped. Each enricher turns what was fetched for one object into the list
//! of files to write under that object's layout; fetches that came back
//! absent are a normal state and simply produce no file.
use vstd::prelude::*;
use crate::strutil::joined;
use crate::layout::{logs_suffix, LogsKind, ObjectLayout};

verus! {

/// Logs fetched for one container of a pod: either instance may be absent
/// (the container may not have started; a previous instance exists only
/// after a restart), which is a normal state, not an error.
pub struct ContainerLogs {
    pub container: String,
    pub current: Option<String>,
    pub previous: Option<String>,
}

/// Mathematical model of one container's fetched logs.
pub struct ContainerLogsView {
    pub container: Seq<char>,
    pub current: Option<Seq<char>>,
    pub previous: Option<Seq<char>>,
}

impl View for ContainerLogs {
    type V = ContainerLogsView;

    open spec fn view(&self) -> ContainerLogsView {
        ContainerLogsView {
            container: self.container@,
            current: match self.current {
                Some(ref s) => Some(s@),
                None => None,
            },
            previous: match self.previous {
                Some(ref s) => Some(s@),
                None => None,
            },
        }
    }
}

/// The log file path of one container instance under an object's directory.
pub open spec fn log_path(dir: Seq<char>, container: Seq<char>, kind: LogsKind) -> Seq<char> {
    joined(dir, "logs-"@ + container + logs_suffix(kind) + ".txt"@)
}

/// The files one container's logs become: current logs first, then the
/// previous instance's, each only when present.
pub open spec fn container_log_writes(dir: Seq<char>, c: ContainerLogsView) -> Seq<
    (Seq<char>, Seq<char>),
> {
    (match c.current {
        Some(body) => seq![(log_path(dir, c.container, LogsKind::Current), body)],
        None => Seq::empty(),
    }) + (match c.previous {
        Some(body) => seq![(log_path(dir, c.container, LogsKind::Previous), body)],
        None => Seq::empty(),
    })
}

/// The files a pod's fetched logs become, container by container.
pub open spec fn pod_log_writes_spec(dir: Seq<char>, cs: Seq<ContainerLogsView>) -> Seq<
    (Seq<char>, Seq<char>),
>
    decreases cs.len(),
{
    if cs.len() == 0 {
        Seq::empty()
    } else {
        container_log_writes(dir, cs[0]) + pod_log_writes_spec(dir, cs.drop_first())
    }
}

/// Turn a pod's fetched container logs into the files to write: one log file
/// per present instance, none for an absent one.
pub fn pod_log_writes(layout: &ObjectLayout, containers: Vec<ContainerLogs>) -> (r: Vec<
    (String, String),
>)
    ensures
        r@.map_values(|p: (String, String)| (p.0@, p.1@)) == pod_log_writes_spec(
            layout.spec_dir(),
            containers@.map_values(|c: ContainerLogs| c@),
        ),
{
    let ghost dir = layout.spec_dir();
    let ghost cvs = containers@.map_values(|c: ContainerLogs| c@);
    let mut rest = containers;
    let mut out: Vec<(String, String)> = Vec::new();
    proof {
        assert(cvs.skip(0) =~= cvs);
        assert(out@.map_values(|p: (String, String)| (p.0@, p.1@)) =~= Seq::<
            (Seq<char>, Seq<char>),
        >::empty());
        assert(Seq::<(Seq<char>, Seq<char>)>::empty() + pod_log_writes_spec(dir, cvs)
            =~= pod_log_writes_spec(dir, cvs));
    }
    while rest.len() > 0
        invariant
            rest@.map_values(|c: ContainerLogs| c@) == cvs.skip(cvs.len() - rest@.len()),
            rest@.len() <= cvs.len(),
            out@.map_values(|p: (String, String)| (p.0@, p.1@)) + pod_log_writes_spec(
                dir,
                cvs.skip(cvs.len() - rest@.len()),
            ) == pod_log_writes_spec(dir, cvs),
            dir == layout.spec_dir(),
        decreases rest.len(),
    {
        let ghost k: int = cvs.len() - rest@.len();
        let ghost out_pre = out@.map_values(|p: (String, String)| (p.0@, p.1@));
        let ghost rest_pre = rest@;
        proof {
            assert(cvs.skip(k)[0] == cvs[k]);
            assert(cvs.skip(k).drop_first() =~= cvs.skip(k + 1));
            assert(rest_pre.map_values(|c: ContainerLogs| c@)[0] == cvs[k]);
        }
        let c = rest.remove(0);
        let ghost cv = c@;
        proof {
            assert(cv == cvs[k]);
            assert(rest@ =~= rest_pre.drop_first());
            assert forall|i: int| 0 <= i < rest@.len() implies (#[trigger] rest@[i])@ == cvs.skip(
                k + 1,
            )[i] by {
                assert(rest@[i] == rest_pre[i + 1]);
                assert(rest_pre.map_values(|x: ContainerLogs| x@)[i + 1] == cvs.skip(k)[i + 1]);
            }
            assert(rest@.map_values(|x: ContainerLogs| x@) =~= cvs.skip(k + 1));
        }
        let name = c.container;
        match c.current {
            Some(body) => {
                let p = layout.logs(LogsKind::Current, name.as_str());
                out.push((p, body));
            },
            None => (),
        }
        match c.previous {
            Some(body) => {
                let p = layout.logs(LogsKind::Previous, name.as_str());
                out.push((p, body));
            },
            None => (),
        }
        proof {
            assert(out@.map_values(|p: (String, String)| (p.0@, p.1@)) =~= out_pre
                + container_log_writes(dir, cv));
            assert((out_pre + container_log_writes(dir, cv)) + pod_log_writes_spec(
                dir,
                cvs.skip(k + 1),
            ) =~= out_pre + (container_log_writes(dir, cv) + pod_log_writes_spec(
                dir,
                cvs.skip(k + 1),
            )));
        }
    }
    proof {
        assert(cvs.skip(cvs.len() - 0) =~= Seq::<ContainerLogsView>::empty());
        assert(out@.map_values(|p: (String, String)| (p.0@, p.1@)) + Seq::<
            (Seq<char>, Seq<char>),
        >::empty() =~= out@.map_values(|p: (String, String)| (p.0@, p.1@)));
    }
    out
}

/// One extracted data value, written exactly as received: no transformation
/// or decoding beyond what the API already applied.
pub enum DataPayload {
    Text(String),
    Binary(Vec<u8>),
}

/// Mathematical model of one extracted data value.
pub enum DataPayloadView {
    Text(Seq<char>),
    Binary(Seq<u8>),
}

impl View for DataPayload {
    type V = DataPayloadView;

    open spec fn view(&self) -> DataPayloadView {
        match self {
            DataPayload::Text(s) => DataPayloadView::Text(s@),
            DataPayload::Binary(b) => DataPayloadView::Binary(b@),
        }
    }
}

/// The file one binary data entry becomes.
pub open spec fn binary_write(dir: Seq<char>, p: (Seq<char>, Seq<u8>)) -> (
    Seq<char>,
    DataPayloadView,
) {
    (joined(dir, "data-"@ + p.0), DataPayloadView::Binary(p.1))
}

/// The file one text data entry becomes.
pub open spec fn text_write(dir: Seq<char>, p: (Seq<char>, Seq<char>)) -> (
    Seq<char>,
    DataPayloadView,
) {
    (joined(dir, "data-"@ + p.0), DataPayloadView::Text(p.1))
}

/// The files a config map becomes: one file per key, binary entries first,
/// then text entries, each value exactly as received.
pub open spec fn config_map_writes_spec(
    dir: Seq<char>,
    binary: Seq<(Seq<char>, Seq<u8>)>,
    text: Seq<(Seq<char>, Seq<char>)>,
) -> Seq<(Seq<char>, DataPayloadView)> {
    binary.map_values(|p: (Seq<char>, Seq<u8>)| binary_write(dir, p)) + text.map_values(
        |p: (Seq<char>, Seq<char>)| text_write(dir, p),
    )
}

/// Turn a config map's data into the files to write under its layout.
pub fn config_map_writes(
    layout: &ObjectLayout,
    binary_data: Vec<(String, Vec<u8>)>,
    data: Vec<(String, String)>,
) -> (r: Vec<(String, DataPayload)>)
    ensures
        r@.map_values(|p: (String, DataPayload)| (p.0@, p.1@)) == config_map_writes_spec(
            layout.spec_dir(),
            binary_data@.map_values(|p: (String, Vec<u8>)| (p.0@, p.1@)),
            data@.map_values(|p: (String, String)| (p.0@, p.1@)),
        ),
{
    let ghost dir = layout.spec_dir();
    let ghost bvs = binary_data@.map_values(|p: (String, Vec<u8>)| (p.0@, p.1@));
    let ghost tvs = data@.map_values(|p: (String, String)| (p.0@, p.1@));
    let mut out: Vec<(String, DataPayload)> = Vec::new();
    let mut rest = binary_data;
    while rest.len() > 0
        invariant
            rest@.map_values(|p: (String, Vec<u8>)| (p.0@, p.1@)) == bvs.skip(
                bvs.len() - rest@.len(),
            ),
            rest@.len() <= bvs.len(),
            out@.map_values(|p: (String, DataPayload)| (p.0@, p.1@)) == bvs.take(
                bvs.len() - rest@.len(),
            ).map_values(|p: (Seq<char>, Seq<u8>)| binary_write(dir, p)),
            dir == layout.spec_dir(),
        decreases rest.len(),
    {
        let ghost k: int = bvs.len() - rest@.len();
        let ghost out_pre = out@.map_values(|p: (String, DataPayload)| (p.0@, p.1@));
        let ghost rest_pre = rest@;
        proof {
            assert(rest_pre.map_values(|p: (String, Vec<u8>)| (p.0@, p.1@))[0] == bvs.skip(k)[0]);
            assert(bvs.skip(k)[0] == bvs[k]);
        }
        let entry = rest.remove(0);
        proof {
            assert(rest@ =~= rest_pre.drop_first());
            assert forall|i: int| 0 <= i < rest@.len() implies (
            #[trigger] rest@[i].0@,
                rest@[i].1@,
            ) == bvs.skip(k + 1)[i] by {
                assert(rest@[i] == rest_pre[i + 1]);
                assert(rest_pre.map_values(|p: (String, Vec<u8>)| (p.0@, p.1@))[i + 1]
                    == bvs.skip(k)[i + 1]);
            }
            assert(rest@.map_values(|p: (String, Vec<u8>)| (p.0@, p.1@)) =~= bvs.skip(k + 1));
        }
        let path = layout.data_piece(entry.0.as_str());
        out.push((path, DataPayload::Binary(entry.1)));
        proof {
            assert(out@.map_values(|p: (String, DataPayload)| (p.0@, p.1@)) =~= out_pre.push(
                binary_write(dir, bvs[k]),
            ));
            assert(bvs.take(k + 1) =~= bvs.take(k).push(bvs[k]));
            assert(out_pre.push(binary_write(dir, bvs[k])) =~= bvs.take(k + 1).map_values(
                |p: (Seq<char>, Seq<u8>)| binary_write(dir, p),
            ));
        }
    }
    proof {
        assert(bvs.take(bvs.len() - 0) =~= bvs);
    }
    let mut trest = data;
    while trest.len() > 0
        invariant
            trest@.map_values(|p: (String, String)| (p.0@, p.1@)) == tvs.skip(
                tvs.len() - trest@.len(),
            ),
            trest@.len() <= tvs.len(),
            out@.map_values(|p: (String, DataPayload)| (p.0@, p.1@)) == bvs.map_values(
                |p: (Seq<char>, Seq<u8>)| binary_write(dir, p),
            ) + tvs.take(tvs.len() - trest@.len()).map_values(
                |p: (Seq<char>, Seq<char>)| text_write(dir, p),
            ),
            dir == layout.spec_dir(),
        decreases trest.len(),
    {
        let ghost k: int = tvs.len() - trest@.len();
        let ghost out_pre = out@.map_values(|p: (String, DataPayload)| (p.0@, p.1@));
        let ghost rest_pre = trest@;
        proof {
            assert(rest_pre.map_values(|p: (String, String)| (p.0@, p.1@))[0] == tvs.skip(k)[0]);
            assert(tvs.skip(k)[0] == tvs[k]);
        }
        let entry = trest.remove(0);
        proof {
            assert(trest@ =~= rest_pre.drop_first());
            assert forall|i: int| 0 <= i < trest@.len() implies (
            #[trigger] trest@[i].0@,
                trest@[i].1@,
            ) == tvs.skip(k + 1)[i] by {
                assert(trest@[i] == rest_pre[i + 1]);
                assert(rest_pre.map_values(|p: (String, String)| (p.0@, p.1@))[i + 1] == tvs.skip(
                    k,
                )[i + 1]);
            }
            assert(trest@.map_values(|p: (String, String)| (p.0@, p.1@)) =~= tvs.skip(k + 1));
        }
        let path = layout.data_piece(entry.0.as_str());
        out.push((path, DataPayload::Text(entry.1)));
        proof {
            assert(out@.map_values(|p: (String, DataPayload)| (p.0@, p.1@)) =~= out_pre.push(
                text_write(dir, tvs[k]),
            ));
            assert(tvs.take(k + 1) =~= tvs.take(k).push(tvs[k]));
            assert(out_pre.push(text_write(dir, tvs[k])) =~= bvs.map_values(
                |p: (Seq<char>, Seq<u8>)| binary_write(dir, p),
            ) + tvs.take(k + 1).map_values(|p: (Seq<char>, Seq<char>)| text_write(dir, p)));
        }
    }
    proof {
        assert(tvs.take(tvs.len() - 0) =~= tvs);
    }
    out
}

/// The files a secret becomes: one file per key, each value exactly as
/// received — if the source encodes them, this pipeline does not decode them
/// further than the API already does.
pub open spec fn secret_writes_spec(dir: Seq<char>, entries: Seq<(Seq<char>, Seq<u8>)>) -> Seq<
    (Seq<char>, DataPayloadView),
> {
    entries.map_values(|p: (Seq<char>, Seq<u8>)| binary_write(dir, p))
}

/// Turn a secret's data into the files to write under its layout.
pub fn secret_writes(layout: &ObjectLayout, data: Vec<(String, Vec<u8>)>) -> (r: Vec<
    (String, DataPayload),
>)
    ensures
        r@.map_values(|p: (String, DataPayload)| (p.0@, p.1@)) == secret_writes_spec(
            layout.spec_dir(),
            data@.map_values(|p: (String, Vec<u8>)| (p.0@, p.1@)),
        ),
{
    let empty_text: Vec<(String, String)> = Vec::new();
    let r = config_map_writes(layout, data, empty_text);
    proof {
        assert(Seq::<(Seq<char>, Seq<char>)>::empty().map_values(
            |p: (Seq<char>, Seq<char>)| text_write(layout.spec_dir(), p),
        ) =~= Seq::<(Seq<char>, DataPayloadView)>::empty());
        assert(empty_text@.map_values(|p: (String, String)| (p.0@, p.1@)) =~= Seq::<
            (Seq<char>, Seq<char>),
        >::empty());
        assert(r@.map_values(|p: (String, DataPayload)| (p.0@, p.1@)) =~= secret_writes_spec(
            layout.spec_dir(),
            data@.map_values(|p: (String, Vec<u8>)| (p.0@, p.1@)),
        ));
    }
    r
}

} // verus!
