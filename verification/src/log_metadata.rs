//! Log-file metadata: parsing the naming convention
//! `<pod>_<namespace>_<container>-<containerID>.log`, filtering by
//! namespace, and building the listing of a directory scan.

use vstd::prelude::*;

use crate::scan;

verus! {

/// Identity of a container log file, parsed from its name; `node_name` is
/// the process-wide node name.
#[derive(Debug, Clone, PartialEq)]
pub struct LogMetadataSpec {
    pub container_id: Vec<u8>,
    pub container_name: Vec<u8>,
    pub pod_name: Vec<u8>,
    pub node_name: Vec<u8>,
    pub namespace: Vec<u8>,
}

/// What `stat` reported of a log file when it was observed.
#[derive(Debug, Clone, Copy, PartialEq, Eq, Structural)]
pub struct LogMetadataFileInfo {
    pub size: i64,
    pub last_modified_at: Option<i64>,
}

/// One listed log file: its container id, parsed identity, and file state.
#[derive(Debug, Clone, PartialEq)]
pub struct LogMetadata {
    pub id: Vec<u8>,
    pub spec_info: LogMetadataSpec,
    pub file_info: LogMetadataFileInfo,
}

/// The `.log` suffix of every recognised file name.
pub open spec fn log_suffix() -> Seq<u8> {
    seq![46u8, 108u8, 111u8, 103u8]
}

/// The parse of a log file name under the convention
/// `<pod>_<namespace>_<container>-<id>.log`: pod and namespace run to the
/// first two underscores and hold none themselves, the container name may
/// hold any byte, and the id follows the last dash and holds no dash.  All
/// four parts are non-empty.  The result is `(pod, namespace, container,
/// id)`.
pub open spec fn parse_log_filename(name: Seq<u8>) -> Option<(Seq<u8>, Seq<u8>, Seq<u8>, Seq<u8>)> {
    if !scan::ends_with(name, log_suffix()) {
        None
    } else {
        let stem = name.take(name.len() - 4);
        let i = scan::first_occ(stem, 95u8) as int;
        if i < 1 || i >= stem.len() {
            None
        } else {
            let rest1 = stem.skip(i + 1);
            let j = scan::first_occ(rest1, 95u8) as int;
            if j < 1 || j >= rest1.len() {
                None
            } else {
                let r = rest1.skip(j + 1);
                let p = scan::last_occ(r, 45u8);
                if p < 1 || p + 1 >= r.len() {
                    None
                } else {
                    Some((stem.take(i), rest1.take(j), r.take(p), r.skip(p + 1)))
                }
            }
        }
    }
}

/// Parses a log file name into `(pod, namespace, container, id)`.
#[verifier::rlimit(60)]
pub fn parse_log_filename_bytes(name: &[u8]) -> (r: Option<(Vec<u8>, Vec<u8>, Vec<u8>, Vec<u8>)>)
    ensures
        match r {
            Some(p) => parse_log_filename(name@) == Some((p.0@, p.1@, p.2@, p.3@)),
            None => parse_log_filename(name@) is None,
        },
{
    let suffix: [u8; 4] = [46u8, 108u8, 111u8, 103u8];
    proof {
        assert(suffix@ =~= log_suffix());
    }
    if !scan::bytes_end_with(name, suffix.as_slice()) {
        return None;
    }
    let stem_len = name.len() - 4;
    let ghost stem = name@.take(stem_len as int);
    let i = scan::find_byte(name, 0, 95u8);
    proof {
        assert(name@.skip(0) =~= name@);
        if i < stem_len {
            assert forall|j: int| 0 <= j < i implies stem[j] != 95u8 by {
                assert(stem[j] == name@[j]);
            }
            assert(stem[i as int] == name@[i as int]);
            scan::lemma_first_occ_is(stem, 95u8, i as int);
        } else {
            assert forall|j: int| 0 <= j < stem.len() implies stem[j] != 95u8 by {
                assert(stem[j] == name@[j]);
            }
            scan::lemma_first_occ_is(stem, 95u8, stem.len() as int);
        }
    }
    if i < 1 || i >= stem_len {
        return None;
    }
    let ghost rest1 = stem.skip(i + 1);
    let j = scan::find_byte(name, i + 1, 95u8);
    let ghost j_rel = j - i - 1;
    proof {
        if j < stem_len {
            assert forall|t: int| 0 <= t < j_rel implies rest1[t] != 95u8 by {
                assert(rest1[t] == name@[i + 1 + t]);
            }
            assert(rest1[j_rel] == name@[j as int]);
            scan::lemma_first_occ_is(rest1, 95u8, j_rel);
        } else {
            assert forall|t: int| 0 <= t < rest1.len() implies rest1[t] != 95u8 by {
                assert(rest1[t] == name@[i + 1 + t]);
            }
            scan::lemma_first_occ_is(rest1, 95u8, rest1.len() as int);
        }
    }
    if j <= i + 1 || j >= stem_len {
        return None;
    }
    let ghost r_seq = rest1.skip(j_rel + 1);
    let p_opt = scan::find_last_byte(name, j + 1, stem_len, 45u8);
    proof {
        match p_opt {
            Some(p) => {
                assert forall|t: int| p - j - 1 < t < r_seq.len() implies r_seq[t] != 45u8 by {
                    assert(r_seq[t] == name@[j + 1 + t]);
                }
                assert(r_seq[p - j - 1] == name@[p as int]);
                scan::lemma_last_occ_is(r_seq, 45u8, p - j - 1);
            },
            None => {
                assert forall|t: int| -1 < t < r_seq.len() implies r_seq[t] != 45u8 by {
                    assert(r_seq[t] == name@[j + 1 + t]);
                }
                scan::lemma_last_occ_is(r_seq, 45u8, -1);
            },
        }
    }
    match p_opt {
        None => None,
        Some(p) => {
            let ghost p_rel = p - j - 1;
            if p <= j + 1 || p + 2 > stem_len {
                return None;
            }
            let pod = scan::copy_range(name, 0, i);
            let ns = scan::copy_range(name, i + 1, j);
            let container = scan::copy_range(name, j + 1, p);
            let id = scan::copy_range(name, p + 1, stem_len);
            proof {
                assert(pod@ =~= stem.take(i as int));
                assert(ns@ =~= rest1.take(j_rel));
                assert(container@ =~= r_seq.take(p_rel));
                assert(id@ =~= r_seq.skip(p_rel + 1));
            }
            Some((pod, ns, container, id))
        },
    }
}

/// Whether the namespace passes the request's filter: an empty filter
/// admits every namespace.
pub open spec fn namespace_passes(namespaces: Seq<Seq<u8>>, ns: Seq<u8>) -> bool {
    namespaces.len() == 0 || namespaces.contains(ns)
}

/// Whether `ns` passes the filter `namespaces` (empty means all).
pub fn namespace_allowed(namespaces: &Vec<Vec<u8>>, ns: &[u8]) -> (r: bool)
    ensures
        r == namespace_passes(namespaces@.map_values(|v: Vec<u8>| v@), ns@),
{
    let ghost filter = namespaces@.map_values(|v: Vec<u8>| v@);
    if namespaces.len() == 0 {
        return true;
    }
    let mut i: usize = 0;
    while i < namespaces.len()
        invariant
            i <= namespaces@.len(),
            filter == namespaces@.map_values(|v: Vec<u8>| v@),
            forall|j: int| 0 <= j < i ==> filter[j] != ns@,
        decreases namespaces@.len() - i,
    {
        if scan::bytes_eq(namespaces[i].as_slice(), ns) {
            proof {
                assert(filter[i as int] == ns@);
            }
            return true;
        }
        i = i + 1;
    }
    proof {
        if filter.contains(ns@) {
            let j = choose|j: int| 0 <= j < filter.len() && filter[j] == ns@;
            assert(false);
        }
    }
    false
}

/// The parsed identity of a file when its name is recognised and its
/// namespace passes the filter, as `(pod, namespace, container, id)`.
pub open spec fn spec_metadata_spec(
    name: Seq<u8>,
    namespaces: Seq<Seq<u8>>,
) -> Option<(Seq<u8>, Seq<u8>, Seq<u8>, Seq<u8>)> {
    match parse_log_filename(name) {
        None => None,
        Some(p) => if namespace_passes(namespaces, p.1) {
            Some(p)
        } else {
            None
        },
    }
}

/// Parses a file name and applies the namespace filter, producing the
/// metadata identity carried by every event and listing.
pub fn get_log_metadata_spec(
    filename: &[u8],
    namespaces: &Vec<Vec<u8>>,
    node_name: &[u8],
) -> (r: Option<LogMetadataSpec>)
    ensures
        ({
            let filter = namespaces@.map_values(|v: Vec<u8>| v@);
            match r {
                Some(s) => spec_metadata_spec(filename@, filter) == Some(
                    (s.pod_name@, s.namespace@, s.container_name@, s.container_id@),
                ) && s.node_name@ == node_name@,
                None => spec_metadata_spec(filename@, filter) is None,
            }
        }),
{
    match parse_log_filename_bytes(filename) {
        None => None,
        Some(p) => {
            if !namespace_allowed(namespaces, p.1.as_slice()) {
                return None;
            }
            let node = scan::copy_range(node_name, 0, node_name.len());
            proof {
                assert(node@ =~= node_name@);
            }
            Some(
                LogMetadataSpec {
                    container_id: p.3,
                    container_name: p.2,
                    pod_name: p.0,
                    node_name: node,
                    namespace: p.1,
                },
            )
        },
    }
}

/// The listing a directory scan yields: one item per file whose name is
/// recognised and whose namespace passes the filter, in scan order, as
/// `(id, (pod, namespace, container, id), file info)`.
pub open spec fn spec_metadata_list(
    files: Seq<(Seq<u8>, LogMetadataFileInfo)>,
    namespaces: Seq<Seq<u8>>,
) -> Seq<((Seq<u8>, Seq<u8>, Seq<u8>, Seq<u8>), LogMetadataFileInfo)>
    decreases files.len(),
{
    if files.len() == 0 {
        Seq::empty()
    } else {
        let rest = spec_metadata_list(files.skip(1), namespaces);
        match spec_metadata_spec(files[0].0, namespaces) {
            Some(p) => seq![(p, files[0].1)] + rest,
            None => rest,
        }
    }
}

/// Builds the `List` items from a directory scan: each recognised,
/// namespace-matching file becomes one `LogMetadata` whose id is the parsed
/// container id and whose file info is the stat taken at scan time.
pub fn build_metadata_list(
    files: &Vec<(Vec<u8>, LogMetadataFileInfo)>,
    namespaces: &Vec<Vec<u8>>,
    node_name: &[u8],
) -> (r: Vec<LogMetadata>)
    ensures
        ({
            let filter = namespaces@.map_values(|v: Vec<u8>| v@);
            let s = spec_metadata_list(
                files@.map_values(|f: (Vec<u8>, LogMetadataFileInfo)| (f.0@, f.1)),
                filter,
            );
            &&& r@.len() == s.len()
            &&& forall|k: int|
                0 <= k < r@.len() ==> {
                    let item = #[trigger] r@[k];
                    &&& s[k] == (
                        (
                            item.spec_info.pod_name@,
                            item.spec_info.namespace@,
                            item.spec_info.container_name@,
                            item.spec_info.container_id@,
                        ),
                        item.file_info,
                    )
                    &&& item.id@ == item.spec_info.container_id@
                    &&& item.spec_info.node_name@ == node_name@
                }
        }),
{
    let ghost filter = namespaces@.map_values(|v: Vec<u8>| v@);
    let ghost all = files@.map_values(|f: (Vec<u8>, LogMetadataFileInfo)| (f.0@, f.1));
    let mut out: Vec<LogMetadata> = Vec::new();
    let mut i: usize = 0;
    proof {
        assert(all.skip(0) =~= all);
    }
    while i < files.len()
        invariant
            i <= files@.len(),
            filter == namespaces@.map_values(|v: Vec<u8>| v@),
            all == files@.map_values(|f: (Vec<u8>, LogMetadataFileInfo)| (f.0@, f.1)),
            spec_metadata_list(all, filter) == ({
                let done = out@.map_values(
                    |item: LogMetadata|
                        (
                            (
                                item.spec_info.pod_name@,
                                item.spec_info.namespace@,
                                item.spec_info.container_name@,
                                item.spec_info.container_id@,
                            ),
                            item.file_info,
                        ),
                );
                done + spec_metadata_list(all.skip(i as int), filter)
            }),
            forall|k: int|
                0 <= k < out@.len() ==> {
                    let item = #[trigger] out@[k];
                    &&& item.id@ == item.spec_info.container_id@
                    &&& item.spec_info.node_name@ == node_name@
                },
        decreases files@.len() - i,
    {
        let ghost rest = all.skip(i as int);
        proof {
            assert(rest[0] == all[i as int]);
            assert(all[i as int] == (files@[i as int].0@, files@[i as int].1));
            assert(rest.skip(1) =~= all.skip(i + 1));
        }
        let entry = &files[i];
        match get_log_metadata_spec(entry.0.as_slice(), namespaces, node_name) {
            Some(s) => {
                let id = scan::copy_range(s.container_id.as_slice(), 0, s.container_id.len());
                proof {
                    assert(id@ =~= s.container_id@);
                }
                out.push(LogMetadata { id, spec_info: s, file_info: entry.1 });
            },
            None => {},
        }
        proof {
            let done = out@.map_values(
                |item: LogMetadata|
                    (
                        (
                            item.spec_info.pod_name@,
                            item.spec_info.namespace@,
                            item.spec_info.container_name@,
                            item.spec_info.container_id@,
                        ),
                        item.file_info,
                    ),
            );
            assert(spec_metadata_list(all, filter) =~= done + spec_metadata_list(
                all.skip(i + 1),
                filter,
            ));
        }
        i = i + 1;
    }
    proof {
        assert(spec_metadata_list(all.skip(all.len() as int), filter).len() == 0);
        let done = out@.map_values(
            |item: LogMetadata|
                (
                    (
                        item.spec_info.pod_name@,
                        item.spec_info.namespace@,
                        item.spec_info.container_name@,
                        item.spec_info.container_id@,
                    ),
                    item.file_info,
                ),
        );
        assert(spec_metadata_list(all, filter) =~= done);
    }
    out
}


/// Every file with a recognised name and a namespace inside the filter
/// appears in the listing, with the parsed identity as its item and the
/// observed file state attached; the listing's exactness (one item per
/// qualifying file, in scan order, nothing else) is the contract of
/// `build_metadata_list`.
pub proof fn lemma_list_contains_file(
    files: Seq<(Seq<u8>, LogMetadataFileInfo)>,
    namespaces: Seq<Seq<u8>>,
    k: int,
)
    requires
        0 <= k < files.len(),
        spec_metadata_spec(files[k].0, namespaces) is Some,
    ensures
        exists|j: int|
            0 <= j < spec_metadata_list(files, namespaces).len() && #[trigger] spec_metadata_list(
                files,
                namespaces,
            )[j] == (spec_metadata_spec(files[k].0, namespaces)->0, files[k].1),
    decreases files.len(),
{
    let rest = spec_metadata_list(files.skip(1), namespaces);
    if k == 0 {
        let item = (spec_metadata_spec(files[0].0, namespaces)->0, files[0].1);
        assert(spec_metadata_list(files, namespaces)[0] == item);
    } else {
        assert(files.skip(1)[k - 1] == files[k]);
        lemma_list_contains_file(files.skip(1), namespaces, k - 1);
        let j = choose|j: int|
            0 <= j < rest.len() && #[trigger] rest[j] == (
            spec_metadata_spec(files.skip(1)[k - 1].0, namespaces)->0,
            files.skip(1)[k - 1].1,
            );
        match spec_metadata_spec(files[0].0, namespaces) {
            Some(p) => {
                assert(spec_metadata_list(files, namespaces)[j + 1] == rest[j]);
            },
            None => {
                assert(spec_metadata_list(files, namespaces)[j] == rest[j]);
            },
        }
    }
}


/// A container id as a request carries it may come as `scheme://id`; only
/// the part after the first `://` names the file.
pub open spec fn spec_strip_scheme(id: Seq<u8>) -> Seq<u8> {
    let c = scan::first_occ(id, 58u8) as int;
    if c + 2 < id.len() && c < id.len() && id[c + 1] == 47 && id[c + 2] == 47 {
        id.skip(c + 3)
    } else {
        id
    }
}

/// Drops a `scheme://` prefix from a container id, if one is present.
pub fn strip_container_scheme(id: &[u8]) -> (r: Vec<u8>)
    ensures
        r@ == spec_strip_scheme(id@),
{
    let c = scan::find_byte(id, 0, 58u8);
    proof {
        assert(id@.skip(0) =~= id@);
    }
    if c < id.len() && id.len() - c > 2 && id[c + 1] == 47 && id[c + 2] == 47 {
        let r = scan::copy_range(id, c + 3, id.len());
        proof {
            assert(r@ =~= id@.skip(c + 3));
        }
        r
    } else {
        let r = scan::copy_range(id, 0, id.len());
        proof {
            assert(r@ =~= id@);
        }
        r
    }
}

/// Resolves the file name a record stream request points at:
/// `<pod>_<namespace>_<container>-<id>.log`, with any `scheme://` prefix
/// dropped from the container id.  Checking that the file exists, and
/// canonicalizing its path, happen outside.
pub fn get_log_filename(pod: &[u8], namespace: &[u8], container: &[u8], container_id: &[u8]) -> (r:
    Vec<u8>)
    ensures
        r@ == spec_file_name(pod@, namespace@, container@, spec_strip_scheme(container_id@)),
{
    let id = strip_container_scheme(container_id);
    let meta = LogMetadataSpec {
        container_id: id,
        container_name: scan::copy_range(container, 0, container.len()),
        pod_name: scan::copy_range(pod, 0, pod.len()),
        node_name: Vec::new(),
        namespace: scan::copy_range(namespace, 0, namespace.len()),
    };
    proof {
        assert(meta.container_name@ =~= container@);
        assert(meta.pod_name@ =~= pod@);
        assert(meta.namespace@ =~= namespace@);
    }
    get_file_path(&meta)
}

/// The file name a metadata identity resolves back to:
/// `<pod>_<namespace>_<container>-<id>.log`.
pub open spec fn spec_file_name(
    pod: Seq<u8>,
    ns: Seq<u8>,
    container: Seq<u8>,
    id: Seq<u8>,
) -> Seq<u8> {
    pod + seq![95u8] + ns + seq![95u8] + container + seq![45u8] + id + log_suffix()
}

/// Rebuilds the file name of a metadata identity, as the watcher needs when
/// it adds or removes a watch for an event's file.
pub fn get_file_path(meta: &LogMetadataSpec) -> (r: Vec<u8>)
    ensures
        r@ == spec_file_name(meta.pod_name@, meta.namespace@, meta.container_name@,
            meta.container_id@),
{
    let mut out = scan::copy_range(meta.pod_name.as_slice(), 0, meta.pod_name.len());
    out.push(95u8);
    let mut part = scan::copy_range(meta.namespace.as_slice(), 0, meta.namespace.len());
    out.append(&mut part);
    out.push(95u8);
    let mut part = scan::copy_range(meta.container_name.as_slice(), 0, meta.container_name.len());
    out.append(&mut part);
    out.push(45u8);
    let mut part = scan::copy_range(meta.container_id.as_slice(), 0, meta.container_id.len());
    out.append(&mut part);
    out.push(46u8);
    out.push(108u8);
    out.push(111u8);
    out.push(103u8);
    proof {
        assert(out@ =~= spec_file_name(meta.pod_name@, meta.namespace@, meta.container_name@,
            meta.container_id@));
    }
    out
}

} // verus!
