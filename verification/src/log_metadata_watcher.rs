//! Watch-event pipeline: translating filesystem events into metadata watch
//! events and deduplicating each debounce batch.
//!
//! Translation follows the event table: a creation adds, a content change
//! modifies, a removal deletes, and a rename deletes the old path and adds
//! the new one.  A path whose `stat` reports "not found" always becomes a
//! deletion with empty file info; other `stat` failures surface as errors.
//! Deduplication keeps, of equal events, only the latest occurrence, and
//! keeps every error.

use vstd::prelude::*;

use crate::log_metadata;
use crate::log_metadata::LogMetadata;
use crate::log_metadata::LogMetadataFileInfo;
use crate::scan;
use vstd::string::StringSliceAdditionalSpecFns;

verus! {

/// Type of a metadata watch event.
#[derive(Debug, Clone, Copy, PartialEq, Eq, Structural)]
pub enum LogMetadataWatchEventType {
    Added,
    Modified,
    Deleted,
}

impl LogMetadataWatchEventType {
    /// Parses the wire name of an event type.
    pub fn from_str(value: &str) -> (r: Option<Self>)
        ensures
            r == spec_event_type_from(value.spec_bytes()),
    {
        let added: [u8; 5] = [65u8, 68u8, 68u8, 69u8, 68u8];
        let modified: [u8; 8] = [77u8, 79u8, 68u8, 73u8, 70u8, 73u8, 69u8, 68u8];
        let deleted: [u8; 7] = [68u8, 69u8, 76u8, 69u8, 84u8, 69u8, 68u8];
        proof {
            assert(added@ =~= added_name());
            assert(modified@ =~= modified_name());
            assert(deleted@ =~= deleted_name());
        }
        let bytes = value.as_bytes();
        if scan::bytes_eq(bytes, added.as_slice()) {
            Some(LogMetadataWatchEventType::Added)
        } else if scan::bytes_eq(bytes, modified.as_slice()) {
            Some(LogMetadataWatchEventType::Modified)
        } else if scan::bytes_eq(bytes, deleted.as_slice()) {
            Some(LogMetadataWatchEventType::Deleted)
        } else {
            None
        }
    }

    /// The wire name of the event type.
    pub fn as_str(&self) -> (r: &'static str)
        ensures
            r@ == match self {
                LogMetadataWatchEventType::Added => "ADDED"@,
                LogMetadataWatchEventType::Modified => "MODIFIED"@,
                LogMetadataWatchEventType::Deleted => "DELETED"@,
            },
    {
        match self {
            LogMetadataWatchEventType::Added => "ADDED",
            LogMetadataWatchEventType::Modified => "MODIFIED",
            LogMetadataWatchEventType::Deleted => "DELETED",
        }
    }
}

/// The bytes of `ADDED`.
pub open spec fn added_name() -> Seq<u8> {
    seq![65u8, 68u8, 68u8, 69u8, 68u8]
}

/// The bytes of `MODIFIED`.
pub open spec fn modified_name() -> Seq<u8> {
    seq![77u8, 79u8, 68u8, 73u8, 70u8, 73u8, 69u8, 68u8]
}

/// The bytes of `DELETED`.
pub open spec fn deleted_name() -> Seq<u8> {
    seq![68u8, 69u8, 76u8, 69u8, 84u8, 69u8, 68u8]
}

/// The event type a wire name denotes.
pub open spec fn spec_event_type_from(bytes: Seq<u8>) -> Option<LogMetadataWatchEventType> {
    if bytes == added_name() {
        Some(LogMetadataWatchEventType::Added)
    } else if bytes == modified_name() {
        Some(LogMetadataWatchEventType::Modified)
    } else if bytes == deleted_name() {
        Some(LogMetadataWatchEventType::Deleted)
    } else {
        None
    }
}

/// One emitted watch event.
#[derive(Debug, Clone, PartialEq)]
pub struct LogMetadataWatchEvent {
    pub event_type: LogMetadataWatchEventType,
    pub object: LogMetadata,
}

/// Errors of the watch pipeline, each carrying its rendered message.
#[derive(Debug, Clone, PartialEq)]
pub enum WatcherError {
    Io(Vec<u8>),
    Watch(Vec<u8>),
    DirNotFound(Vec<u8>),
}

/// What `stat` on an event's path reported: the file state, a clean "not
/// found", or some other failure with its message.
#[derive(Debug, Clone, PartialEq)]
pub enum StatOutcome {
    Found(LogMetadataFileInfo),
    Missing,
    Failed(Vec<u8>),
}

/// The kind of a filesystem event, as the notification library reports it.
#[derive(Debug, Clone, Copy, PartialEq, Eq, Structural)]
pub enum FsEventKind {
    Create,
    ModifyContent,
    RenameFrom,
    RenameTo,
    RenameBoth,
    Remove,
    Other,
}

/// The mathematical image of a watch event.
pub open spec fn ev_view(e: LogMetadataWatchEvent) -> (
    LogMetadataWatchEventType,
    Seq<u8>,
    Seq<u8>,
    Seq<u8>,
    Seq<u8>,
    Seq<u8>,
    Seq<u8>,
    LogMetadataFileInfo,
) {
    (
        e.event_type,
        e.object.id@,
        e.object.spec_info.pod_name@,
        e.object.spec_info.namespace@,
        e.object.spec_info.container_name@,
        e.object.spec_info.container_id@,
        e.object.spec_info.node_name@,
        e.object.file_info,
    )
}

/// The mathematical image of a translation result; every error maps to one
/// point, which deduplication never compares.
pub open spec fn res_view(r: Result<LogMetadataWatchEvent, WatcherError>) -> Result<
    (
        LogMetadataWatchEventType,
        Seq<u8>,
        Seq<u8>,
        Seq<u8>,
        Seq<u8>,
        Seq<u8>,
        Seq<u8>,
        LogMetadataFileInfo,
    ),
    (),
> {
    match r {
        Ok(e) => Ok(ev_view(e)),
        Err(_) => Err(()),
    }
}

/// Whether the two events are equal, field by field.
pub fn watch_event_eq(a: &LogMetadataWatchEvent, b: &LogMetadataWatchEvent) -> (r: bool)
    ensures
        r == (ev_view(*a) == ev_view(*b)),
{
    let types_equal = match (a.event_type, b.event_type) {
        (LogMetadataWatchEventType::Added, LogMetadataWatchEventType::Added) => true,
        (LogMetadataWatchEventType::Modified, LogMetadataWatchEventType::Modified) => true,
        (LogMetadataWatchEventType::Deleted, LogMetadataWatchEventType::Deleted) => true,
        _ => false,
    };
    let infos_equal = a.object.file_info == b.object.file_info;
    types_equal && infos_equal && scan::bytes_eq(a.object.id.as_slice(), b.object.id.as_slice())
        && scan::bytes_eq(
        a.object.spec_info.pod_name.as_slice(),
        b.object.spec_info.pod_name.as_slice(),
    ) && scan::bytes_eq(
        a.object.spec_info.namespace.as_slice(),
        b.object.spec_info.namespace.as_slice(),
    ) && scan::bytes_eq(
        a.object.spec_info.container_name.as_slice(),
        b.object.spec_info.container_name.as_slice(),
    ) && scan::bytes_eq(
        a.object.spec_info.container_id.as_slice(),
        b.object.spec_info.container_id.as_slice(),
    ) && scan::bytes_eq(
        a.object.spec_info.node_name.as_slice(),
        b.object.spec_info.node_name.as_slice(),
    )
}


/// View type of a watch event used by the batch pipeline.
pub type EvView = (
    LogMetadataWatchEventType,
    Seq<u8>,
    Seq<u8>,
    Seq<u8>,
    Seq<u8>,
    Seq<u8>,
    Seq<u8>,
    LogMetadataFileInfo,
);

/// The mathematical image of a `stat` outcome.
pub open spec fn stat_outcome_view(s: StatOutcome) -> Result<Option<LogMetadataFileInfo>, ()> {
    match s {
        StatOutcome::Found(fi) => Ok(Some(fi)),
        StatOutcome::Missing => Ok(None),
        StatOutcome::Failed(_) => Err(()),
    }
}

/// Event type a filesystem event kind maps to, for single-path kinds.
pub open spec fn base_event_type(kind: FsEventKind) -> Option<LogMetadataWatchEventType> {
    match kind {
        FsEventKind::Create => Some(LogMetadataWatchEventType::Added),
        FsEventKind::ModifyContent => Some(LogMetadataWatchEventType::Modified),
        FsEventKind::RenameFrom => Some(LogMetadataWatchEventType::Deleted),
        FsEventKind::RenameTo => Some(LogMetadataWatchEventType::Added),
        FsEventKind::Remove => Some(LogMetadataWatchEventType::Deleted),
        FsEventKind::RenameBoth => None,
        FsEventKind::Other => None,
    }
}

/// Translation of one path under one event type: nothing when the name is
/// unrecognised or filtered out; a deletion with empty file info when the
/// file is gone; an error when `stat` failed otherwise.
pub open spec fn spec_translate_one(
    ty: LogMetadataWatchEventType,
    name: Seq<u8>,
    sv: Result<Option<LogMetadataFileInfo>, ()>,
    filter: Seq<Seq<u8>>,
    node: Seq<u8>,
) -> Result<Option<EvView>, ()> {
    match log_metadata::spec_metadata_spec(name, filter) {
        None => Ok(None),
        Some(p) => match sv {
            Err(()) => Err(()),
            Ok(Some(fi)) => Ok(Some((ty, p.3, p.0, p.1, p.2, p.3, node, fi))),
            Ok(None) => Ok(
                Some(
                    (
                        LogMetadataWatchEventType::Deleted,
                        p.3,
                        p.0,
                        p.1,
                        p.2,
                        p.3,
                        node,
                        LogMetadataFileInfo { size: 0, last_modified_at: None },
                    ),
                ),
            ),
        },
    }
}

/// The emissions of one path: empty, one event, or one error.
pub open spec fn spec_one_emission(
    ty: LogMetadataWatchEventType,
    name: Seq<u8>,
    sv: Result<Option<LogMetadataFileInfo>, ()>,
    filter: Seq<Seq<u8>>,
    node: Seq<u8>,
) -> Seq<Result<EvView, ()>> {
    match spec_translate_one(ty, name, sv, filter, node) {
        Ok(None) => Seq::empty(),
        Ok(Some(v)) => seq![Ok(v)],
        Err(()) => seq![Err(())],
    }
}

/// The emissions of one filesystem event: per the translation table, a
/// rename with both paths deletes the old and adds the new.
pub open spec fn spec_transform(
    kind: FsEventKind,
    paths: Seq<(Seq<u8>, Result<Option<LogMetadataFileInfo>, ()>)>,
    filter: Seq<Seq<u8>>,
    node: Seq<u8>,
) -> Seq<Result<EvView, ()>> {
    match kind {
        FsEventKind::RenameBoth => (if paths.len() >= 1 {
            spec_one_emission(
                LogMetadataWatchEventType::Deleted,
                paths[0].0,
                paths[0].1,
                filter,
                node,
            )
        } else {
            Seq::empty()
        }) + (if paths.len() >= 2 {
            spec_one_emission(
                LogMetadataWatchEventType::Added,
                paths[1].0,
                paths[1].1,
                filter,
                node,
            )
        } else {
            Seq::empty()
        }),
        _ => match base_event_type(kind) {
            None => Seq::empty(),
            Some(ty) => if paths.len() >= 1 {
                spec_one_emission(ty, paths[0].0, paths[0].1, filter, node)
            } else {
                Seq::empty()
            },
        },
    }
}

/// Builds the watch event (or error) of one path under one event type.
fn translate_one(
    ty: LogMetadataWatchEventType,
    name: &[u8],
    stat: &StatOutcome,
    namespaces: &Vec<Vec<u8>>,
    node_name: &[u8],
) -> (r: Option<Result<LogMetadataWatchEvent, WatcherError>>)
    ensures
        ({
            let filter = namespaces@.map_values(|v: Vec<u8>| v@);
            let emission = spec_one_emission(
                ty,
                name@,
                stat_outcome_view(*stat),
                filter,
                node_name@,
            );
            match r {
                None => emission.len() == 0,
                Some(res) => emission == seq![res_view(res)],
            }
        }),
{
    match log_metadata::get_log_metadata_spec(name, namespaces, node_name) {
        None => None,
        Some(s) => match stat {
            StatOutcome::Failed(msg) => {
                let m = scan::copy_range(msg.as_slice(), 0, msg.len());
                Some(Err(WatcherError::Io(m)))
            },
            StatOutcome::Found(fi) => {
                let id = scan::copy_range(s.container_id.as_slice(), 0, s.container_id.len());
                proof {
                    assert(id@ =~= s.container_id@);
                }
                Some(
                    Ok(
                        LogMetadataWatchEvent {
                            event_type: ty,
                            object: LogMetadata { id, spec_info: s, file_info: *fi },
                        },
                    ),
                )
            },
            StatOutcome::Missing => {
                let id = scan::copy_range(s.container_id.as_slice(), 0, s.container_id.len());
                proof {
                    assert(id@ =~= s.container_id@);
                }
                Some(
                    Ok(
                        LogMetadataWatchEvent {
                            event_type: LogMetadataWatchEventType::Deleted,
                            object: LogMetadata {
                                id,
                                spec_info: s,
                                file_info: LogMetadataFileInfo {
                                    size: 0,
                                    last_modified_at: None,
                                },
                            },
                        },
                    ),
                )
            },
        },
    }
}

/// Translates one filesystem event into watch events, per the table: create
/// adds, content change modifies, removal deletes, a rename deletes the old
/// path and adds the new one; a path whose file is gone becomes a deletion.
pub fn transform_notify_event(
    kind: FsEventKind,
    paths: &Vec<(Vec<u8>, StatOutcome)>,
    namespaces: &Vec<Vec<u8>>,
    node_name: &[u8],
) -> (r: Vec<Result<LogMetadataWatchEvent, WatcherError>>)
    ensures
        ({
            let filter = namespaces@.map_values(|v: Vec<u8>| v@);
            let pv = paths@.map_values(
                |p: (Vec<u8>, StatOutcome)| (p.0@, stat_outcome_view(p.1)),
            );
            r@.map_values(|x: Result<LogMetadataWatchEvent, WatcherError>| res_view(x))
                == spec_transform(kind, pv, filter, node_name@)
        }),
{
    let ghost filter = namespaces@.map_values(|v: Vec<u8>| v@);
    let ghost pv = paths@.map_values(|p: (Vec<u8>, StatOutcome)| (p.0@, stat_outcome_view(p.1)));
    let mut out: Vec<Result<LogMetadataWatchEvent, WatcherError>> = Vec::new();
    let is_rename_both = match kind {
        FsEventKind::RenameBoth => true,
        _ => false,
    };
    if is_rename_both {
        if paths.len() >= 1 {
            let entry = &paths[0];
            proof {
                assert(pv[0] == (entry.0@, stat_outcome_view(entry.1)));
            }
            match translate_one(
                LogMetadataWatchEventType::Deleted,
                entry.0.as_slice(),
                &entry.1,
                namespaces,
                node_name,
            ) {
                Some(res) => {
                    out.push(res);
                },
                None => {},
            }
        }
        if paths.len() >= 2 {
            let entry = &paths[1];
            proof {
                assert(pv[1] == (entry.0@, stat_outcome_view(entry.1)));
            }
            match translate_one(
                LogMetadataWatchEventType::Added,
                entry.0.as_slice(),
                &entry.1,
                namespaces,
                node_name,
            ) {
                Some(res) => {
                    out.push(res);
                },
                None => {},
            }
        }
        proof {
            assert(out@.map_values(|x: Result<LogMetadataWatchEvent, WatcherError>| res_view(x))
                =~= spec_transform(kind, pv, filter, node_name@));
        }
        return out;
    }
    let ty_opt: Option<LogMetadataWatchEventType> = match kind {
        FsEventKind::Create => Some(LogMetadataWatchEventType::Added),
        FsEventKind::ModifyContent => Some(LogMetadataWatchEventType::Modified),
        FsEventKind::RenameFrom => Some(LogMetadataWatchEventType::Deleted),
        FsEventKind::RenameTo => Some(LogMetadataWatchEventType::Added),
        FsEventKind::Remove => Some(LogMetadataWatchEventType::Deleted),
        _ => None,
    };
    match ty_opt {
        None => {
            proof {
                assert(out@.map_values(
                    |x: Result<LogMetadataWatchEvent, WatcherError>| res_view(x),
                ) =~= spec_transform(kind, pv, filter, node_name@));
            }
            out
        },
        Some(ty) => {
            if paths.len() >= 1 {
                let entry = &paths[0];
                proof {
                    assert(pv[0] == (entry.0@, stat_outcome_view(entry.1)));
                }
                match translate_one(ty, entry.0.as_slice(), &entry.1, namespaces, node_name) {
                    Some(res) => {
                        out.push(res);
                    },
                    None => {},
                }
            }
            proof {
                assert(out@.map_values(
                    |x: Result<LogMetadataWatchEvent, WatcherError>| res_view(x),
                ) =~= spec_transform(kind, pv, filter, node_name@));
            }
            out
        },
    }
}

/// The batch after deduplication: each event is kept only at its latest
/// occurrence; errors are always kept; order is otherwise preserved.
pub open spec fn spec_dedup(events: Seq<Result<EvView, ()>>) -> Seq<Result<EvView, ()>>
    decreases events.len(),
{
    if events.len() == 0 {
        Seq::empty()
    } else {
        let head = events[0];
        let rest = spec_dedup(events.skip(1));
        let keep = head is Err || !events.skip(1).contains(head);
        if keep {
            seq![head] + rest
        } else {
            rest
        }
    }
}

/// Whether the batch holds an event equal to `ev`.
fn has_equal_event(
    events: &Vec<Result<LogMetadataWatchEvent, WatcherError>>,
    ev: &LogMetadataWatchEvent,
) -> (r: bool)
    ensures
        r == events@.map_values(|x: Result<LogMetadataWatchEvent, WatcherError>| res_view(x))
            .contains(Ok::<EvView, ()>(ev_view(*ev))),
{
    let ghost views = events@.map_values(
        |x: Result<LogMetadataWatchEvent, WatcherError>| res_view(x),
    );
    let mut i: usize = 0;
    while i < events.len()
        invariant
            i <= events@.len(),
            views == events@.map_values(
                |x: Result<LogMetadataWatchEvent, WatcherError>| res_view(x),
            ),
            forall|j: int| 0 <= j < i ==> views[j] != Ok::<EvView, ()>(ev_view(*ev)),
        decreases events@.len() - i,
    {
        match &events[i] {
            Ok(other) => {
                if watch_event_eq(ev, other) {
                    proof {
                        assert(views[i as int] == Ok::<EvView, ()>(ev_view(*ev)));
                    }
                    return true;
                }
            },
            Err(_) => {},
        }
        i = i + 1;
    }
    proof {
        if views.contains(Ok::<EvView, ()>(ev_view(*ev))) {
            let j = choose|j: int| 0 <= j < views.len() && views[j] == Ok::<EvView, ()>(ev_view(*ev));
            assert(false);
        }
    }
    false
}

/// Deduplicates a debounce batch: of equal events only the latest stays,
/// every error stays, and the surviving order is unchanged.
pub fn deduplicate_metadata_events(
    events: Vec<Result<LogMetadataWatchEvent, WatcherError>>,
) -> (r: Vec<Result<LogMetadataWatchEvent, WatcherError>>)
    ensures
        r@.map_values(|x: Result<LogMetadataWatchEvent, WatcherError>| res_view(x)) == spec_dedup(
            events@.map_values(|x: Result<LogMetadataWatchEvent, WatcherError>| res_view(x)),
        ),
{
    let ghost all = events@.map_values(
        |x: Result<LogMetadataWatchEvent, WatcherError>| res_view(x),
    );
    let mut remaining = events;
    let mut out: Vec<Result<LogMetadataWatchEvent, WatcherError>> = Vec::new();
    proof {
        assert(out@.map_values(|x: Result<LogMetadataWatchEvent, WatcherError>| res_view(x)) =~=
            Seq::<Result<EvView, ()>>::empty());
    }
    loop
        invariant
            all == events@.map_values(
                |x: Result<LogMetadataWatchEvent, WatcherError>| res_view(x),
            ),
            spec_dedup(all) == out@.map_values(
                |x: Result<LogMetadataWatchEvent, WatcherError>| res_view(x),
            ) + spec_dedup(
                remaining@.map_values(
                    |x: Result<LogMetadataWatchEvent, WatcherError>| res_view(x),
                ),
            ),
        decreases remaining@.len(),
    {
        if remaining.len() == 0 {
            proof {
                assert(spec_dedup(
                    remaining@.map_values(
                        |x: Result<LogMetadataWatchEvent, WatcherError>| res_view(x),
                    ),
                ).len() == 0);
                assert(out@.map_values(
                    |x: Result<LogMetadataWatchEvent, WatcherError>| res_view(x),
                ) + Seq::<Result<EvView, ()>>::empty() =~= out@.map_values(
                    |x: Result<LogMetadataWatchEvent, WatcherError>| res_view(x),
                ));
            }
            return out;
        }
        let ghost rem_views = remaining@.map_values(
            |x: Result<LogMetadataWatchEvent, WatcherError>| res_view(x),
        );
        let head = remaining.remove(0);
        proof {
            assert(remaining@.map_values(
                |x: Result<LogMetadataWatchEvent, WatcherError>| res_view(x),
            ) =~= rem_views.skip(1));
            assert(rem_views[0] == res_view(head));
        }
        let keep = match &head {
            Err(_) => true,
            Ok(ev) => !has_equal_event(&remaining, ev),
        };
        if keep {
            let ghost out_before = out@;
            out.push(head);
            proof {
                assert(out@.map_values(
                    |x: Result<LogMetadataWatchEvent, WatcherError>| res_view(x),
                ) =~= out_before.map_values(
                    |x: Result<LogMetadataWatchEvent, WatcherError>| res_view(x),
                ).push(rem_views[0]));
                assert(spec_dedup(rem_views) == seq![rem_views[0]] + spec_dedup(
                    rem_views.skip(1),
                ));
                assert(out_before.map_values(
                    |x: Result<LogMetadataWatchEvent, WatcherError>| res_view(x),
                ).push(rem_views[0]) + spec_dedup(rem_views.skip(1)) =~= out_before.map_values(
                    |x: Result<LogMetadataWatchEvent, WatcherError>| res_view(x),
                ) + spec_dedup(rem_views));
            }
        } else {
            proof {
                assert(spec_dedup(rem_views) == spec_dedup(rem_views.skip(1)));
            }
        }
    }
}

/// Everything the deduplicated batch holds was in the batch.
proof fn lemma_dedup_subset(events: Seq<Result<EvView, ()>>, x: Result<EvView, ()>)
    requires
        spec_dedup(events).contains(x),
    ensures
        events.contains(x),
    decreases events.len(),
{
    if events.len() == 0 {
    } else {
        let head = events[0];
        let rest = spec_dedup(events.skip(1));
        let keep = head is Err || !events.skip(1).contains(head);
        if keep {
            if x == head {
                assert(events[0] == x);
            } else {
                let d = seq![head] + rest;
                let i = choose|i: int| 0 <= i < d.len() && d[i] == x;
                assert(rest[i - 1] == x);
                assert(rest.contains(x));
                lemma_dedup_subset(events.skip(1), x);
                let j = choose|j: int| 0 <= j < events.skip(1).len() && events.skip(1)[j] == x;
                assert(events[j + 1] == x);
            }
        } else {
            lemma_dedup_subset(events.skip(1), x);
            let j = choose|j: int| 0 <= j < events.skip(1).len() && events.skip(1)[j] == x;
            assert(events[j + 1] == x);
        }
    }
}

/// No kept event recurs later in the deduplicated batch.
proof fn lemma_dedup_distinct(events: Seq<Result<EvView, ()>>)
    ensures
        forall|i: int, j: int|
            0 <= i < j < spec_dedup(events).len() && spec_dedup(events)[i] is Ok ==> spec_dedup(
                events,
            )[i] != spec_dedup(events)[j],
    decreases events.len(),
{
    if events.len() == 0 {
    } else {
        let head = events[0];
        let rest = spec_dedup(events.skip(1));
        lemma_dedup_distinct(events.skip(1));
        let keep = head is Err || !events.skip(1).contains(head);
        if keep {
            let d = seq![head] + rest;
            assert forall|i: int, j: int|
                0 <= i < j < d.len() && d[i] is Ok implies d[i] != d[j] by {
                if i == 0 {
                    assert(d[0] == head);
                    assert(d[j] == rest[j - 1]);
                    if head is Ok {
                        if d[j] == head {
                            assert(rest.contains(head));
                            lemma_dedup_subset(events.skip(1), head);
                        }
                    }
                } else {
                    assert(d[i] == rest[i - 1]);
                    assert(d[j] == rest[j - 1]);
                }
            }
        }
    }
}

/// A batch whose kept events never recur deduplicates to itself.
proof fn lemma_dedup_of_distinct(events: Seq<Result<EvView, ()>>)
    requires
        forall|i: int, j: int|
            0 <= i < j < events.len() && events[i] is Ok ==> events[i] != events[j],
    ensures
        spec_dedup(events) == events,
    decreases events.len(),
{
    if events.len() == 0 {
        assert(spec_dedup(events) =~= events);
    } else {
        let head = events[0];
        assert forall|i: int, j: int|
            0 <= i < j < events.skip(1).len() && events.skip(1)[i] is Ok implies events.skip(
            1,
        )[i] != events.skip(1)[j] by {
            assert(events.skip(1)[i] == events[i + 1]);
            assert(events.skip(1)[j] == events[j + 1]);
        }
        lemma_dedup_of_distinct(events.skip(1));
        if head is Ok {
            if events.skip(1).contains(head) {
                let j = choose|j: int|
                    0 <= j < events.skip(1).len() && events.skip(1)[j] == head;
                assert(events[j + 1] == head);
                assert(false);
            }
        }
        assert(spec_dedup(events) =~= seq![head] + events.skip(1));
        assert(seq![head] + events.skip(1) =~= events);
    }
}

/// Deduplicating a batch twice changes nothing beyond the first pass.
pub proof fn lemma_dedup_idempotent(events: Seq<Result<EvView, ()>>)
    ensures
        spec_dedup(spec_dedup(events)) == spec_dedup(events),
{
    lemma_dedup_distinct(events);
    lemma_dedup_of_distinct(spec_dedup(events));
}

} // verus!
