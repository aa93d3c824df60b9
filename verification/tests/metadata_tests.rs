use cluster_agent::log_metadata::{
    build_metadata_list, get_file_path, get_log_filename, get_log_metadata_spec,
    parse_log_filename_bytes, LogMetadataFileInfo,
};
use cluster_agent::log_metadata_watcher::{
    deduplicate_metadata_events, transform_notify_event, FsEventKind, LogMetadataWatchEvent,
    LogMetadataWatchEventType, StatOutcome, WatcherError,
};

fn info(size: i64) -> LogMetadataFileInfo {
    LogMetadataFileInfo { size, last_modified_at: None }
}

fn ns_filter(names: &[&str]) -> Vec<Vec<u8>> {
    names.iter().map(|n| n.as_bytes().to_vec()).collect()
}

#[test]
fn log_metadata_test_single_file_is_returned() {
    let files = vec![(
        b"pod-name_single-namespace_container-name-containerid.log".to_vec(),
        info(4),
    )];
    let result = build_metadata_list(&files, &ns_filter(&["single-namespace"]), b"Node name");

    assert_eq!(1, result.len());
    let log_metadata = &result[0];
    assert_eq!(log_metadata.id, b"containerid".to_vec());
    assert_eq!(log_metadata.spec_info.container_id, b"containerid".to_vec());
    assert_eq!(log_metadata.spec_info.namespace, b"single-namespace".to_vec());
    assert_eq!(log_metadata.spec_info.pod_name, b"pod-name".to_vec());
    assert_eq!(log_metadata.spec_info.container_name, b"container-name".to_vec());
    assert_eq!(log_metadata.spec_info.node_name, b"Node name".to_vec());
    assert_eq!(log_metadata.file_info.size, 4);
}

#[test]
fn log_metadata_test_namespaces_are_filtered() {
    let files = vec![
        (
            b"pod-name_filter-firstnamespace_container-name1-containerid1.log".to_vec(),
            info(4),
        ),
        (
            b"pod-name_filter-firstnamespace_container-name2-containerid2.log".to_vec(),
            info(4),
        ),
        (
            b"pod-name_filter-secondnamespace_container-name2-containerid2.log".to_vec(),
            info(4),
        ),
    ];

    let result = build_metadata_list(&files, &ns_filter(&["filter-firstnamespace"]), b"Node name");
    assert_eq!(2, result.len());
    for item in &result {
        assert_eq!(item.spec_info.namespace, b"filter-firstnamespace".to_vec());
    }

    let result = build_metadata_list(&files, &ns_filter(&["filter-secondnamespace"]), b"Node name");
    assert_eq!(1, result.len());
    assert_eq!(result[0].spec_info.namespace, b"filter-secondnamespace".to_vec());
}

#[test]
fn test_empty_namespaces_returns_everything() {
    let files = vec![
        (
            b"pod-name_empty-firstnamespace_container-name1-containerid1.log".to_vec(),
            info(4),
        ),
        (
            b"pod-name_empty-secondnamespace_container-name2-containerid2.log".to_vec(),
            info(4),
        ),
    ];
    let result = build_metadata_list(&files, &Vec::new(), b"Node name");
    assert_eq!(2, result.len());
}

#[test]
fn parse_log_filename_rejects_malformed_names() {
    assert!(parse_log_filename_bytes(b"no-underscores.log").is_none());
    assert!(parse_log_filename_bytes(b"pod_ns_container-id.txt").is_none());
    assert!(parse_log_filename_bytes(b"pod_ns_nodash.log").is_none());
    assert!(parse_log_filename_bytes(b"_ns_c-id.log").is_none());
    assert!(parse_log_filename_bytes(b"pod__c-id.log").is_none());
    assert!(parse_log_filename_bytes(b"pod_ns_c-.log").is_none());
}

#[test]
fn parse_log_filename_takes_last_dash() {
    let parsed = parse_log_filename_bytes(b"pod_ns_my-container-name-abc123.log").unwrap();
    assert_eq!(parsed.0, b"pod".to_vec());
    assert_eq!(parsed.1, b"ns".to_vec());
    assert_eq!(parsed.2, b"my-container-name".to_vec());
    assert_eq!(parsed.3, b"abc123".to_vec());
}

#[test]
fn file_path_round_trips() {
    let spec = get_log_metadata_spec(
        b"pod_ns_my-container-id7.log",
        &ns_filter(&["ns"]),
        b"node",
    )
    .unwrap();
    assert_eq!(get_file_path(&spec), b"pod_ns_my-container-id7.log".to_vec());
}

#[test]
fn watcher_modified_event_carries_new_size() {
    // Scenario: a matching file grows from 4 to 7 bytes; one MODIFIED event
    // with the new size comes out, and a file in another namespace is mute.
    let filter = ns_filter(&["ns"]);
    let paths = vec![(b"pod_ns_c-id.log".to_vec(), StatOutcome::Found(info(7)))];
    let events = transform_notify_event(FsEventKind::ModifyContent, &paths, &filter, b"node");
    assert_eq!(events.len(), 1);
    let ev = events[0].as_ref().unwrap();
    assert_eq!(ev.event_type, LogMetadataWatchEventType::Modified);
    assert_eq!(ev.object.file_info.size, 7);
    assert_eq!(ev.object.id, b"id".to_vec());

    let other = vec![(b"pod_other_c-x.log".to_vec(), StatOutcome::Found(info(4)))];
    let events = transform_notify_event(FsEventKind::Create, &other, &filter, b"node");
    assert!(events.is_empty());
}

#[test]
fn watcher_missing_file_becomes_deletion() {
    let filter = ns_filter(&["ns"]);
    let paths = vec![(b"pod_ns_c-id.log".to_vec(), StatOutcome::Missing)];
    let events = transform_notify_event(FsEventKind::ModifyContent, &paths, &filter, b"node");
    assert_eq!(events.len(), 1);
    let ev = events[0].as_ref().unwrap();
    assert_eq!(ev.event_type, LogMetadataWatchEventType::Deleted);
    assert_eq!(ev.object.file_info.size, 0);
    assert_eq!(ev.object.file_info.last_modified_at, None);
}

#[test]
fn watcher_rename_deletes_old_and_adds_new() {
    let filter = ns_filter(&["ns"]);
    let paths = vec![
        (b"pod_ns_c-old.log".to_vec(), StatOutcome::Missing),
        (b"pod_ns_c-new.log".to_vec(), StatOutcome::Found(info(4))),
    ];
    let events = transform_notify_event(FsEventKind::RenameBoth, &paths, &filter, b"node");
    assert_eq!(events.len(), 2);
    let first = events[0].as_ref().unwrap();
    assert_eq!(first.event_type, LogMetadataWatchEventType::Deleted);
    assert_eq!(first.object.id, b"old".to_vec());
    let second = events[1].as_ref().unwrap();
    assert_eq!(second.event_type, LogMetadataWatchEventType::Added);
    assert_eq!(second.object.id, b"new".to_vec());
}

#[test]
fn watcher_stat_failure_surfaces_error() {
    let filter = ns_filter(&["ns"]);
    let paths = vec![(b"pod_ns_c-id.log".to_vec(), StatOutcome::Failed(b"boom".to_vec()))];
    let events = transform_notify_event(FsEventKind::Remove, &paths, &filter, b"node");
    assert_eq!(events.len(), 1);
    assert!(matches!(events[0], Err(WatcherError::Io(_))));
}

fn sample_event(size: i64) -> Result<LogMetadataWatchEvent, WatcherError> {
    let filter = ns_filter(&["ns"]);
    let paths = vec![(b"pod_ns_c-id.log".to_vec(), StatOutcome::Found(info(size)))];
    let events = transform_notify_event(FsEventKind::ModifyContent, &paths, &filter, b"node");
    events.into_iter().next().unwrap()
}

#[test]
fn dedup_keeps_latest_duplicate() {
    let batch = vec![sample_event(4), sample_event(7), sample_event(4)];
    let deduped = deduplicate_metadata_events(batch);
    assert_eq!(deduped.len(), 2);
    assert_eq!(deduped[0].as_ref().unwrap().object.file_info.size, 7);
    assert_eq!(deduped[1].as_ref().unwrap().object.file_info.size, 4);
}

#[test]
fn dedup_applied_twice_changes_nothing() {
    let batch = vec![sample_event(4), sample_event(4), sample_event(7)];
    let once = deduplicate_metadata_events(batch);
    let sizes: Vec<i64> = once
        .iter()
        .map(|e| e.as_ref().unwrap().object.file_info.size)
        .collect();
    let twice = deduplicate_metadata_events(once);
    let sizes_again: Vec<i64> = twice
        .iter()
        .map(|e| e.as_ref().unwrap().object.file_info.size)
        .collect();
    assert_eq!(sizes, sizes_again);
    assert_eq!(sizes, vec![4, 7]);
}

#[test]
fn event_type_names_round_trip() {
    assert_eq!(LogMetadataWatchEventType::Added.as_str(), "ADDED");
    assert_eq!(LogMetadataWatchEventType::Modified.as_str(), "MODIFIED");
    assert_eq!(LogMetadataWatchEventType::Deleted.as_str(), "DELETED");
    assert_eq!(
        LogMetadataWatchEventType::from_str("ADDED"),
        Some(LogMetadataWatchEventType::Added)
    );
    assert_eq!(
        LogMetadataWatchEventType::from_str("MODIFIED"),
        Some(LogMetadataWatchEventType::Modified)
    );
    assert_eq!(
        LogMetadataWatchEventType::from_str("DELETED"),
        Some(LogMetadataWatchEventType::Deleted)
    );
    assert_eq!(LogMetadataWatchEventType::from_str("OTHER"), None);
}

#[test]
fn log_filename_strips_container_scheme() {
    assert_eq!(
        get_log_filename(b"pod", b"ns", b"app", b"containerd://abc123"),
        b"pod_ns_app-abc123.log".to_vec()
    );
    assert_eq!(
        get_log_filename(b"pod", b"ns", b"app", b"abc123"),
        b"pod_ns_app-abc123.log".to_vec()
    );
}
