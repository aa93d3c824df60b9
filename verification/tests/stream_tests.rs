use cluster_agent::file_format::FileFormat;
use cluster_agent::stream_backward::stream_backward;
use cluster_agent::stream_forward::{stream_forward, FollowFrom};
use cluster_agent::timestamp::rfc3339_to_nanos;
use cluster_agent::writer::LogRecord;

fn test_file() -> Vec<u8> {
    let lines = [
        "2024-10-01T05:40:46.960135302Z stdout F linenum 1",
        "2024-10-01T05:40:48.840712595Z stdout F linenum 2",
        "2024-10-01T05:40:50.075182095Z stdout F linenum 3",
        "2024-10-01T05:40:52.222363431Z stdout F linenum 4",
        "2024-10-01T05:40:54.911909292Z stdout F linenum 5",
        "2024-10-01T05:40:57.041413876Z stdout F linenum 6",
        "2024-10-01T05:40:58.197779961Z stdout F linenum 7",
        "2024-10-01T05:40:58.564018502Z stdout F linenum 8",
        "2024-10-01T05:40:58.612948127Z stdout F linenum 9",
        "2024-10-01T05:40:59.103901461Z stdout F linenum 10",
    ];
    let mut data = Vec::new();
    for line in lines {
        data.extend_from_slice(line.as_bytes());
        data.push(b'\n');
    }
    data
}

fn ts(text: &str) -> Option<i64> {
    if text.is_empty() {
        None
    } else {
        Some(rfc3339_to_nanos(text.as_bytes()).expect("timestamp should parse"))
    }
}

fn messages(records: &[LogRecord]) -> Vec<String> {
    records
        .iter()
        .map(|r| String::from_utf8_lossy(&r.message).to_string())
        .collect()
}

fn forward(start: &str, stop: &str) -> Vec<String> {
    let data = test_file();
    let out = stream_forward(
        &data,
        FileFormat::CRI,
        ts(start),
        ts(stop),
        None,
        FollowFrom::Noop,
        0,
    );
    assert!(!out.tail || ts(stop).is_none());
    messages(&out.records)
}

fn backward(start: &str, stop: &str) -> Vec<String> {
    let data = test_file();
    let records = stream_backward(&data, FileFormat::CRI, ts(start), ts(stop), None);
    messages(&records)
}

fn nums(ns: &[u32]) -> Vec<String> {
    ns.iter().map(|n| format!("linenum {n}")).collect()
}

#[test]
fn stream_forward_test_start_time() {
    assert_eq!(forward("", ""), nums(&[1, 2, 3, 4, 5, 6, 7, 8, 9, 10]));
    assert_eq!(
        forward("2024-10-01T05:40:46.960135302Z", ""),
        nums(&[1, 2, 3, 4, 5, 6, 7, 8, 9, 10])
    );
    assert_eq!(
        forward("2024-10-01T05:40:58.564018502Z", ""),
        nums(&[8, 9, 10])
    );
    assert_eq!(
        forward("2024-10-01T05:40:58.564018503Z", ""),
        nums(&[9, 10])
    );
    assert_eq!(forward("2024-10-01T05:40:59.103901462Z", ""), nums(&[]));
}

#[test]
fn stream_forward_test_stop_time() {
    assert_eq!(
        forward("", "2024-10-01T05:40:59.103901461Z"),
        nums(&[1, 2, 3, 4, 5, 6, 7, 8, 9, 10])
    );
    assert_eq!(
        forward("", "2024-10-01T05:40:59.103901462Z"),
        nums(&[1, 2, 3, 4, 5, 6, 7, 8, 9, 10])
    );
    assert_eq!(
        forward("", "2024-10-01T05:40:50.075182095Z"),
        nums(&[1, 2, 3])
    );
    assert_eq!(
        forward("", "2024-10-01T05:40:50.075182096Z"),
        nums(&[1, 2, 3])
    );
    assert_eq!(
        forward("", "2024-10-01T05:40:50.075182094Z"),
        nums(&[1, 2])
    );
}

#[test]
fn stream_forward_test_start_time_and_stop_time() {
    assert_eq!(
        forward("", ""),
        nums(&[1, 2, 3, 4, 5, 6, 7, 8, 9, 10])
    );
    assert_eq!(
        forward("2024-10-01T05:40:46.960135302Z", "2024-10-01T05:40:59.103901461Z"),
        nums(&[1, 2, 3, 4, 5, 6, 7, 8, 9, 10])
    );
    assert_eq!(
        forward("2024-10-01T05:40:46.960135301Z", "2024-10-01T05:40:59.103901461Z"),
        nums(&[1, 2, 3, 4, 5, 6, 7, 8, 9, 10])
    );
    assert_eq!(
        forward("2024-10-01T05:40:46.960135302Z", "2024-10-01T05:40:59.103901462Z"),
        nums(&[1, 2, 3, 4, 5, 6, 7, 8, 9, 10])
    );
    assert_eq!(
        forward("2024-10-01T05:40:46.960135303Z", "2024-10-01T05:40:59.103901461Z"),
        nums(&[2, 3, 4, 5, 6, 7, 8, 9, 10])
    );
    assert_eq!(
        forward("2024-10-01T05:40:46.960135302Z", "2024-10-01T05:40:59.103901460Z"),
        nums(&[1, 2, 3, 4, 5, 6, 7, 8, 9])
    );
    assert_eq!(
        forward("2024-10-01T05:40:46.960135303Z", "2024-10-01T05:40:59.103901460Z"),
        nums(&[2, 3, 4, 5, 6, 7, 8, 9])
    );
}

#[test]
fn stream_backward_test_start_time() {
    assert_eq!(
        backward("", ""),
        nums(&[10, 9, 8, 7, 6, 5, 4, 3, 2, 1])
    );
    assert_eq!(
        backward("2024-10-01T05:40:58.197779961Z", ""),
        nums(&[10, 9, 8, 7])
    );
    assert_eq!(
        backward("2024-10-01T05:40:58.197779960Z", ""),
        nums(&[10, 9, 8, 7])
    );
    assert_eq!(
        backward("2024-10-01T05:40:58.197779962Z", ""),
        nums(&[10, 9, 8])
    );
    assert_eq!(
        backward("2024-10-01T05:40:59.103901461Z", ""),
        nums(&[10])
    );
    assert_eq!(backward("2024-10-01T05:40:59.103901462Z", ""), nums(&[]));
}

#[test]
fn stream_backward_test_stop_time() {
    assert_eq!(
        backward("", ""),
        nums(&[10, 9, 8, 7, 6, 5, 4, 3, 2, 1])
    );
    assert_eq!(
        backward("", "2024-10-01T05:40:52.222363431Z"),
        nums(&[4, 3, 2, 1])
    );
    assert_eq!(
        backward("", "2024-10-01T05:40:52.222363432Z"),
        nums(&[4, 3, 2, 1])
    );
    assert_eq!(
        backward("", "2024-10-01T05:40:52.222363430Z"),
        nums(&[3, 2, 1])
    );
    assert_eq!(
        backward("", "2024-10-01T05:40:46.960135302Z"),
        nums(&[1])
    );
    assert_eq!(backward("", "2024-10-01T05:40:46.960135301Z"), nums(&[]));
}

#[test]
fn stream_backward_test_start_time_and_stop_time() {
    assert_eq!(
        backward("", ""),
        nums(&[10, 9, 8, 7, 6, 5, 4, 3, 2, 1])
    );
    assert_eq!(
        backward("2024-10-01T05:40:50.075182095Z", "2024-10-01T05:40:58.197779961Z"),
        nums(&[7, 6, 5, 4, 3])
    );
    assert_eq!(
        backward("2024-10-01T05:40:50.075182094Z", "2024-10-01T05:40:58.197779961Z"),
        nums(&[7, 6, 5, 4, 3])
    );
    assert_eq!(
        backward("2024-10-01T05:40:50.075182095Z", "2024-10-01T05:40:58.197779962Z"),
        nums(&[7, 6, 5, 4, 3])
    );
    assert_eq!(
        backward("2024-10-01T05:40:50.075182096Z", "2024-10-01T05:40:58.197779961Z"),
        nums(&[7, 6, 5, 4])
    );
    assert_eq!(
        backward("2024-10-01T05:40:50.075182095Z", "2024-10-01T05:40:58.197779960Z"),
        nums(&[6, 5, 4, 3])
    );
    assert_eq!(
        backward("2024-10-01T05:40:50.075182096Z", "2024-10-01T05:40:58.197779960Z"),
        nums(&[6, 5, 4])
    );
}

#[test]
fn stream_empty_file_emits_nothing() {
    let data: Vec<u8> = Vec::new();
    let out = stream_forward(
        &data,
        FileFormat::CRI,
        None,
        None,
        None,
        FollowFrom::Noop,
        0,
    );
    assert!(out.records.is_empty());
    assert!(!out.tail);
    let records = stream_backward(&data, FileFormat::CRI, None, None, None);
    assert!(records.is_empty());
}

#[test]
fn stream_unparseable_lines_emit_nothing() {
    let data = b"failed\nnot a log line either\n###\n".to_vec();
    let out = stream_forward(
        &data,
        FileFormat::CRI,
        None,
        None,
        None,
        FollowFrom::Noop,
        0,
    );
    assert!(out.records.is_empty());
    let records = stream_backward(&data, FileFormat::CRI, None, None, None);
    assert!(records.is_empty());
}

#[test]
fn stream_forward_grep_filters_messages() {
    let data = test_file();
    let out = stream_forward(
        &data,
        FileFormat::CRI,
        None,
        None,
        Some(b"linenum 3"),
        FollowFrom::Noop,
        0,
    );
    assert_eq!(messages(&out.records), nums(&[3]));

    // A whitespace-only query is no filter at all.
    let out = stream_forward(
        &data,
        FileFormat::CRI,
        None,
        None,
        Some(b"   "),
        FollowFrom::Noop,
        0,
    );
    assert_eq!(out.records.len(), 10);
}

#[test]
fn stream_forward_truncates_record() {
    // Scenario: limit 5 cuts the ten-byte message down and records the size.
    let data = b"2024-11-20T10:00:00Z stdout F 1234567890\n".to_vec();
    let out = stream_forward(
        &data,
        FileFormat::CRI,
        None,
        None,
        None,
        FollowFrom::Noop,
        5,
    );
    assert_eq!(out.records.len(), 1);
    let record = &out.records[0];
    assert_eq!(record.message, b"12345".to_vec());
    assert_eq!(record.original_size_bytes, 10);
    assert!(record.is_truncated);
}

#[test]
fn stream_forward_follow_from_end_skips_history() {
    let data = test_file();
    let out = stream_forward(
        &data,
        FileFormat::CRI,
        None,
        None,
        None,
        FollowFrom::End,
        0,
    );
    assert!(out.records.is_empty());
    assert!(out.tail);
}

#[test]
fn stream_forward_follow_default_reads_then_tails() {
    let data = test_file();
    let out = stream_forward(
        &data,
        FileFormat::CRI,
        None,
        None,
        None,
        FollowFrom::Default,
        0,
    );
    assert_eq!(out.records.len(), 10);
    assert!(out.tail);
}

#[test]
fn stream_forward_docker_lines() {
    let mut data = Vec::new();
    data.extend_from_slice(
        br#"{"log":"first entry","stream":"stdout","time":"2024-10-01T05:40:46.960135302Z"}"#,
    );
    data.push(b'\n');
    data.extend_from_slice(
        br#"{"log":"second entry","stream":"stdout","time":"2024-10-01T05:40:48.840712595Z"}"#,
    );
    data.push(b'\n');
    let out = stream_forward(
        &data,
        FileFormat::Docker,
        None,
        None,
        None,
        FollowFrom::Noop,
        0,
    );
    assert_eq!(
        messages(&out.records),
        vec!["first entry".to_string(), "second entry".to_string()]
    );
}
