use cluster_agent::file_format::FileFormat;
use cluster_agent::offset::{find_nearest_offset_since, find_nearest_offset_until, Offset};
use cluster_agent::timestamp::rfc3339_to_nanos;

fn build_log(lines: &[&str]) -> (Vec<u8>, Vec<Offset>) {
    let mut data = Vec::new();
    let mut offsets = Vec::new();
    for line in lines {
        offsets.push(Offset {
            byte_offset: data.len() as u64,
            line_length: line.len() as u64,
        });
        data.extend_from_slice(line.as_bytes());
        data.push(b'\n');
    }
    (data, offsets)
}

fn ts(text: &str) -> i64 {
    rfc3339_to_nanos(text.as_bytes()).expect("timestamp should parse")
}

fn since(data: &[u8], target: &str) -> Option<Offset> {
    find_nearest_offset_since(data, ts(target), 0, data.len() as u64, FileFormat::CRI)
}

fn until(data: &[u8], target: &str) -> Option<Offset> {
    find_nearest_offset_until(data, ts(target), 0, data.len() as u64, FileFormat::CRI)
}

const NORMAL_LINES: [&str; 10] = [
    "2024-10-01T05:40:46.960135302Z stdout F linenum 1",
    "2024-10-01T05:40:48.840712595Z stdout F linenum 2",
    "2024-10-01T05:40:50.075182095Z stdout F linenum 3",
    "2024-10-01T05:40:52.222363431Z stdout F linenum 4",
    "2024-10-01T05:40:54.911909292Z stdout F linenum 5",
    "2024-10-01T05:40:57.041413876Z stdout F linenum 6",
    "2024-10-01T05:40:58.197779961Z stdout F linenum 7",
    "2024-10-01T05:40:58.564018502Z stdout F linenum 8",
    "2024-10-01T05:40:58.612948127Z stdout F linenum 9",
    "2024-10-01T05:40:59.103901461Z stdout F linenum 10",
];

#[test]
fn offset_test_normal() {
    let (data, offsets) = build_log(&NORMAL_LINES);
    let cases: Vec<(&str, Option<&Offset>)> = vec![
        ("2024-10-01T05:40:46.960135302Z", Some(&offsets[0])),
        ("2024-10-01T05:40:59.103901461Z", Some(&offsets[9])),
        ("2024-10-01T05:40:46.960135301Z", Some(&offsets[0])),
        ("2024-10-01T05:40:59.103901462Z", None),
        ("2024-10-01T05:40:52.222363431Z", Some(&offsets[3])),
        ("2024-10-01T05:40:52.222363430Z", Some(&offsets[3])),
    ];
    for (target, expected) in cases {
        assert_eq!(since(&data, target).as_ref(), expected, "target: {}", target);
    }
}

#[test]
fn offset_test_one_line() {
    let (data, offsets) = build_log(&["2024-10-01T05:40:23.308676722Z stdout F linenum 1"]);
    let cases: Vec<(&str, Option<&Offset>)> = vec![
        ("2024-10-01T05:40:23.308676722Z", Some(&offsets[0])),
        ("2024-10-01T05:40:23.308676721Z", Some(&offsets[0])),
        ("2024-10-01T05:40:23.308676723Z", None),
    ];
    for (target, expected) in cases {
        assert_eq!(since(&data, target).as_ref(), expected, "target: {}", target);
    }
}

#[test]
fn offset_test_empty() {
    let (data, _) = build_log(&[]);
    assert_eq!(since(&data, "2024-10-01T05:40:23.308676722Z"), None);
}

#[test]
fn offset_test_malformed_single() {
    let (data, _) = build_log(&["failed"]);
    assert_eq!(since(&data, "2024-10-01T05:40:23.308676722Z"), None);
}

#[test]
fn offset_test_malformed_mixed() {
    let lines = [
        "failed",
        "2024-10-01T05:40:25.221410625Z stdout F linenum 2",
        "2024-10-01T05:40:25.869390042Z stdout F linenum 3",
        "2024-10-01T05:40:27.180909751Z stdout F linenum 4",
        "failed",
        "failed",
        "2024-10-01T05:40:28.706906543Z stdout F linenum 7",
        "failed",
        "2024-10-01T05:40:28.706906543Z stdout F linenum 8",
        "failed",
    ];
    let (data, offsets) = build_log(&lines);
    let cases: Vec<(&str, Option<&Offset>)> = vec![
        ("2024-10-01T05:40:25.869390042Z", Some(&offsets[2])),
        ("2024-10-01T05:40:25.221410625Z", Some(&offsets[1])),
        ("2024-10-01T05:40:28.706906542Z", Some(&offsets[6])),
        ("2024-10-01T05:40:25.221410621Z", Some(&offsets[1])),
        ("2024-10-01T05:40:28.706906544Z", None),
    ];
    for (target, expected) in cases {
        assert_eq!(since(&data, target).as_ref(), expected, "target: {}", target);
    }
}

#[test]
fn offset_test_multiple_matches() {
    let lines = [
        "2024-10-01T05:40:46.960135302Z stdout F linenum 1",
        "2024-10-01T05:40:48.840712595Z stdout F linenum 2",
        "2024-10-01T05:40:50.075182095Z stdout F linenum 3",
        "2024-10-01T05:40:52.222363431Z stdout F linenum 4",
        "2024-10-01T05:40:54.911909292Z stdout F linenum 5",
        "2024-10-01T05:40:57.041413876Z stdout F linenum 6",
        "2024-10-01T05:40:58.197779961Z stdout F linenum 7",
        "2024-10-01T05:40:58.197779961Z stdout F linenum 8",
        "2024-10-01T05:40:58.197779961Z stdout F linenum 9",
        "2024-10-01T05:40:59.103901461Z stdout F linenum 10",
    ];
    let (data, offsets) = build_log(&lines);
    let cases: Vec<(&str, Option<&Offset>)> = vec![
        ("2024-10-01T05:40:58.197779961Z", Some(&offsets[6])),
        ("2024-10-01T05:40:58.197779960Z", Some(&offsets[6])),
    ];
    for (target, expected) in cases {
        assert_eq!(since(&data, target).as_ref(), expected, "target: {}", target);
    }
}

#[test]
fn offset_test_normal_until() {
    let (data, offsets) = build_log(&NORMAL_LINES);
    let cases: Vec<(&str, Option<&Offset>)> = vec![
        ("2024-10-01T05:40:46.960135302Z", Some(&offsets[0])),
        ("2024-10-01T05:40:59.103901461Z", Some(&offsets[9])),
        ("2024-10-01T05:40:46.960135301Z", None),
        ("2024-10-01T05:40:59.103901462Z", Some(&offsets[9])),
        ("2024-10-01T05:40:52.222363431Z", Some(&offsets[3])),
        ("2024-10-01T05:40:52.222363432Z", Some(&offsets[3])),
    ];
    for (target, expected) in cases {
        assert_eq!(until(&data, target).as_ref(), expected, "target: {}", target);
    }
}

#[test]
fn offset_test_one_line_until() {
    let (data, offsets) = build_log(&["2024-10-01T05:40:23.308676722Z stdout F linenum 1"]);
    let cases: Vec<(&str, Option<&Offset>)> = vec![
        ("2024-10-01T05:40:23.308676722Z", Some(&offsets[0])),
        ("2024-10-01T05:40:23.308676721Z", None),
        ("2024-10-01T05:40:23.308676723Z", Some(&offsets[0])),
    ];
    for (target, expected) in cases {
        assert_eq!(until(&data, target).as_ref(), expected, "target: {}", target);
    }
}

#[test]
fn offset_test_empty_until() {
    let (data, _) = build_log(&[]);
    assert_eq!(until(&data, "2024-10-01T05:40:23.308676722Z"), None);
}

#[test]
fn offset_test_malformed_single_until() {
    let (data, _) = build_log(&["failed"]);
    assert_eq!(until(&data, "2024-10-01T05:40:23.308676722Z"), None);
}

#[test]
fn offset_test_malformed_mixed_until() {
    let lines = [
        "failed",
        "2024-10-01T05:40:25.221410625Z stdout F linenum 2",
        "2024-10-01T05:40:25.869390042Z stdout F linenum 3",
        "2024-10-01T05:40:27.180909751Z stdout F linenum 4",
        "failed",
        "failed",
        "2024-10-01T05:40:28.706906543Z stdout F linenum 7",
        "failed",
        "2024-10-01T05:40:29.706906543Z stdout F linenum 8",
        "failed",
    ];
    let (data, offsets) = build_log(&lines);
    let cases: Vec<(&str, Option<&Offset>)> = vec![
        ("2024-10-01T05:40:25.869390042Z", Some(&offsets[2])),
        ("2024-10-01T05:40:25.221410625Z", Some(&offsets[1])),
        ("2024-10-01T05:40:28.706906543Z", Some(&offsets[6])),
        ("2024-10-01T05:40:25.221410621Z", None),
        ("2024-10-01T05:40:29.706906544Z", Some(&offsets[8])),
    ];
    for (target, expected) in cases {
        assert_eq!(until(&data, target).as_ref(), expected, "target: {}", target);
    }
}

#[test]
fn offset_test_multiple_matches_until() {
    let lines = [
        "2024-10-01T05:40:46.960135302Z stdout F linenum 1",
        "2024-10-01T05:40:48.840712595Z stdout F linenum 2",
        "2024-10-01T05:40:50.075182095Z stdout F linenum 3",
        "2024-10-01T05:40:52.222363431Z stdout F linenum 4",
        "2024-10-01T05:40:54.911909292Z stdout F linenum 5",
        "2024-10-01T05:40:57.041413876Z stdout F linenum 6",
        "2024-10-01T05:40:58.197779961Z stdout F linenum 7",
        "2024-10-01T05:40:58.197779961Z stdout F linenum 8",
        "2024-10-01T05:40:58.197779961Z stdout F linenum 9",
        "2024-10-01T05:40:59.103901461Z stdout F linenum 10",
    ];
    let (data, offsets) = build_log(&lines);
    let cases: Vec<(&str, Option<&Offset>)> = vec![
        ("2024-10-01T05:40:58.197779961Z", Some(&offsets[8])),
        ("2024-10-01T05:40:58.197779962Z", Some(&offsets[8])),
    ];
    for (target, expected) in cases {
        assert_eq!(until(&data, target).as_ref(), expected, "target: {}", target);
    }
}
