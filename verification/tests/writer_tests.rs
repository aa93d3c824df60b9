use cluster_agent::file_format::{extract_message_cri, FileFormat};
use cluster_agent::matcher::LogFileRegexMatcher;
use cluster_agent::timestamp::rfc3339_to_nanos;
use cluster_agent::trimmer::LogTrimmerReader;
use cluster_agent::writer::{normalize_message, record_from_line, CallbackWriter};

#[test]
fn normalize_message_returns_truncated_count_and_strips_marker() {
    let raw = format!(
        "hello{}{:016X}{}\n",
        char::from(0x1Fu8),
        3u64,
        char::from(0x1Fu8)
    );

    let (normalized, original_size_bytes, is_truncated) = normalize_message(raw.as_bytes());
    assert_eq!(normalized, b"hello".to_vec());
    assert_eq!(original_size_bytes, 8);
    assert!(is_truncated);
}

#[test]
fn normalize_message_trims_newlines() {
    let raw = b"hello\n";
    assert_eq!(normalize_message(raw), (b"hello".to_vec(), 5, false));
}

#[test]
fn normalize_message_ignores_embedded_sentinel() {
    let raw = format!("hel{}lo\n", char::from(0x1Fu8));
    let (normalized, original_size_bytes, is_truncated) = normalize_message(raw.as_bytes());
    assert_eq!(normalized, format!("hel{}lo", char::from(0x1Fu8)).into_bytes());
    assert_eq!(original_size_bytes, 6);
    assert!(!is_truncated);
}

#[test]
fn normalize_message_recovers_raw_marker() {
    let mut raw = b"abcde".to_vec();
    raw.extend_from_slice(&5u64.to_be_bytes());
    raw.push(0x1F);
    raw.push(b'\n');
    let (normalized, original_size_bytes, is_truncated) = normalize_message(&raw);
    assert_eq!(normalized, b"abcde".to_vec());
    assert_eq!(original_size_bytes, 10);
    assert!(is_truncated);
}

#[test]
fn process_output_respects_truncate_limit_for_cri() {
    const LIMIT: usize = 100;
    let message = "a".repeat(120);
    let line = format!("2024-11-20T10:00:00Z stdout F {message}\n");

    // Simulate the log reader trimming a long CRI line.
    let mut reader = LogTrimmerReader::new(line.into_bytes(), FileFormat::CRI, LIMIT);
    let trimmed = reader.read_to_end();

    let record = record_from_line(&trimmed, FileFormat::CRI)
        .expect("trimmed line should yield a record");
    assert_eq!(record.message.len(), LIMIT);
    assert_eq!(record.original_size_bytes, message.len() as u64);
    assert!(record.is_truncated);
}

#[test]
fn record_from_line_parses_cri() {
    let line = b"2024-10-01T05:40:46.960135302Z stdout F linenum 1\n";
    let record = record_from_line(line, FileFormat::CRI).expect("line should parse");
    assert_eq!(record.message, b"linenum 1".to_vec());
    assert_eq!(
        record.timestamp,
        Some(rfc3339_to_nanos(b"2024-10-01T05:40:46.960135302Z").unwrap())
    );
    assert_eq!(record.original_size_bytes, 9);
    assert!(!record.is_truncated);
}

#[test]
fn record_from_line_parses_docker() {
    let line = br#"{"log":"hello world\n","stream":"stdout","time":"2024-10-01T05:40:46.960135302Z"}"#;
    let record = record_from_line(line, FileFormat::Docker).expect("line should parse");
    assert_eq!(record.message, b"hello world".to_vec());
    assert_eq!(
        record.timestamp,
        Some(rfc3339_to_nanos(b"2024-10-01T05:40:46.960135302Z").unwrap())
    );
    assert!(!record.is_truncated);
}

#[test]
fn record_from_line_docker_bad_time_uses_epoch() {
    let line = br#"{"log":"hi","stream":"stdout","time":"not-a-time"}"#;
    let record = record_from_line(line, FileFormat::Docker).expect("line should parse");
    assert_eq!(record.timestamp, Some(0));
    assert_eq!(record.message, b"hi".to_vec());
}

#[test]
fn record_from_line_rejects_unparseable() {
    assert!(record_from_line(b"failed\n", FileFormat::CRI).is_none());
    assert!(record_from_line(b"no timestamp here at all\n", FileFormat::CRI).is_none());
    assert!(record_from_line(b"plain text\n", FileFormat::Docker).is_none());
}

#[test]
fn test_extract_message_cri() {
    let cases = [
        ("2025-07-31T12:06:00.001936471Z stdout F hello world", "hello world"),
        ("2025-07-31T12:06:00.001936471Z stderr F hello world", "hello world"),
        ("2025-07-31T12:06:00.001936471Z stdout P hello world", "hello world"),
        ("2025-07-31T12:06:00.00Z stdout F hello world", "hello world"),
        ("2025-07-31T12:06:00.001936471+3:00 stdout F hello world", "hello world"),
    ];
    for (line, expected) in cases {
        assert_eq!(
            extract_message_cri(line.as_bytes()),
            Some(expected.as_bytes().to_vec()),
            "line: {}",
            line
        );
    }
}

#[test]
fn test_extract_message_docker() {
    // The docker message runs through serde's JSON decoding, escapes included.
    let cases = [
        (
            r#"{"log": "hello world","stream":"stdout","time":"2025-07-31T12:06:00.001936471Z"}"#,
            "hello world",
        ),
        (
            r#"{"log": "hello world\n","stream":"stderr","time":"2025-07-31T12:06:00.001936471Z"}"#,
            "hello world\n",
        ),
        (
            r#"{"log":"multi line\nmessage","stream":"stdout","time":"2025-07-31T12:06:00.001936471Z"}"#,
            "multi line\nmessage",
        ),
        (
            r#"{"log":"","stream":"stdout","time":"2025-07-31T12:06:00.001936471Z"}"#,
            "",
        ),
        (
            r#"{"log":"with \"quotes\"","stream":"stdout","time":"2025-07-31T12:06:00.001936471Z"}"#,
            "with \"quotes\"",
        ),
    ];
    for (line, expected) in cases {
        let matcher = LogFileRegexMatcher::new_unchecked(expected.as_bytes(), FileFormat::Docker);
        // The matcher decodes the log field the same way; a literal query of
        // the whole message must match its own line.
        if !expected.is_empty() && !expected.contains('\\') && !expected.contains('"') {
            assert!(matcher.matches_line(line.as_bytes()), "line: {}", line);
        }
        let record = record_from_line(line.as_bytes(), FileFormat::Docker).unwrap();
        assert_eq!(
            record.message,
            expected.trim_end_matches(['\n', '\r']).as_bytes().to_vec(),
            "line: {}",
            line
        );
    }
}

#[test]
fn callback_writer_regroups_lines() {
    let mut writer = CallbackWriter::new();
    let lines = writer.write(b"first li");
    assert!(lines.is_empty());
    let lines = writer.write(b"ne\nsecond\nthi");
    assert_eq!(lines, vec![b"first line\n".to_vec(), b"second\n".to_vec()]);
    let tail = writer.flush();
    assert_eq!(tail, Some(b"thi".to_vec()));
    assert_eq!(writer.flush(), None);
}
