use cluster_agent::file_format::FileFormat;
use cluster_agent::trimmer::{LogTrimmerReader, TRUNCATION_SENTINEL};

fn read_all(input: &[u8], format: FileFormat, limit: usize) -> Vec<u8> {
    let mut reader = LogTrimmerReader::new(input.to_vec(), format, limit);
    reader.read_to_end()
}

#[test]
fn log_trimmer_reader_truncates_message() {
    // limit 5: the ten-byte message is cut and the marker appended.
    let input = "2024-11-20T10:00:00Z stdout F 1234567890\n";
    let mut expected = b"2024-11-20T10:00:00Z stdout F 12345".to_vec();
    expected.extend_from_slice(&5u64.to_be_bytes());
    expected.push(TRUNCATION_SENTINEL);
    expected.push(b'\n');
    assert_eq!(read_all(input.as_bytes(), FileFormat::CRI, 5), expected);

    // limit equal to the message length: unchanged.
    assert_eq!(
        read_all(input.as_bytes(), FileFormat::CRI, 10),
        input.as_bytes().to_vec()
    );

    // limit above the message length: unchanged.
    assert_eq!(
        read_all(input.as_bytes(), FileFormat::CRI, 20),
        input.as_bytes().to_vec()
    );
}

#[test]
fn log_trimmer_reader_handles_lines_independently() {
    let input = "2024-11-20T10:00:00Z stdout F abcdef\n2024-11-21T10:00:00Z stdout F xyz\n";
    let mut expected = b"2024-11-20T10:00:00Z stdout F abc".to_vec();
    expected.extend_from_slice(&3u64.to_be_bytes());
    expected.push(TRUNCATION_SENTINEL);
    expected.push(b'\n');
    expected.extend_from_slice(b"2024-11-21T10:00:00Z stdout F xyz\n");
    assert_eq!(read_all(input.as_bytes(), FileFormat::CRI, 3), expected);

    // A line without the three header spaces passes through untouched.
    let input2 = "noheader longmessageexceedinglimit\n2024-11-21T10:00:00Z stdout F qwerty\n";
    let mut expected2 =
        b"noheader longmessageexceedinglimit\n2024-11-21T10:00:00Z stdout F qw".to_vec();
    expected2.extend_from_slice(&4u64.to_be_bytes());
    expected2.push(TRUNCATION_SENTINEL);
    expected2.push(b'\n');
    assert_eq!(read_all(input2.as_bytes(), FileFormat::CRI, 2), expected2);
}

#[test]
fn log_trimmer_reader_truncates_docker_format() {
    let input = r#"{"log":"abcdefghij","stream":"stdout","time":"2024-11-20T10:00:00Z"}"#;
    let input_with_newline = format!("{input}\n").into_bytes();

    let output = read_all(&input_with_newline, FileFormat::Docker, 5);

    let mut expected = br#"{"log":"abcde\u0000\u0000\u0000\u0000\u0000\u0000\u0000\u0005\u001F","stream":"stdout","time":"2024-11-20T10:00:00Z"}"#.to_vec();
    expected.push(b'\n');

    assert_eq!(output, expected);
}

#[test]
fn log_trimmer_reader_zero_limit_passes_through() {
    let input = "2024-11-20T10:00:00Z stdout F 1234567890\n";
    assert_eq!(
        read_all(input.as_bytes(), FileFormat::CRI, 0),
        input.as_bytes().to_vec()
    );
}

#[test]
fn log_trimmer_reader_serves_partial_reads() {
    let input = b"2024-11-20T10:00:00Z stdout F hello\n".to_vec();
    let mut reader = LogTrimmerReader::new(input.clone(), FileFormat::CRI, 0);
    let mut collected = Vec::new();
    loop {
        let chunk = reader.read(7);
        if chunk.is_empty() {
            break;
        }
        assert!(chunk.len() <= 7);
        collected.extend_from_slice(&chunk);
    }
    assert_eq!(collected, input);
}
