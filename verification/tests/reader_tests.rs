use cluster_agent::reader::ReverseLineReader;

fn pseudo_line(seed: usize) -> String {
    // Deterministic line content of varying length, alphanumeric only.
    let alphabet = b"abcdefghijklmnopqrstuvwxyzABCDEFGHIJKLMNOPQRSTUVWXYZ0123456789";
    let len = 850 + (seed * 37) % 100;
    let mut s = String::new();
    let mut state = seed.wrapping_mul(6364136223846793005).wrapping_add(1442695040888963407);
    for _ in 0..len {
        state = state.wrapping_mul(6364136223846793005).wrapping_add(1442695040888963407);
        s.push(alphabet[(state >> 33) as usize % alphabet.len()] as char);
    }
    s
}

#[test]
fn test_reverse_line_reader() {
    let mut lines = Vec::with_capacity(100);
    let mut data = Vec::new();
    for i in 1..=100 {
        let text = pseudo_line(i);
        data.extend_from_slice(text.as_bytes());
        data.push(b'\n');
        lines.push(text);
    }
    lines.reverse();

    let max_pos = data.len();
    let mut reader = ReverseLineReader::new(data, 0, max_pos);
    let mut n = 0;
    while let Some(line) = reader.next_line() {
        let line_str = String::from_utf8_lossy(&line);
        let trimmed_line = line_str.trim_end();
        assert_eq!(trimmed_line, lines[n], "n: {}", n);
        n += 1;
    }
    assert_eq!(n, 100);
}

#[test]
fn reverse_line_reader_skips_trailing_newline() {
    let data = b"first\nsecond\nthird\n".to_vec();
    let len = data.len();
    let mut reader = ReverseLineReader::new(data, 0, len);
    assert_eq!(reader.next_line(), Some(b"third\n".to_vec()));
    assert_eq!(reader.next_line(), Some(b"second\n".to_vec()));
    assert_eq!(reader.next_line(), Some(b"first".to_vec()));
    assert_eq!(reader.next_line(), None);
}

#[test]
fn reverse_line_reader_partial_range() {
    let data = b"aaa\nbbb\nccc\n".to_vec();
    // The range [4, 12) covers the second and third lines only.
    let mut reader = ReverseLineReader::new(data, 4, 12);
    assert_eq!(reader.next_line(), Some(b"ccc\n".to_vec()));
    assert_eq!(reader.next_line(), Some(b"bbb".to_vec()));
    assert_eq!(reader.next_line(), None);
}

#[test]
fn reverse_line_reader_empty_range() {
    let data = b"aaa\n".to_vec();
    let mut reader = ReverseLineReader::new(data, 2, 2);
    assert_eq!(reader.next_line(), None);
}

#[test]
fn reverse_line_reader_read_serves_stream() {
    let data = b"one\ntwo\nthree\n".to_vec();
    let len = data.len();
    let mut reader = ReverseLineReader::new(data, 0, len);
    let mut collected = Vec::new();
    loop {
        let chunk = reader.read(4);
        if chunk.is_empty() {
            break;
        }
        assert!(chunk.len() <= 4);
        collected.extend_from_slice(&chunk);
    }
    // Lines arrive newest first; the earliest line keeps no terminator.
    assert_eq!(collected, b"three\ntwo\none".to_vec());
}
