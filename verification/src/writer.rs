//! Record emission: turning matched log lines into `LogRecord`s.
//!
//! `normalize_message` strips line terminators and recovers a truncation
//! marker left by the trimmer, restoring the original message size.  The
//! marker count is recognised in two renderings: the eight raw big-endian
//! bytes before a trailing sentinel, or sixteen hex digits framed by two
//! sentinels.  `CallbackWriter` regroups a byte stream into complete lines.

use vstd::prelude::*;

use crate::file_format::FileFormat;
use crate::scan;
use crate::timestamp;
use crate::trimmer;

verus! {

/// One streamed log record: the instant the line carries (nanoseconds since
/// the Unix epoch), the message body, its size before truncation, and
/// whether it was truncated.
#[derive(Debug, Clone, PartialEq)]
pub struct LogRecord {
    pub timestamp: Option<i64>,
    pub message: Vec<u8>,
    pub original_size_bytes: u64,
    pub is_truncated: bool,
}

/// `s` with every trailing carriage return and newline removed.
pub open spec fn trim_end_crlf(s: Seq<u8>) -> Seq<u8>
    decreases s.len(),
{
    if s.len() == 0 {
        s
    } else if s.last() == 10 || s.last() == 13 {
        trim_end_crlf(s.drop_last())
    } else {
        s
    }
}

/// Whether `b` is an ASCII hexadecimal digit.
pub open spec fn is_hex(b: u8) -> bool {
    (48 <= b <= 57) || (97 <= b <= 102) || (65 <= b <= 70)
}

/// Value of one hexadecimal digit.
pub open spec fn hex_val(b: u8) -> u8 {
    if 48 <= b <= 57 {
        (b - 48) as u8
    } else if 97 <= b <= 102 {
        (b - 87) as u8
    } else if 65 <= b <= 70 {
        (b - 55) as u8
    } else {
        0
    }
}

/// Big-endian value of eight bytes starting at `at`.
pub open spec fn be64_at(s: Seq<u8>, at: int) -> u64 {
    (((s[at] as u64) << 56) | ((s[at + 1] as u64) << 48) | ((s[at + 2] as u64) << 40) | ((s[at
        + 3] as u64) << 32) | ((s[at + 4] as u64) << 24) | ((s[at + 5] as u64) << 16) | ((s[at
        + 6] as u64) << 8) | (s[at + 7] as u64)) as u64
}

/// Byte encoded by the two hexadecimal digits at `at`.
pub open spec fn hex_pair(s: Seq<u8>, at: int) -> u8 {
    (hex_val(s[at]) * 16 + hex_val(s[at + 1])) as u8
}

/// Value of the sixteen hexadecimal digits starting at `at`.
pub open spec fn hex16_at(s: Seq<u8>, at: int) -> u64 {
    (((hex_pair(s, at) as u64) << 56) | ((hex_pair(s, at + 2) as u64) << 48) | ((hex_pair(
        s,
        at + 4,
    ) as u64) << 40) | ((hex_pair(s, at + 6) as u64) << 32) | ((hex_pair(s, at + 8) as u64)
        << 24) | ((hex_pair(s, at + 10) as u64) << 16) | ((hex_pair(s, at + 12) as u64) << 8) | (
    hex_pair(s, at + 14) as u64)) as u64
}

/// `a + b`, capped at the largest `u64`.
pub open spec fn sat_add_u64(a: int, b: int) -> u64 {
    if a + b > u64::MAX {
        u64::MAX as u64
    } else {
        (a + b) as u64
    }
}

/// Whether the trimmed message ends in a hex-rendered truncation marker:
/// sentinel, sixteen hex digits, sentinel.
pub open spec fn has_hex_marker(t: Seq<u8>) -> bool {
    &&& t.len() >= 18
    &&& t.last() == trimmer::TRUNCATION_SENTINEL
    &&& t[t.len() - 18] == trimmer::TRUNCATION_SENTINEL
    &&& forall|j: int| t.len() - 17 <= j < t.len() - 1 ==> is_hex(#[trigger] t[j])
}

/// Whether the trimmed message ends in a raw truncation marker: eight count
/// bytes and the sentinel.
pub open spec fn has_raw_marker(t: Seq<u8>) -> bool {
    t.len() >= 9 && t.last() == trimmer::TRUNCATION_SENTINEL
}

/// The decoded message, its original size, and whether it was truncated.
pub open spec fn spec_normalize(raw: Seq<u8>) -> (Seq<u8>, u64, bool) {
    let t = trim_end_crlf(raw);
    if has_hex_marker(t) {
        let count = hex16_at(t, t.len() - 17);
        (t.take(t.len() - 18), sat_add_u64(t.len() - 18, count as int), true)
    } else if has_raw_marker(t) {
        let count = be64_at(t, t.len() - 9);
        (t.take(t.len() - 9), sat_add_u64(t.len() - 9, count as int), true)
    } else {
        (t, t.len() as u64, false)
    }
}

/// Strips trailing line terminators and recovers a truncation marker, if one
/// closes the message.
pub fn normalize_message(raw: &[u8]) -> (r: (Vec<u8>, u64, bool))
    ensures
        (r.0@, r.1, r.2) == spec_normalize(raw@),
{
    let mut end: usize = raw.len();
    proof {
        assert(raw@.take(raw@.len() as int) =~= raw@);
    }
    while end > 0 && (raw[end - 1] == 10 || raw[end - 1] == 13)
        invariant
            end <= raw.len(),
            trim_end_crlf(raw@) == trim_end_crlf(raw@.take(end as int)),
        decreases end,
    {
        proof {
            assert(raw@.take(end as int).drop_last() =~= raw@.take(end - 1));
        }
        end = end - 1;
    }
    proof {
        assert(trim_end_crlf(raw@.take(end as int)) == raw@.take(end as int));
    }
    let ghost t = trim_end_crlf(raw@);
    if end >= 18 && raw[end - 1] == trimmer::TRUNCATION_SENTINEL && raw[end - 18]
        == trimmer::TRUNCATION_SENTINEL && all_hex(raw, end - 17, end - 1) {
        proof {
            assert(t.last() == raw@[end - 1]);
            assert(t[t.len() - 18] == raw@[end - 18]);
            assert forall|j: int| t.len() - 17 <= j < t.len() - 1 implies is_hex(
                #[trigger] t[j],
            ) by {
                assert(t[j] == raw@[j]);
            }
            assert(has_hex_marker(t));
        }
        let count = read_hex16(raw, end - 17);
        proof {
            assert(hex16_at(t, end - 17) == hex16_at(raw@, end - 17)) by {
                assert(t[end - 17] == raw@[end - 17]);
                assert(t[end - 16] == raw@[end - 16]);
                assert(t[end - 15] == raw@[end - 15]);
                assert(t[end - 14] == raw@[end - 14]);
                assert(t[end - 13] == raw@[end - 13]);
                assert(t[end - 12] == raw@[end - 12]);
                assert(t[end - 11] == raw@[end - 11]);
                assert(t[end - 10] == raw@[end - 10]);
                assert(t[end - 9] == raw@[end - 9]);
                assert(t[end - 8] == raw@[end - 8]);
                assert(t[end - 7] == raw@[end - 7]);
                assert(t[end - 6] == raw@[end - 6]);
                assert(t[end - 5] == raw@[end - 5]);
                assert(t[end - 4] == raw@[end - 4]);
                assert(t[end - 3] == raw@[end - 3]);
                assert(t[end - 2] == raw@[end - 2]);
            }
        }
        let message = scan::copy_range(raw, 0, end - 18);
        let original = sat_add(end - 18, count);
        proof {
            assert(message@ =~= t.take(t.len() - 18));
        }
        return (message, original, true);
    }
    if end >= 9 && raw[end - 1] == trimmer::TRUNCATION_SENTINEL {
        proof {
            assert(t.last() == raw@[end - 1]);
            assert(has_raw_marker(t));
        }
        let count = read_be64(raw, end - 9);
        proof {
            assert(be64_at(t, end - 9) == be64_at(raw@, end - 9)) by {
                assert(t[end - 9] == raw@[end - 9]);
                assert(t[end - 8] == raw@[end - 8]);
                assert(t[end - 7] == raw@[end - 7]);
                assert(t[end - 6] == raw@[end - 6]);
                assert(t[end - 5] == raw@[end - 5]);
                assert(t[end - 4] == raw@[end - 4]);
                assert(t[end - 3] == raw@[end - 3]);
                assert(t[end - 2] == raw@[end - 2]);
            }
        }
        let message = scan::copy_range(raw, 0, end - 9);
        let original = sat_add(end - 9, count);
        proof {
            assert(message@ =~= t.take(t.len() - 9));
        }
        return (message, original, true);
    }
    let message = scan::copy_range(raw, 0, end);
    proof {
        assert(message@ =~= t);
        if t.len() >= 18 {
            assert(t.last() == raw@[end - 1]);
            assert(t[t.len() - 18] == raw@[end - 18]);
            if raw@[end - 1] == trimmer::TRUNCATION_SENTINEL && raw@[end - 18]
                == trimmer::TRUNCATION_SENTINEL {
                assert(exists|j: int|
                    t.len() - 17 <= j < t.len() - 1 && !is_hex(#[trigger] t[j])) by {
                    let k = choose|k: int| end - 17 <= k < end - 1 && !is_hex(
                        #[trigger] raw@[k],
                    );
                    assert(t[k] == raw@[k]);
                }
            }
        }
        if t.len() >= 9 {
            assert(t.last() == raw@[end - 1]);
        }
        assert(!has_hex_marker(t));
        assert(!has_raw_marker(t));
    }
    (message, end as u64, false)
}

/// Whether every byte of `raw[lo..hi)` is a hexadecimal digit.
fn all_hex(raw: &[u8], lo: usize, hi: usize) -> (r: bool)
    requires
        lo <= hi <= raw.len(),
    ensures
        r == forall|j: int| lo <= j < hi ==> is_hex(#[trigger] raw@[j]),
{
    let mut i: usize = lo;
    while i < hi
        invariant
            lo <= i <= hi <= raw.len(),
            forall|j: int| lo <= j < i ==> is_hex(#[trigger] raw@[j]),
        decreases hi - i,
    {
        let b = raw[i];
        let ok = (48 <= b && b <= 57) || (97 <= b && b <= 102) || (65 <= b && b <= 70);
        if !ok {
            return false;
        }
        i = i + 1;
    }
    true
}

/// Reads the big-endian value of eight bytes.
fn read_be64(raw: &[u8], at: usize) -> (r: u64)
    requires
        at + 8 <= raw.len(),
    ensures
        r == be64_at(raw@, at as int),
{
    ((raw[at] as u64) << 56) | ((raw[at + 1] as u64) << 48) | ((raw[at + 2] as u64) << 40) | ((
    raw[at + 3] as u64) << 32) | ((raw[at + 4] as u64) << 24) | ((raw[at + 5] as u64) << 16) | ((
    raw[at + 6] as u64) << 8) | (raw[at + 7] as u64)
}

/// Value of one hexadecimal digit byte.
fn hex_val_byte(b: u8) -> (r: u8)
    ensures
        r == hex_val(b),
{
    if 48 <= b && b <= 57 {
        b - 48
    } else if 97 <= b && b <= 102 {
        b - 87
    } else if 65 <= b && b <= 70 {
        b - 55
    } else {
        0
    }
}

/// Reads the value of sixteen hexadecimal digits.
fn read_hex16(raw: &[u8], at: usize) -> (r: u64)
    requires
        at + 16 <= raw.len(),
    ensures
        r == hex16_at(raw@, at as int),
{
    let p0 = hex_pair_at(raw, at);
    let p1 = hex_pair_at(raw, at + 2);
    let p2 = hex_pair_at(raw, at + 4);
    let p3 = hex_pair_at(raw, at + 6);
    let p4 = hex_pair_at(raw, at + 8);
    let p5 = hex_pair_at(raw, at + 10);
    let p6 = hex_pair_at(raw, at + 12);
    let p7 = hex_pair_at(raw, at + 14);
    ((p0 as u64) << 56) | ((p1 as u64) << 48) | ((p2 as u64) << 40) | ((p3 as u64) << 32) | ((
    p4 as u64) << 24) | ((p5 as u64) << 16) | ((p6 as u64) << 8) | (p7 as u64)
}

/// Byte encoded by two hexadecimal digits.
fn hex_pair_at(raw: &[u8], at: usize) -> (r: u8)
    requires
        at + 2 <= raw.len(),
    ensures
        r == hex_pair(raw@, at as int),
{
    let hi = hex_val_byte(raw[at]);
    let lo = hex_val_byte(raw[at + 1]);
    proof {
        assert(hex_val(raw@[at as int]) < 16);
        assert(hex_val(raw@[at + 1]) < 16);
    }
    hi * 16 + lo
}

/// `a + b`, capped at the largest `u64`.
fn sat_add(a: usize, b: u64) -> (r: u64)
    ensures
        r == sat_add_u64(a as int, b as int),
{
    let a64 = a as u64;
    if a64 <= u64::MAX - b {
        a64 + b
    } else {
        u64::MAX
    }
}

/// The record a matched line yields, as
/// `(timestamp, message, original size, truncated)`.
pub open spec fn spec_record(line: Seq<u8>, fmt: FileFormat) -> Option<
    (Option<i64>, Seq<u8>, u64, bool),
> {
    match fmt {
        FileFormat::CRI => {
            let sp = scan::first_occ(line, 32u8) as int;
            if sp >= line.len() {
                None
            } else {
                let rest = line.skip(sp + 1);
                if rest.len() < 9 {
                    None
                } else {
                    match timestamp::rfc3339_nanos(line.take(sp)) {
                        None => None,
                        Some(ts) => {
                            let n = spec_normalize(rest.skip(9));
                            Some((Some(ts), n.0, n.1, n.2))
                        },
                    }
                }
            }
        },
        FileFormat::Docker => match timestamp::docker_fields(line) {
            None => None,
            Some(p) => {
                let ts = match timestamp::rfc3339_nanos(p.0) {
                    Some(v) => v,
                    None => 0,
                };
                let n = spec_normalize(p.1);
                Some((Some(ts), n.0, n.1, n.2))
            },
        },
    }
}

/// Parses one matched line into a record: for CRI the leading timestamp and
/// the message past the stream and tag tokens, for Docker-JSON the `"time"`
/// and `"log"` fields (an unparseable `"time"` falls back to the epoch).
/// Lines that do not fit the format yield nothing.
pub fn record_from_line(line: &[u8], fmt: FileFormat) -> (r: Option<LogRecord>)
    ensures
        match r {
            Some(rec) => spec_record(line@, fmt) == Some(
                (rec.timestamp, rec.message@, rec.original_size_bytes, rec.is_truncated),
            ),
            None => spec_record(line@, fmt) is None,
        },
{
    match fmt {
        FileFormat::CRI => {
            let sp = scan::find_byte(line, 0, 32);
            proof {
                assert(line@.skip(0) =~= line@);
            }
            if sp >= line.len() {
                return None;
            }
            if line.len() - (sp + 1) < 9 {
                proof {
                    assert(line@.skip(sp + 1).len() < 9);
                }
                return None;
            }
            let token = scan::copy_range(line, 0, sp);
            proof {
                assert(token@ =~= line@.take(sp as int));
            }
            match timestamp::rfc3339_to_nanos(token.as_slice()) {
                None => None,
                Some(ts) => {
                    let msg_raw = scan::copy_range(line, sp + 10, line.len());
                    proof {
                        assert(msg_raw@ =~= line@.skip(sp + 1).skip(9));
                    }
                    let n = normalize_message(msg_raw.as_slice());
                    Some(
                        LogRecord {
                            timestamp: Some(ts),
                            message: n.0,
                            original_size_bytes: n.1,
                            is_truncated: n.2,
                        },
                    )
                },
            }
        },
        FileFormat::Docker => {
            match timestamp::docker_json_fields(line) {
                None => None,
                Some(p) => {
                    let ts = match timestamp::rfc3339_to_nanos(p.0.as_slice()) {
                        Some(v) => v,
                        None => 0,
                    };
                    let n = normalize_message(p.1.as_slice());
                    Some(
                        LogRecord {
                            timestamp: Some(ts),
                            message: n.0,
                            original_size_bytes: n.1,
                            is_truncated: n.2,
                        },
                    )
                },
            }
        },
    }
}


/// Reading back the eight big-endian bytes of a count restores the count.
proof fn lemma_be_roundtrip(d: u64)
    ensures
        be64_at(trimmer::u64_be_bytes(d), 0) == d,
{
    let s = trimmer::u64_be_bytes(d);
    assert(be64_at(s, 0) == (((((d >> 56) & 0xFF) as u8) as u64) << 56 | ((((d >> 48)
        & 0xFF) as u8) as u64) << 48 | ((((d >> 40) & 0xFF) as u8) as u64) << 40 | ((((d >> 32)
        & 0xFF) as u8) as u64) << 32 | ((((d >> 24) & 0xFF) as u8) as u64) << 24 | ((((d >> 16)
        & 0xFF) as u8) as u64) << 16 | ((((d >> 8) & 0xFF) as u8) as u64) << 8 | (((d
        & 0xFF) as u8) as u64)) as u64);
    assert((((((d >> 56) & 0xFF) as u8) as u64) << 56 | ((((d >> 48) & 0xFF) as u8) as u64)
        << 48 | ((((d >> 40) & 0xFF) as u8) as u64) << 40 | ((((d >> 32) & 0xFF) as u8) as u64)
        << 32 | ((((d >> 24) & 0xFF) as u8) as u64) << 24 | ((((d >> 16) & 0xFF) as u8) as u64)
        << 16 | ((((d >> 8) & 0xFF) as u8) as u64) << 8 | (((d & 0xFF) as u8) as u64)) as u64
        == d) by (bit_vector);
}

/// The decoded message is never longer than the raw bytes it came from.
pub proof fn lemma_normalize_shrinks(raw: Seq<u8>)
    ensures
        spec_normalize(raw).0.len() <= raw.len(),
    decreases raw.len(),
{
    lemma_trim_crlf_len(raw);
}

/// Trimming terminators never lengthens the bytes.
proof fn lemma_trim_crlf_len(s: Seq<u8>)
    ensures
        trim_end_crlf(s).len() <= s.len(),
    decreases s.len(),
{
    if s.len() > 0 && (s.last() == 10 || s.last() == 13) {
        lemma_trim_crlf_len(s.drop_last());
    }
}


/// The decoded message is never longer than the terminator-trimmed bytes.
proof fn lemma_normalize_le_trimmed(raw: Seq<u8>)
    ensures
        spec_normalize(raw).0.len() <= trim_end_crlf(raw).len(),
{
    let t = trim_end_crlf(raw);
    if has_hex_marker(t) {
        assert(t.take(t.len() - 18).len() == t.len() - 18);
    } else if has_raw_marker(t) {
        assert(t.take(t.len() - 9).len() == t.len() - 9);
    }
}

/// The budget holds for every line the trimmer emits (CRI): after cutting a
/// line to `limit` bytes of message, the decoded message never exceeds
/// `limit` — whether or not the line was actually cut.
pub proof fn lemma_trimmed_message_bounded(line: Seq<u8>, limit: nat)
    requires
        limit > 0,
        trimmer::third_space_end(line) is Some,
        line.len() <= scan::first_nl(line) + 1,
    ensures
        ({
            let h = trimmer::third_space_end(line)->0;
            let out = trimmer::trim_line_cri(line, limit);
            spec_normalize(out.skip(h)).0.len() <= limit
        }),
{
    let h = trimmer::third_space_end(line)->0;
    let nl = scan::first_nl(line) as int;
    scan::lemma_first_occ(line, scan::NL);
    lemma_third_space_bounds(line);
    let msg_len = nl - h;
    let out = trimmer::trim_line_cri(line, limit);
    if msg_len <= limit {
        assert(out == line);
        let raw = line.skip(h);
        lemma_normalize_le_trimmed(raw);
        if nl < line.len() {
            assert(raw.len() == msg_len + 1);
            assert(raw.last() == line[nl]);
            assert(trim_end_crlf(raw).len() <= raw.drop_last().len()) by {
                lemma_trim_crlf_len(raw.drop_last());
            }
        } else {
            assert(raw.len() == msg_len);
            lemma_trim_crlf_len(raw);
        }
    } else {
        let d = (msg_len - limit) as u64;
        assert(out == line.take(h + limit) + trimmer::raw_marker(d));
        let kept = line.subrange(h, h + limit);
        let marked = kept + trimmer::u64_be_bytes(d).push(trimmer::TRUNCATION_SENTINEL);
        assert(out.skip(h) =~= marked.push(scan::NL));
        assert(trim_end_crlf(out.skip(h)) == trim_end_crlf(marked)) by {
            assert(marked.push(scan::NL).drop_last() =~= marked);
        }
        assert(marked.last() == trimmer::TRUNCATION_SENTINEL);
        assert(trim_end_crlf(marked) == marked);
        lemma_normalize_le_trimmed(out.skip(h));
        let t = marked;
        if has_hex_marker(t) {
            assert(spec_normalize(out.skip(h)).0.len() == t.len() - 18);
        } else {
            assert(has_raw_marker(t));
            assert(spec_normalize(out.skip(h)).0.len() == t.len() - 9);
        }
    }
}

/// Truncation round trip (CRI): a message cut at the budget comes back from
/// the emitter with exactly the budget's bytes, marked truncated, and with
/// an original size equal to the full message length — the recovered count
/// is exactly what the trimmer discarded.
pub proof fn lemma_truncation_recovered(line: Seq<u8>, limit: nat)
    requires
        limit > 0,
        line.len() < 0x100000000000000,
        trimmer::third_space_end(line) is Some,
        scan::first_nl(line) > trimmer::third_space_end(line)->0 + limit,
    ensures
        ({
            let h = trimmer::third_space_end(line)->0;
            let nl = scan::first_nl(line) as int;
            let out = trimmer::trim_line_cri(line, limit);
            let n = spec_normalize(out.skip(h));
            &&& n.0 == line.subrange(h, h + limit)
            &&& n.0.len() == limit
            &&& n.2 == true
            &&& n.1 == nl - h
            &&& n.1 - n.0.len() == nl - h - limit
        }),
{
    let h = trimmer::third_space_end(line)->0;
    let nl = scan::first_nl(line) as int;
    scan::lemma_first_occ(line, scan::NL);
    lemma_third_space_bounds(line);
    let msg_len = nl - h;
    let d = (msg_len - limit) as u64;
    let out = trimmer::trim_line_cri(line, limit);
    assert(out == line.take(h + limit) + trimmer::raw_marker(d));
    let kept = line.subrange(h, h + limit);
    let marked = kept + trimmer::u64_be_bytes(d).push(trimmer::TRUNCATION_SENTINEL);
    assert(out.skip(h) =~= marked.push(scan::NL));
    assert(trim_end_crlf(out.skip(h)) == trim_end_crlf(marked)) by {
        assert(marked.push(scan::NL).drop_last() =~= marked);
    }
    assert(marked.last() == trimmer::TRUNCATION_SENTINEL);
    assert(trim_end_crlf(marked) == marked);
    let t = marked;
    assert(t.len() == limit + 9);
    assert(((d >> 56) & 0xFF) as u8 == 0) by (bit_vector)
        requires
            d < 0x100000000000000,
    ;
    assert(t[limit as int] == ((d >> 56) & 0xFF) as u8);
    assert(t[limit as int] == 0);
    assert(!has_hex_marker(t)) by {
        if has_hex_marker(t) {
            assert(t.len() >= 18);
            assert(t.len() - 17 <= limit < t.len() - 1);
            assert(is_hex(t[limit as int]));
        }
    }
    assert(has_raw_marker(t));
    lemma_be_roundtrip(d);
    assert(be64_at(t, t.len() - 9) == be64_at(trimmer::u64_be_bytes(d), 0)) by {
        let s = trimmer::u64_be_bytes(d);
        assert(t[t.len() - 9] == s[0]);
        assert(t[t.len() - 8] == s[1]);
        assert(t[t.len() - 7] == s[2]);
        assert(t[t.len() - 6] == s[3]);
        assert(t[t.len() - 5] == s[4]);
        assert(t[t.len() - 4] == s[5]);
        assert(t[t.len() - 3] == s[6]);
        assert(t[t.len() - 2] == s[7]);
    }
    assert(t.take(t.len() - 9) =~= kept);
}

/// The third space (and so the message start) sits before the newline.
proof fn lemma_third_space_bounds(line: Seq<u8>)
    requires
        trimmer::third_space_end(line) is Some,
    ensures
        0 < trimmer::third_space_end(line)->0 <= scan::first_nl(line),
        scan::first_nl(line) <= line.len(),
{
    scan::lemma_first_occ(line, scan::NL);
    scan::lemma_first_occ(line, 32u8);
    let nl = scan::first_nl(line) as int;
    let s1 = scan::first_occ(line, 32u8) as int;
    scan::lemma_first_occ(line.skip(s1 + 1), 32u8);
    let s2 = s1 + 1 + scan::first_occ(line.skip(s1 + 1), 32u8) as int;
    scan::lemma_first_occ(line.skip(s2 + 1), 32u8);
}

/// A record the emitter does not mark truncated carries exactly the line's
/// message portion, trailing terminators aside (CRI).
pub proof fn lemma_record_matches_extract(line: Seq<u8>)
    requires
        forall|j: int| 0 <= j < 19 && j < line.len() ==> line[j] != 32,
        line.len() > scan::first_occ(line, 32u8) + 10,
        spec_record(line, FileFormat::CRI) is Some,
        !(spec_record(line, FileFormat::CRI)->0).3,
    ensures
        crate::file_format::spec_cri_message(line) is Some,
        (spec_record(line, FileFormat::CRI)->0).1 == trim_end_crlf(
            crate::file_format::spec_cri_message(line)->0,
        ),
{
    let sp = scan::first_occ(line, 32u8) as int;
    scan::lemma_first_occ(line, 32u8);
    assert(sp < line.len());
    assert(sp >= 19) by {
        if sp < 19 {
            assert(line[sp] == 32);
        }
    }
    assert forall|j: int| 0 <= j < sp - 19 implies line.skip(19)[j] != 32 by {
        assert(line.skip(19)[j] == line[19 + j]);
    }
    assert(line.skip(19)[sp - 19] == line[sp]);
    scan::lemma_first_occ_is(line.skip(19), 32u8, sp - 19);
    assert(crate::file_format::cri_message_start(line) == Some(sp + 10));
    let rest = line.skip(sp + 1);
    let msg_raw = rest.skip(9);
    assert(msg_raw =~= line.skip(sp + 10));
    let n = spec_normalize(msg_raw);
    assert(!n.2);
    assert(n.0 == trim_end_crlf(msg_raw));
}

/// The complete (newline-terminated) lines at the front of `s`.
pub open spec fn complete_lines(s: Seq<u8>) -> Seq<Seq<u8>>
    decreases s.len(),
{
    let e = scan::first_nl(s) as int;
    if e >= s.len() {
        Seq::empty()
    } else {
        seq![s.take(e + 1)] + complete_lines(s.skip(e + 1))
    }
}

/// What follows the last newline of `s`.
pub open spec fn line_remainder(s: Seq<u8>) -> Seq<u8>
    decreases s.len(),
{
    let e = scan::first_nl(s) as int;
    if e >= s.len() {
        s
    } else {
        line_remainder(s.skip(e + 1))
    }
}

/// Regroups written bytes into complete lines, handing each full line back
/// as soon as its newline arrives and keeping the partial tail.
pub struct CallbackWriter {
    buffer: Vec<u8>,
}

impl CallbackWriter {
    /// The bytes of the unfinished trailing line.
    pub closed spec fn spec_buffer(self) -> Seq<u8> {
        self.buffer@
    }

    /// Creates a writer with an empty buffer.
    pub fn new() -> (r: Self)
        ensures
            r.spec_buffer() == Seq::<u8>::empty(),
    {
        let r = CallbackWriter { buffer: Vec::new() };
        r
    }

    /// Accepts `buf`, returning every line completed by it, in order; the
    /// bytes after the last newline stay buffered.
    pub fn write(&mut self, buf: &[u8]) -> (lines: Vec<Vec<u8>>)
        ensures
            ({
                let cat = old(self).spec_buffer() + buf@;
                &&& lines@.len() == complete_lines(cat).len()
                &&& forall|i: int|
                    0 <= i < lines@.len() ==> #[trigger] lines@[i]@ == complete_lines(cat)[i]
                &&& final(self).spec_buffer() == line_remainder(cat)
            }),
    {
        let ghost cat = old(self).spec_buffer() + buf@;
        let mut extra = scan::copy_range(buf, 0, buf.len());
        proof {
            assert(extra@ =~= buf@);
        }
        self.buffer.append(&mut extra);
        proof {
            assert(self.buffer@ =~= cat);
        }
        let mut lines: Vec<Vec<u8>> = Vec::new();
        proof {
            assert(complete_lines(cat) =~= complete_lines(cat).take(0) + complete_lines(
                self.buffer@,
            ));
        }
        loop
            invariant
                cat == old(self).spec_buffer() + buf@,
                lines@.len() == complete_lines(cat).len() - complete_lines(self.buffer@).len(),
                complete_lines(self.buffer@).len() <= complete_lines(cat).len(),
                complete_lines(cat) == complete_lines(cat).take(lines@.len() as int)
                    + complete_lines(self.buffer@),
                line_remainder(cat) == line_remainder(self.buffer@),
                forall|i: int|
                    0 <= i < lines@.len() ==> #[trigger] lines@[i]@ == complete_lines(cat)[i],
            decreases self.buffer@.len(),
        {
            let e = scan::find_nl(self.buffer.as_slice(), 0);
            proof {
                assert(self.buffer@.skip(0) =~= self.buffer@);
            }
            if e >= self.buffer.len() {
                proof {
                    assert(complete_lines(self.buffer@).len() == 0);
                    assert(line_remainder(self.buffer@) == self.buffer@);
                    assert(complete_lines(cat) =~= complete_lines(cat).take(
                        lines@.len() as int,
                    ));
                }
                return lines;
            }
            let line = scan::copy_range(self.buffer.as_slice(), 0, e + 1);
            let rest = scan::copy_range(self.buffer.as_slice(), e + 1, self.buffer.len());
            proof {
                assert(line@ =~= self.buffer@.take(e + 1));
                assert(rest@ =~= self.buffer@.skip(e + 1));
                assert(complete_lines(self.buffer@) == seq![self.buffer@.take(e + 1)]
                    + complete_lines(self.buffer@.skip(e + 1)));
                assert(line_remainder(self.buffer@) == line_remainder(self.buffer@.skip(e + 1)));
            }
            let ghost buffer_before = self.buffer@;
            lines.push(line);
            self.buffer = rest;
            proof {
                let n = lines@.len() as int;
                assert((seq![buffer_before.take(e + 1)] + complete_lines(
                    self.buffer@,
                )).skip(1) =~= complete_lines(self.buffer@));
                assert(complete_lines(cat)[n - 1] == complete_lines(buffer_before)[0]);
                assert(complete_lines(cat)[n - 1] == lines@[n - 1]@);
                assert(complete_lines(cat) =~= complete_lines(cat).take(n) + complete_lines(
                    self.buffer@,
                ));
            }
        }
    }

    /// Hands back the unfinished tail, if any, leaving the buffer empty.
    pub fn flush(&mut self) -> (r: Option<Vec<u8>>)
        ensures
            final(self).spec_buffer() == Seq::<u8>::empty(),
            match r {
                Some(tail) => old(self).spec_buffer().len() > 0 && tail@ == old(
                    self,
                ).spec_buffer(),
                None => old(self).spec_buffer().len() == 0,
            },
    {
        if self.buffer.len() == 0 {
            return None;
        }
        let tail = scan::copy_range(self.buffer.as_slice(), 0, self.buffer.len());
        self.buffer = Vec::new();
        proof {
            assert(tail@ =~= old(self).spec_buffer());
        }
        Some(tail)
    }
}

} // verus!
