//! Log-trimmer reader: enforces a per-line byte budget on the message
//! portion of each line, replacing the removed bytes with a recoverable
//! truncation marker.
//!
//! The marker encodes the number of discarded message bytes as an 8-byte
//! big-endian count followed by a sentinel byte.  Inside a Docker-JSON string
//! value each marker byte is rendered as a `\u00XX` escape so the line stays
//! valid JSON.  `trim_line` is the exact model of the per-line transform and
//! `trimmed_output` of the whole stream.

use vstd::prelude::*;

use crate::file_format::FileFormat;
use crate::scan;

verus! {

/// Sentinel byte that closes a truncation marker.
pub const TRUNCATION_SENTINEL: u8 = 0x1F;

/// The eight bytes of `n`, big-endian.
pub open spec fn u64_be_bytes(n: u64) -> Seq<u8> {
    seq![
        ((n >> 56) & 0xFF) as u8,
        ((n >> 48) & 0xFF) as u8,
        ((n >> 40) & 0xFF) as u8,
        ((n >> 32) & 0xFF) as u8,
        ((n >> 24) & 0xFF) as u8,
        ((n >> 16) & 0xFF) as u8,
        ((n >> 8) & 0xFF) as u8,
        (n & 0xFF) as u8,
    ]
}

/// Uppercase hexadecimal digit for a value below 16.
pub open spec fn hex_digit(v: u8) -> u8 {
    if v < 10 {
        (48 + v) as u8
    } else {
        (55 + v) as u8
    }
}

/// `\u00XX` rendering (uppercase hex) of each byte of `bs`, concatenated.
pub open spec fn json_escaped(bs: Seq<u8>) -> Seq<u8>
    decreases bs.len(),
{
    if bs.len() == 0 {
        Seq::empty()
    } else {
        seq![92u8, 117u8, 48u8, 48u8, hex_digit(bs[0] / 16), hex_digit(bs[0] % 16)]
            + json_escaped(bs.skip(1))
    }
}

/// Raw truncation marker: count, sentinel, newline.
pub open spec fn raw_marker(truncated_bytes: u64) -> Seq<u8> {
    u64_be_bytes(truncated_bytes).push(TRUNCATION_SENTINEL).push(scan::NL)
}

/// JSON truncation marker: count and sentinel, each byte escaped.
pub open spec fn json_marker(truncated_bytes: u64) -> Seq<u8> {
    json_escaped(u64_be_bytes(truncated_bytes).push(TRUNCATION_SENTINEL))
}

/// Index just past the third space of a CRI line, when three spaces come
/// before its newline; the message starts there.
pub open spec fn third_space_end(line: Seq<u8>) -> Option<int> {
    let nl = scan::first_nl(line) as int;
    let s1 = scan::first_occ(line, 32u8) as int;
    if s1 >= nl {
        None
    } else {
        let s2 = s1 + 1 + scan::first_occ(line.skip(s1 + 1), 32u8) as int;
        if s2 >= nl {
            None
        } else {
            let s3 = s2 + 1 + scan::first_occ(line.skip(s2 + 1), 32u8) as int;
            if s3 >= nl {
                None
            } else {
                Some(s3 + 1)
            }
        }
    }
}

/// The CRI line transform: when the message (after the third space, before
/// the newline) exceeds `limit`, keep its first `limit` bytes and close the
/// line with a raw marker counting the discarded bytes.  A `limit` of zero
/// disables trimming.
pub open spec fn trim_line_cri(line: Seq<u8>, limit: nat) -> Seq<u8> {
    if limit == 0 {
        line
    } else {
        match third_space_end(line) {
            None => line,
            Some(h) => {
                let nl = scan::first_nl(line) as int;
                let msg_len = nl - h;
                if msg_len <= limit {
                    line
                } else {
                    line.take(h + limit) + raw_marker((msg_len - limit) as u64)
                }
            },
        }
    }
}

/// Number of consecutive backslashes immediately before index `q`.
pub open spec fn backslash_run(line: Seq<u8>, q: int) -> nat
    decreases q,
{
    if q <= 0 || q > line.len() {
        0
    } else if line[q - 1] == 92 {
        1 + backslash_run(line, q - 1)
    } else {
        0
    }
}

/// First unescaped double quote at or after `from`, or `line.len()`.
pub open spec fn find_unescaped_quote(line: Seq<u8>, from: int) -> int
    decreases line.len() - from,
{
    if from < 0 || from >= line.len() {
        line.len() as int
    } else if line[from] == 34 && backslash_run(line, from) % 2 == 0 {
        from
    } else {
        find_unescaped_quote(line, from + 1)
    }
}

/// Length of the `{"log":"` prefix of a Docker-JSON line.
pub open spec fn docker_prefix_len() -> int {
    8
}

/// The Docker-JSON line transform: the message runs from byte 8 to the first
/// unescaped quote; when it exceeds `limit`, keep its first `limit` bytes,
/// insert an escaped marker, and keep the rest of the line.
pub open spec fn trim_line_docker(line: Seq<u8>, limit: nat) -> Seq<u8> {
    if line.len() < docker_prefix_len() {
        line
    } else {
        let msg_end = find_unescaped_quote(line, docker_prefix_len());
        let msg_len = msg_end - docker_prefix_len();
        if limit == 0 || msg_len <= limit {
            line
        } else {
            line.take(docker_prefix_len() + limit) + json_marker((msg_len - limit) as u64)
                + line.skip(msg_end)
        }
    }
}

/// The per-line transform of the trimmer.
pub open spec fn trim_line(line: Seq<u8>, limit: nat, fmt: FileFormat) -> Seq<u8> {
    match fmt {
        FileFormat::CRI => trim_line_cri(line, limit),
        FileFormat::Docker => trim_line_docker(line, limit),
    }
}

/// The whole output of the trimmer: each line of `s` (keeping its
/// terminator) transformed in place.
pub open spec fn trimmed_output(s: Seq<u8>, limit: nat, fmt: FileFormat) -> Seq<u8>
    decreases s.len(),
{
    if s.len() == 0 {
        Seq::empty()
    } else {
        let e = scan::first_nl(s) as int;
        if e < s.len() {
            trim_line(s.take(e + 1), limit, fmt) + trimmed_output(s.skip(e + 1), limit, fmt)
        } else {
            trim_line(s, limit, fmt)
        }
    }
}


/// A budget of zero passes the stream through unchanged.
pub proof fn lemma_trim_disabled(s: Seq<u8>, fmt: FileFormat)
    ensures
        trimmed_output(s, 0, fmt) == s,
    decreases s.len(),
{
    if s.len() == 0 {
        assert(trimmed_output(s, 0, fmt) =~= s);
    } else {
        let e = scan::first_nl(s) as int;
        scan::lemma_first_occ(s, scan::NL);
        if e < s.len() {
            lemma_trim_disabled(s.skip(e + 1), fmt);
            assert(trim_line(s.take(e + 1), 0, fmt) == s.take(e + 1)) by {
                lemma_trim_line_zero(s.take(e + 1), fmt);
            }
            assert(s.take(e + 1) + s.skip(e + 1) =~= s);
        } else {
            lemma_trim_line_zero(s, fmt);
        }
    }
}

/// A budget of zero passes every line through unchanged.
proof fn lemma_trim_line_zero(line: Seq<u8>, fmt: FileFormat)
    ensures
        trim_line(line, 0, fmt) == line,
{
}

/// Appends the eight big-endian bytes of `n`.
fn push_be_bytes(out: &mut Vec<u8>, n: u64)
    ensures
        final(out)@ == old(out)@ + u64_be_bytes(n),
{
    out.push(((n >> 56) & 0xFF) as u8);
    out.push(((n >> 48) & 0xFF) as u8);
    out.push(((n >> 40) & 0xFF) as u8);
    out.push(((n >> 32) & 0xFF) as u8);
    out.push(((n >> 24) & 0xFF) as u8);
    out.push(((n >> 16) & 0xFF) as u8);
    out.push(((n >> 8) & 0xFF) as u8);
    out.push((n & 0xFF) as u8);
    proof {
        assert(out@ =~= old(out)@ + u64_be_bytes(n));
    }
}

/// Uppercase hexadecimal digit of a value below 16.
fn hex_digit_byte(v: u8) -> (r: u8)
    requires
        v < 16,
    ensures
        r == hex_digit(v),
{
    if v < 10 {
        48 + v
    } else {
        55 + v
    }
}

/// Reads a byte range in line-sized steps and trims each line's message to a
/// byte budget.
pub struct LogTrimmerReader {
    input: Vec<u8>,
    pos: usize,
    format: FileFormat,
    truncate_at_bytes: usize,
    internal_buf: Vec<u8>,
    buf_pos: usize,
}

impl LogTrimmerReader {
    /// Appends the raw truncation marker for `truncated_bytes` discarded
    /// bytes: count, sentinel, newline.
    pub fn append_truncation_marker_raw(out: &mut Vec<u8>, truncated_bytes: u64)
        ensures
            final(out)@ == old(out)@ + raw_marker(truncated_bytes),
    {
        push_be_bytes(out, truncated_bytes);
        out.push(TRUNCATION_SENTINEL);
        out.push(scan::NL);
        proof {
            assert(out@ =~= old(out)@ + raw_marker(truncated_bytes));
        }
    }

    /// Appends the JSON truncation marker: count and sentinel, each byte
    /// rendered as a `\u00XX` escape.
    pub fn append_truncation_marker_json(out: &mut Vec<u8>, truncated_bytes: u64)
        ensures
            final(out)@ == old(out)@ + json_marker(truncated_bytes),
    {
        let mut marker: Vec<u8> = Vec::new();
        push_be_bytes(&mut marker, truncated_bytes);
        marker.push(TRUNCATION_SENTINEL);
        proof {
            assert(marker@ =~= u64_be_bytes(truncated_bytes).push(TRUNCATION_SENTINEL));
        }
        let mut i: usize = 0;
        while i < marker.len()
            invariant
                0 <= i <= marker@.len(),
                marker@ == u64_be_bytes(truncated_bytes).push(TRUNCATION_SENTINEL),
                out@ == old(out)@ + json_escaped(marker@).take(6 * i as int),
            decreases marker@.len() - i,
        {
            let b = marker[i];
            proof {
                lemma_json_escaped_at(marker@, i as int);
            }
            out.push(92);
            out.push(117);
            out.push(48);
            out.push(48);
            out.push(hex_digit_byte(b / 16));
            out.push(hex_digit_byte(b % 16));
            proof {
                assert(out@ =~= old(out)@ + json_escaped(marker@).take(6 * (i + 1)));
            }
            i = i + 1;
        }
        proof {
            lemma_json_escaped_len(marker@);
            assert(json_escaped(marker@).take(6 * marker@.len() as int) =~= json_escaped(
                marker@,
            ));
        }
    }

    /// Sizing hint for the line buffer: room for the budget plus a header,
    /// never below the base buffer size.
    pub fn buffer_capacity(truncate_at_bytes: usize) -> (r: usize)
        ensures
            r >= 32768,
            truncate_at_bytes + 256 <= usize::MAX ==> r >= truncate_at_bytes + 256,
    {
        let base: usize = 32 * 1024;
        let target = if truncate_at_bytes <= usize::MAX - 256 {
            truncate_at_bytes + 256
        } else {
            usize::MAX
        };
        if target > base {
            target
        } else {
            base
        }
    }

    /// The format the trimmer was created with.
    pub closed spec fn spec_format(self) -> FileFormat {
        self.format
    }

    /// The bytes still to be produced: what sits unread in the line buffer,
    /// then the transform of the unconsumed input.
    pub closed spec fn pending(self) -> Seq<u8> {
        self.internal_buf@.skip(self.buf_pos as int) + trimmed_output(
            self.input@.skip(self.pos as int),
            self.truncate_at_bytes as nat,
            self.format,
        )
    }

    /// Cursors sit inside their buffers.
    pub closed spec fn wf(self) -> bool {
        self.pos <= self.input@.len() && self.buf_pos <= self.internal_buf@.len()
    }

    /// No byte sits unread in the line buffer.
    pub closed spec fn buffer_spent(self) -> bool {
        self.buf_pos >= self.internal_buf@.len()
    }

    /// Creates a trimmer over `input`.  The `format` decides where each
    /// line's message starts; a `truncate_at_bytes` of zero disables
    /// trimming.
    pub fn new(input: Vec<u8>, format: FileFormat, truncate_at_bytes: usize) -> (r: Self)
        ensures
            r.wf(),
            r.buffer_spent(),
            r.pending() == trimmed_output(input@, truncate_at_bytes as nat, format),
    {
        let cap = Self::buffer_capacity(truncate_at_bytes);
        let r = LogTrimmerReader {
            input,
            pos: 0,
            format,
            truncate_at_bytes,
            internal_buf: Vec::with_capacity(cap),
            buf_pos: 0,
        };
        proof {
            assert(r.input@.skip(0) =~= r.input@);
            assert(r.internal_buf@.skip(0) =~= Seq::<u8>::empty());
            assert(r.pending() =~= trimmed_output(
                r.input@,
                truncate_at_bytes as nat,
                format,
            ));
        }
        r
    }

    /// Loads the next line, transformed, into the line buffer.  Returns
    /// whether anything is left to read.  The remaining stream is unchanged.
    pub fn refill_buffer(&mut self) -> (has: bool)
        requires
            old(self).wf(),
            old(self).buffer_spent(),
        ensures
            final(self).wf(),
            final(self).pending() == old(self).pending(),
            has == (final(self).pending().len() > 0),
            has ==> !final(self).buffer_spent(),
            (has == false) ==> final(self).buffer_spent(),
    {
        match self.format {
            FileFormat::CRI => self.refill_buffer_cri(),
            FileFormat::Docker => self.refill_buffer_docker(),
        }
    }

    /// CRI refill: pass the line through whole unless three spaces come
    /// before its newline and the message after them exceeds the budget.
    pub fn refill_buffer_cri(&mut self) -> (has: bool)
        requires
            old(self).wf(),
            old(self).buffer_spent(),
            old(self).spec_format() == FileFormat::CRI,
        ensures
            final(self).wf(),
            final(self).spec_format() == old(self).spec_format(),
            final(self).pending() == old(self).pending(),
            has == (final(self).pending().len() > 0),
            has ==> !final(self).buffer_spent(),
            (has == false) ==> final(self).buffer_spent(),
    {
        self.internal_buf.clear();
        self.buf_pos = 0;
        let start = self.pos;
        let len = self.input.len();
        let ghost tail = self.input@.skip(start as int);
        if start >= len {
            proof {
                assert(tail.len() == 0);
                assert(self.pending() =~= Seq::<u8>::empty());
                assert(old(self).pending() =~= Seq::<u8>::empty());
            }
            return false;
        }
        let nl = scan::find_nl(self.input.as_slice(), start);
        let line_end: usize = if nl < len {
            nl + 1
        } else {
            len
        };
        let line = scan::copy_range(self.input.as_slice(), start, line_end);
        proof {
            lemma_line_split(self.input@, start as int, nl as int, line_end as int);
            assert(line@ == tail.take(line_end - start));
        }
        let trimmed = trim_cri_line(&line, self.truncate_at_bytes);
        self.internal_buf = trimmed;
        self.pos = line_end;
        proof {
            lemma_trimmed_output_step(
                tail,
                line_end - start,
                self.truncate_at_bytes as nat,
                FileFormat::CRI,
            );
            assert(self.internal_buf@.skip(0) =~= self.internal_buf@);
            assert(self.input@.skip(line_end as int) =~= tail.skip(line_end - start));
            assert(self.pending() =~= old(self).pending());
            lemma_trim_line_nonempty(
                tail.take(line_end - start),
                self.truncate_at_bytes as nat,
                FileFormat::CRI,
            );
        }
        true
    }

    /// Docker refill: pass the line through whole unless the string value
    /// that starts at byte 8 exceeds the budget.
    pub fn refill_buffer_docker(&mut self) -> (has: bool)
        requires
            old(self).wf(),
            old(self).buffer_spent(),
            old(self).spec_format() == FileFormat::Docker,
        ensures
            final(self).wf(),
            final(self).spec_format() == old(self).spec_format(),
            final(self).pending() == old(self).pending(),
            has == (final(self).pending().len() > 0),
            has ==> !final(self).buffer_spent(),
            (has == false) ==> final(self).buffer_spent(),
    {
        self.internal_buf.clear();
        self.buf_pos = 0;
        let start = self.pos;
        let len = self.input.len();
        let ghost tail = self.input@.skip(start as int);
        if start >= len {
            proof {
                assert(tail.len() == 0);
                assert(self.pending() =~= Seq::<u8>::empty());
                assert(old(self).pending() =~= Seq::<u8>::empty());
            }
            return false;
        }
        let nl = scan::find_nl(self.input.as_slice(), start);
        let line_end: usize = if nl < len {
            nl + 1
        } else {
            len
        };
        let line = scan::copy_range(self.input.as_slice(), start, line_end);
        proof {
            lemma_line_split(self.input@, start as int, nl as int, line_end as int);
            assert(line@ == tail.take(line_end - start));
        }
        let trimmed = trim_docker_line(&line, self.truncate_at_bytes);
        self.internal_buf = trimmed;
        self.pos = line_end;
        proof {
            lemma_trimmed_output_step(
                tail,
                line_end - start,
                self.truncate_at_bytes as nat,
                FileFormat::Docker,
            );
            assert(self.internal_buf@.skip(0) =~= self.internal_buf@);
            assert(self.input@.skip(line_end as int) =~= tail.skip(line_end - start));
            assert(self.pending() =~= old(self).pending());
            lemma_trim_line_nonempty(
                tail.take(line_end - start),
                self.truncate_at_bytes as nat,
                FileFormat::Docker,
            );
        }
        true
    }

    /// Serves up to `max` bytes of the transformed stream, refilling the
    /// line buffer as needed.  An empty result means the stream is done.
    pub fn read(&mut self, max: usize) -> (r: Vec<u8>)
        requires
            old(self).wf(),
        ensures
            final(self).wf(),
            r@.len() <= max,
            r@.len() <= old(self).pending().len(),
            r@ == old(self).pending().take(r@.len() as int),
            final(self).pending() == old(self).pending().skip(r@.len() as int),
            max > 0 && old(self).pending().len() > 0 ==> r@.len() > 0,
    {
        while self.buf_pos >= self.internal_buf.len()
            invariant
                self.wf(),
                self.pending() == old(self).pending(),
            decreases self.pending().len() + if self.buffer_spent() {
                1int
            } else {
                0int
            },
        {
            let more = self.refill_buffer();
            if more == false {
                proof {
                    assert(old(self).pending().take(0) =~= Seq::<u8>::empty());
                    assert(old(self).pending().skip(0) =~= old(self).pending());
                }
                return Vec::new();
            }
        }
        let avail = self.internal_buf.len() - self.buf_pos;
        let take = if avail < max {
            avail
        } else {
            max
        };
        let r = scan::copy_range(self.internal_buf.as_slice(), self.buf_pos, self.buf_pos + take);
        self.buf_pos = self.buf_pos + take;
        proof {
            assert(r@ =~= old(self).pending().take(take as int));
            assert(self.pending() =~= old(self).pending().skip(take as int));
        }
        r
    }

    /// Reads the whole transformed stream.
    pub fn read_to_end(&mut self) -> (r: Vec<u8>)
        requires
            old(self).wf(),
        ensures
            final(self).wf(),
            r@ == old(self).pending(),
            final(self).pending().len() == 0,
    {
        let mut out: Vec<u8> = Vec::new();
        proof {
            assert(old(self).pending().take(0) =~= Seq::<u8>::empty());
        }
        loop
            invariant
                self.wf(),
                out@.len() <= old(self).pending().len(),
                out@ == old(self).pending().take(out@.len() as int),
                self.pending() == old(self).pending().skip(out@.len() as int),
            decreases old(self).pending().len() - out@.len(),
        {
            let mut chunk = self.read(4096);
            if chunk.len() == 0 {
                proof {
                    assert(out@ =~= old(self).pending());
                }
                return out;
            }
            let ghost out_before = out@;
            out.append(&mut chunk);
            proof {
                assert(out@ =~= old(self).pending().take(out@.len() as int));
            }
        }
    }
}

/// Copies a line unchanged.
fn copy_line(line: &Vec<u8>) -> (r: Vec<u8>)
    ensures
        r@ == line@,
{
    let r = scan::copy_range(line.as_slice(), 0, line.len());
    proof {
        assert(r@ =~= line@);
    }
    r
}

/// Transforms one CRI line (terminator included), per `trim_line_cri`.
fn trim_cri_line(line: &Vec<u8>, limit: usize) -> (r: Vec<u8>)
    ensures
        r@ == trim_line_cri(line@, limit as nat),
{
    if limit == 0 {
        return copy_line(line);
    }
    let nl = scan::find_nl(line.as_slice(), 0);
    proof {
        assert(line@.skip(0) =~= line@);
    }
    let s1 = scan::find_byte(line.as_slice(), 0, 32);
    if s1 >= nl {
        return copy_line(line);
    }
    let s2 = scan::find_byte(line.as_slice(), s1 + 1, 32);
    if s2 >= nl {
        return copy_line(line);
    }
    let s3 = scan::find_byte(line.as_slice(), s2 + 1, 32);
    if s3 >= nl {
        return copy_line(line);
    }
    let h = s3 + 1;
    let msg_len = nl - h;
    if msg_len <= limit {
        return copy_line(line);
    }
    let mut out = scan::copy_range(line.as_slice(), 0, h + limit);
    LogTrimmerReader::append_truncation_marker_raw(&mut out, (msg_len - limit) as u64);
    proof {
        assert(line@.subrange(0, h + limit) =~= line@.take(h + limit as int));
    }
    out
}

/// Transforms one Docker-JSON line (terminator included), per
/// `trim_line_docker`.
fn trim_docker_line(line: &Vec<u8>, limit: usize) -> (r: Vec<u8>)
    ensures
        r@ == trim_line_docker(line@, limit as nat),
{
    if line.len() < 8 {
        return copy_line(line);
    }
    let msg_end = find_quote(line.as_slice(), 8);
    let msg_len = msg_end - 8;
    if limit == 0 || msg_len <= limit {
        return copy_line(line);
    }
    let mut out = scan::copy_range(line.as_slice(), 0, 8 + limit);
    LogTrimmerReader::append_truncation_marker_json(&mut out, (msg_len - limit) as u64);
    let rest = scan::copy_range(line.as_slice(), msg_end, line.len());
    let mut rest = rest;
    out.append(&mut rest);
    proof {
        assert(line@.subrange(0, 8 + limit as int) =~= line@.take(8 + limit as int));
        assert(line@.subrange(msg_end as int, line@.len() as int) =~= line@.skip(msg_end as int));
        assert(out@ =~= line@.take(8 + limit as int) + json_marker((msg_len - limit) as u64)
            + line@.skip(msg_end as int));
    }
    out
}

/// Finds the first unescaped quote at or after `from`.
fn find_quote(line: &[u8], from: usize) -> (r: usize)
    requires
        from <= line.len(),
    ensures
        from <= r <= line.len(),
        r == find_unescaped_quote(line@, from as int),
{
    let mut i: usize = from;
    while i < line.len()
        invariant
            from <= i <= line.len(),
            find_unescaped_quote(line@, from as int) == find_unescaped_quote(line@, i as int),
        decreases line.len() - i,
    {
        if line[i] == 34 {
            let run = backslash_run_at(line, i);
            if run % 2 == 0 {
                return i;
            }
        }
        i = i + 1;
    }
    i
}

/// Counts the consecutive backslashes just before index `q`.
fn backslash_run_at(line: &[u8], q: usize) -> (r: usize)
    requires
        q <= line.len(),
    ensures
        r == backslash_run(line@, q as int),
{
    let mut cursor = q;
    let mut count: usize = 0;
    while cursor > 0 && line[cursor - 1] == 92
        invariant
            0 <= cursor <= q <= line.len(),
            count == q - cursor,
            backslash_run(line@, q as int) == count + backslash_run(line@, cursor as int),
        decreases cursor,
    {
        cursor = cursor - 1;
        count = count + 1;
    }
    count
}

/// `json_escaped` laid out element by element.
proof fn lemma_json_escaped_len(bs: Seq<u8>)
    ensures
        json_escaped(bs).len() == 6 * bs.len(),
    decreases bs.len(),
{
    if bs.len() > 0 {
        lemma_json_escaped_len(bs.skip(1));
    }
}

/// The six escape bytes of element `i` sit at offset `6 * i`.
proof fn lemma_json_escaped_at(bs: Seq<u8>, i: int)
    requires
        0 <= i < bs.len(),
    ensures
        json_escaped(bs).take(6 * (i + 1)) == json_escaped(bs).take(6 * i) + seq![
            92u8,
            117u8,
            48u8,
            48u8,
            hex_digit(bs[i] / 16),
            hex_digit(bs[i] % 16),
        ],
    decreases i,
{
    lemma_json_escaped_len(bs);
    if i == 0 {
        lemma_json_escaped_len(bs.skip(1));
        assert(json_escaped(bs).take(0) =~= Seq::<u8>::empty());
        assert(json_escaped(bs).take(6) =~= seq![
            92u8,
            117u8,
            48u8,
            48u8,
            hex_digit(bs[0] / 16),
            hex_digit(bs[0] % 16),
        ]);
    } else {
        lemma_json_escaped_at(bs.skip(1), i - 1);
        lemma_json_escaped_len(bs.skip(1));
        assert(bs.skip(1)[i - 1] == bs[i]);
        let six0 = seq![92u8, 117u8, 48u8, 48u8, hex_digit(bs[0] / 16), hex_digit(bs[0] % 16)];
        let jt = json_escaped(bs.skip(1));
        assert(json_escaped(bs) == six0 + jt);
        assert((six0 + jt).take(6 * (i + 1)) =~= six0 + jt.take(6 * i));
        assert((six0 + jt).take(6 * i) =~= six0 + jt.take(6 * i - 6));
        assert(jt.take(6 * ((i - 1) + 1)) == jt.take(6 * (i - 1)) + seq![
            92u8,
            117u8,
            48u8,
            48u8,
            hex_digit(bs.skip(1)[i - 1] / 16),
            hex_digit(bs.skip(1)[i - 1] % 16),
        ]);
        assert(json_escaped(bs).take(6 * (i + 1)) =~= json_escaped(bs).take(6 * i) + seq![
            92u8,
            117u8,
            48u8,
            48u8,
            hex_digit(bs[i] / 16),
            hex_digit(bs[i] % 16),
        ]);
    }
}

/// The first line of `s` spans `s.take(k)`; `trimmed_output` starts with its
/// transform.
proof fn lemma_trimmed_output_step(s: Seq<u8>, k: int, limit: nat, fmt: FileFormat)
    requires
        s.len() > 0,
        0 < k <= s.len(),
        k == if scan::first_nl(s) < s.len() {
            scan::first_nl(s) + 1
        } else {
            s.len()
        },
    ensures
        trimmed_output(s, limit, fmt) == trim_line(s.take(k), limit, fmt) + trimmed_output(
            s.skip(k),
            limit,
            fmt,
        ),
{
    let e = scan::first_nl(s) as int;
    if e < s.len() {
        assert(k == e + 1);
    } else {
        assert(k == s.len());
        assert(s.take(k) =~= s);
        assert(s.skip(k) =~= Seq::<u8>::empty());
        assert(trimmed_output(s.skip(k), limit, fmt) =~= Seq::<u8>::empty());
        assert(trim_line(s, limit, fmt) + trimmed_output(s.skip(k), limit, fmt) =~= trim_line(
            s,
            limit,
            fmt,
        ));
    }
}

/// Relating a line cut out of `data` to the tail it came from.
proof fn lemma_line_split(data: Seq<u8>, start: int, nl: int, line_end: int)
    requires
        0 <= start < data.len(),
        start <= nl <= data.len(),
        nl < data.len() ==> data[nl] == scan::NL && line_end == nl + 1,
        nl == data.len() ==> line_end == data.len(),
        nl - start == scan::first_nl(data.skip(start)),
        forall|j: int| start <= j < nl ==> data[j] != scan::NL,
    ensures
        data.subrange(start, line_end) == data.skip(start).take(line_end - start),
        line_end - start == if scan::first_nl(data.skip(start)) < data.skip(start).len() {
            scan::first_nl(data.skip(start)) + 1
        } else {
            data.skip(start).len()
        },
        line_end - start > 0,
{
    assert(data.subrange(start, line_end) =~= data.skip(start).take(line_end - start));
}

/// A line is never empty, and its transform is not either.
proof fn lemma_trim_line_nonempty(line: Seq<u8>, limit: nat, fmt: FileFormat)
    requires
        line.len() > 0,
    ensures
        trim_line(line, limit, fmt).len() > 0,
{
    match fmt {
        FileFormat::CRI => {},
        FileFormat::Docker => {
            if line.len() >= docker_prefix_len() {
                let msg_end = find_unescaped_quote(line, docker_prefix_len());
                let msg_len = msg_end - docker_prefix_len();
                if limit != 0 && msg_len > limit {
                    lemma_json_escaped_len(
                        u64_be_bytes((msg_len - limit) as u64).push(TRUNCATION_SENTINEL),
                    );
                }
            }
        },
    }
}

} // verus!
