//! Forward record streaming: seek by timestamp, scan line by line, match,
//! and emit records in file order.
//!
//! The core computes over in-memory file bytes; opening the file, watching
//! it for growth, and delivering records over a channel happen outside.  The
//! outcome says whether the caller should go on tailing the file.

use vstd::prelude::*;

use crate::file_format::FileFormat;
use crate::matcher;
use crate::matcher::LogFileRegexMatcher;
use crate::offset;
use crate::scan;
use crate::trimmer;
use crate::writer;
use crate::writer::LogRecord;

verus! {

/// Where the forward streamer starts and whether it tails: `Noop` never
/// tails, `Default` tails after draining from the computed start, `End`
/// skips history and tails from the current end of file.
#[derive(Debug, Clone, Copy, PartialEq, Eq, Structural)]
pub enum FollowFrom {
    Noop,
    Default,
    End,
}

/// Lifecycle notice of the forward streamer: the follow phase has begun and
/// the file watcher is in place.  The event loop outside announces it so a
/// caller can time writes against the tail.
#[derive(Debug, Clone, Copy, PartialEq, Eq, Structural)]
pub enum LifecycleEvent {
    WatcherStarted,
}

/// The lines of `s` in file order, terminators kept; a trailing fragment
/// without a newline counts as the last line.
pub open spec fn lines_of(s: Seq<u8>) -> Seq<Seq<u8>>
    decreases s.len(),
{
    if s.len() == 0 {
        Seq::empty()
    } else {
        let e = scan::first_nl(s) as int;
        if e < s.len() {
            seq![s.take(e + 1)] + lines_of(s.skip(e + 1))
        } else {
            seq![s]
        }
    }
}

/// Whether a line passes the query: no query admits every line; a query
/// must match the line's message portion.
pub open spec fn line_passes(pattern: Option<Seq<u8>>, line: Seq<u8>, fmt: FileFormat) -> bool {
    match pattern {
        None => true,
        Some(p) => matcher::spec_line_matches(p, line, fmt),
    }
}

/// The record a single line contributes, if it passes and parses.
pub open spec fn emit_one(line: Seq<u8>, pattern: Option<Seq<u8>>, fmt: FileFormat) -> Seq<
    (Option<i64>, Seq<u8>, u64, bool),
> {
    if line_passes(pattern, line, fmt) {
        match writer::spec_record(line, fmt) {
            Some(r) => seq![r],
            None => Seq::empty(),
        }
    } else {
        Seq::empty()
    }
}

/// The records that a sequence of lines yields, in order.
pub open spec fn spec_emitted(
    lines: Seq<Seq<u8>>,
    pattern: Option<Seq<u8>>,
    fmt: FileFormat,
) -> Seq<(Option<i64>, Seq<u8>, u64, bool)>
    decreases lines.len(),
{
    if lines.len() == 0 {
        Seq::empty()
    } else {
        emit_one(lines[0], pattern, fmt) + spec_emitted(lines.skip(1), pattern, fmt)
    }
}

/// Appending a line appends its contribution.
pub proof fn lemma_spec_emitted_push(
    lines: Seq<Seq<u8>>,
    x: Seq<u8>,
    pattern: Option<Seq<u8>>,
    fmt: FileFormat,
)
    ensures
        spec_emitted(lines.push(x), pattern, fmt) == spec_emitted(lines, pattern, fmt) + emit_one(
            x,
            pattern,
            fmt,
        ),
    decreases lines.len(),
{
    if lines.len() == 0 {
        assert(lines.push(x)[0] == x);
        assert(lines.push(x).skip(1) =~= Seq::<Seq<u8>>::empty());
        assert(spec_emitted(Seq::<Seq<u8>>::empty(), pattern, fmt).len() == 0);
        assert(spec_emitted(lines.push(x), pattern, fmt) == emit_one(x, pattern, fmt)
            + spec_emitted(Seq::<Seq<u8>>::empty(), pattern, fmt));
        assert(spec_emitted(lines.push(x), pattern, fmt) =~= spec_emitted(lines, pattern, fmt)
            + emit_one(x, pattern, fmt));
    } else {
        assert(lines.push(x).skip(1) =~= lines.skip(1).push(x));
        lemma_spec_emitted_push(lines.skip(1), x, pattern, fmt);
        assert(lines.push(x)[0] == lines[0]);
        assert(spec_emitted(lines.push(x), pattern, fmt) =~= spec_emitted(lines, pattern, fmt)
            + emit_one(x, pattern, fmt));
    }
}

/// The compiled query of a request: the grep text trimmed of surrounding
/// whitespace and widened for ANSI codes; nothing when it is empty or
/// whitespace only.
pub open spec fn spec_query_pattern(grep: Option<Seq<u8>>) -> Option<Seq<u8>> {
    match grep {
        None => None,
        Some(g) => {
            let t = scan::trim_start_ws(scan::trim_end_ws(g));
            if t.len() == 0 {
                None
            } else {
                Some(matcher::ansi_tolerant_pattern(t))
            }
        },
    }
}

/// Records and tail decision of the forward streamer, per the request.
pub open spec fn spec_forward(
    data: Seq<u8>,
    fmt: FileFormat,
    start_time: Option<i64>,
    stop_time: Option<i64>,
    grep: Option<Seq<u8>>,
    follow_from: FollowFrom,
    limit: nat,
) -> (Seq<(Option<i64>, Seq<u8>, u64, bool)>, bool) {
    let max = data.len() as int;
    let start_opt: Option<int> = if follow_from is End {
        Some(max)
    } else {
        match start_time {
            Some(t) => match offset::spec_since(data, t, 0, max, fmt) {
                Some(p) => Some(p.0),
                None => None,
            },
            None => Some(0),
        }
    };
    match start_opt {
        None => (Seq::empty(), false),
        Some(start) => {
            if !(follow_from is End) && stop_time is Some {
                match offset::spec_until(data, stop_time->0, start, max, fmt) {
                    Some(p) => {
                        let region = data.subrange(start, p.0 + p.1);
                        (
                            spec_emitted(
                                lines_of(trimmed_region(region, limit, fmt)),
                                spec_query_pattern(grep),
                                fmt,
                            ),
                            false,
                        )
                    },
                    None => (Seq::empty(), false),
                }
            } else {
                let region = data.subrange(start, max);
                (
                    spec_emitted(
                        lines_of(trimmed_region(region, limit, fmt)),
                        spec_query_pattern(grep),
                        fmt,
                    ),
                    !(follow_from is Noop),
                )
            }
        },
    }
}

/// The region after the trimmer ran over it.
pub open spec fn trimmed_region(region: Seq<u8>, limit: nat, fmt: FileFormat) -> Seq<u8> {
    trimmer::trimmed_output(region, limit, fmt)
}

/// Tests one line against the optional matcher and parses it into a record.
/// This is also the step the tail loop runs on each newly read line.
pub fn match_and_record(
    line: &[u8],
    query: &Option<LogFileRegexMatcher>,
    fmt: FileFormat,
) -> (r: Option<LogRecord>)
    requires
        match query {
            Some(m) => m.spec_format() == fmt,
            None => true,
        },
    ensures
        ({
            let pattern = match query {
                Some(m) => Some(m.spec_pattern()),
                None => None,
            };
            match r {
                Some(rec) => emit_one(line@, pattern, fmt) == seq![
                    (rec.timestamp, rec.message@, rec.original_size_bytes, rec.is_truncated),
                ],
                None => emit_one(line@, pattern, fmt) == Seq::<
                    (Option<i64>, Seq<u8>, u64, bool),
                >::empty(),
            }
        }),
{
    let passes = match query {
        Some(m) => m.matches_line(line),
        None => true,
    };
    if !passes {
        return None;
    }
    writer::record_from_line(line, fmt)
}

/// Runs the matcher over every line of `trimmed`, collecting records.
pub fn emit_lines(trimmed: &Vec<u8>, query: &Option<LogFileRegexMatcher>, fmt: FileFormat) -> (r:
    Vec<LogRecord>)
    requires
        match query {
            Some(m) => m.spec_format() == fmt,
            None => true,
        },
    ensures
        ({
            let pattern = match query {
                Some(m) => Some(m.spec_pattern()),
                None => None,
            };
            let s = spec_emitted(lines_of(trimmed@), pattern, fmt);
            &&& r@.len() == s.len()
            &&& forall|i: int|
                0 <= i < r@.len() ==> s[i] == (
                #[trigger] r@[i].timestamp,
                r@[i].message@,
                r@[i].original_size_bytes,
                r@[i].is_truncated,
                )
        }),
{
    let ghost pattern = match query {
        Some(m) => Some(m.spec_pattern()),
        None => None,
    };
    let mut out: Vec<LogRecord> = Vec::new();
    let mut pos: usize = 0;
    proof {
        assert(trimmed@.skip(0) =~= trimmed@);
    }
    while pos < trimmed.len()
        invariant
            pos <= trimmed@.len(),
            match query {
                Some(m) => m.spec_format() == fmt && pattern == Some(m.spec_pattern()),
                None => pattern is None,
            },
            spec_emitted(lines_of(trimmed@), pattern, fmt) == ({
                let done = out@.map_values(
                    |rec: LogRecord|
                        (rec.timestamp, rec.message@, rec.original_size_bytes, rec.is_truncated),
                );
                done + spec_emitted(lines_of(trimmed@.skip(pos as int)), pattern, fmt)
            }),
        decreases trimmed@.len() - pos,
    {
        let ghost rest = trimmed@.skip(pos as int);
        let e = scan::find_nl(trimmed.as_slice(), pos);
        let line_end: usize = if e < trimmed.len() {
            e + 1
        } else {
            trimmed.len()
        };
        let line = scan::copy_range(trimmed.as_slice(), pos, line_end);
        proof {
            assert(line@ =~= rest.take(line_end - pos));
            if e < trimmed@.len() {
                assert(lines_of(rest) == seq![rest.take(e + 1 - pos)] + lines_of(
                    rest.skip(e + 1 - pos),
                ));
                assert(lines_of(rest)[0] == line@);
                assert((seq![rest.take(e + 1 - pos)] + lines_of(rest.skip(e + 1 - pos))).skip(1)
                    =~= lines_of(rest.skip(e + 1 - pos)));
            } else {
                assert(rest.take(line_end - pos) =~= rest);
                assert(lines_of(rest) == seq![rest]);
                assert(seq![rest].skip(1) =~= Seq::<Seq<u8>>::empty());
            }
        }
        match match_and_record(line.as_slice(), query, fmt) {
            Some(rec) => {
                out.push(rec);
            },
            None => {},
        }
        proof {
            let done = out@.map_values(
                |rec: LogRecord|
                    (rec.timestamp, rec.message@, rec.original_size_bytes, rec.is_truncated),
            );
            assert(trimmed@.skip(line_end as int) =~= rest.skip(line_end - pos));
            assert(spec_emitted(lines_of(rest), pattern, fmt) == emit_one(line@, pattern, fmt)
                + spec_emitted(lines_of(rest.skip(line_end - pos)), pattern, fmt));
            assert(spec_emitted(lines_of(trimmed@), pattern, fmt) =~= done + spec_emitted(
                lines_of(trimmed@.skip(line_end as int)),
                pattern,
                fmt,
            ));
        }
        pos = line_end;
    }
    proof {
        assert(lines_of(trimmed@.skip(trimmed@.len() as int)).len() == 0);
        let done = out@.map_values(
            |rec: LogRecord|
                (rec.timestamp, rec.message@, rec.original_size_bytes, rec.is_truncated),
        );
        assert(spec_emitted(lines_of(trimmed@), pattern, fmt) =~= done);
    }
    out
}

/// Builds the matcher for a request's grep text, or nothing when the text
/// is empty or whitespace.
pub fn build_query(grep: Option<&[u8]>, fmt: FileFormat) -> (r: Option<LogFileRegexMatcher>)
    ensures
        ({
            let g = match grep {
                Some(s) => Some(s@),
                None => None,
            };
            match r {
                Some(m) => spec_query_pattern(g) == Some(m.spec_pattern()) && m.spec_format()
                    == fmt,
                None => spec_query_pattern(g) is None,
            }
        }),
{
    match grep {
        None => None,
        Some(g) => {
            let t = scan::trim_ws_both(g);
            if t.len() == 0 {
                None
            } else {
                Some(LogFileRegexMatcher::new_unchecked(t.as_slice(), fmt))
            }
        },
    }
}

/// What the forward streamer produced, and whether the caller should keep
/// tailing the file for new lines.
pub struct ForwardOutcome {
    pub records: Vec<LogRecord>,
    pub tail: bool,
}

/// Streams records forward over `data`: picks the start by `start_time` (or
/// the end of file for `FollowFrom::End`), bounds the scan by `stop_time`,
/// trims each line to `truncate_at_bytes`, and emits every line that passes
/// the grep query.  `tail` says whether a follow phase comes next.
pub fn stream_forward(
    data: &Vec<u8>,
    fmt: FileFormat,
    start_time: Option<i64>,
    stop_time: Option<i64>,
    grep: Option<&[u8]>,
    follow_from: FollowFrom,
    truncate_at_bytes: usize,
) -> (r: ForwardOutcome)
    ensures
        ({
            let g = match grep {
                Some(s) => Some(s@),
                None => None,
            };
            let s = spec_forward(
                data@,
                fmt,
                start_time,
                stop_time,
                g,
                follow_from,
                truncate_at_bytes as nat,
            );
            &&& r.records@.len() == s.0.len()
            &&& forall|i: int|
                0 <= i < r.records@.len() ==> s.0[i] == (
                #[trigger] r.records@[i].timestamp,
                r.records@[i].message@,
                r.records@[i].original_size_bytes,
                r.records@[i].is_truncated,
                )
            &&& r.tail == s.1
        }),
{
    let max = data.len();
    let is_end = match follow_from {
        FollowFrom::End => true,
        _ => false,
    };
    let start: usize = if is_end {
        max
    } else {
        match start_time {
            Some(t) => {
                proof {
                    offset::lemma_spec_since_bounds(data@, t, 0, max as int, fmt);
                }
                match offset::find_nearest_offset_since(data.as_slice(), t, 0, max as u64, fmt) {
                    Some(o) => o.byte_offset as usize,
                    None => {
                        return ForwardOutcome { records: Vec::new(), tail: false };
                    },
                }
            },
            None => 0,
        }
    };
    let mut region_end: usize = max;
    let mut bounded = false;
    if !is_end {
        match stop_time {
            Some(t) => {
                proof {
                    offset::lemma_spec_until_bounds(data@, t, start as int, max as int, fmt);
                }
                match offset::find_nearest_offset_until(
                    data.as_slice(),
                    t,
                    start as u64,
                    max as u64,
                    fmt,
                ) {
                    Some(o) => {
                        region_end = (o.byte_offset + o.line_length) as usize;
                        bounded = true;
                    },
                    None => {
                        return ForwardOutcome { records: Vec::new(), tail: false };
                    },
                }
            },
            None => {},
        }
    }
    let region = scan::copy_range(data.as_slice(), start, region_end);
    let mut tr = trimmer::LogTrimmerReader::new(region, fmt, truncate_at_bytes);
    let trimmed = tr.read_to_end();
    let query = build_query(grep, fmt);
    let records = emit_lines(&trimmed, &query, fmt);
    let is_noop = match follow_from {
        FollowFrom::Noop => true,
        _ => false,
    };
    let tail = bounded == false && is_noop == false;
    ForwardOutcome { records, tail }
}

} // verus!
