//! Backward record streaming: the same window as the forward streamer, but
//! records are emitted in reverse file order and no tail phase follows.

use vstd::prelude::*;

use crate::file_format::FileFormat;
use crate::matcher::LogFileRegexMatcher;
use crate::offset;
use crate::reader;
use crate::reader::ReverseLineReader;
use crate::scan;
use crate::stream_forward;
use crate::writer::LogRecord;

verus! {

/// Records of the backward streamer, per the request: the lines of the
/// window bounded by `start_time` and `stop_time`, in reverse order, each
/// tested against the query.
pub open spec fn spec_backward(
    data: Seq<u8>,
    fmt: FileFormat,
    start_time: Option<i64>,
    stop_time: Option<i64>,
    grep: Option<Seq<u8>>,
) -> Seq<(Option<i64>, Seq<u8>, u64, bool)> {
    let max = data.len() as int;
    let start_opt: Option<int> = match start_time {
        Some(t) => match offset::spec_since(data, t, 0, max, fmt) {
            Some(p) => Some(p.0),
            None => None,
        },
        None => Some(0),
    };
    let end_opt: Option<int> = match stop_time {
        Some(t) => match offset::spec_until(data, t, 0, max, fmt) {
            Some(p) => Some(p.0 + p.1),
            None => None,
        },
        None => Some(max),
    };
    match (start_opt, end_opt) {
        (Some(start), Some(end)) => {
            let region = if start <= end {
                data.subrange(start, end)
            } else {
                Seq::<u8>::empty()
            };
            stream_forward::spec_emitted(
                reader::rev_lines(region),
                stream_forward::spec_query_pattern(grep),
                fmt,
            )
        },
        _ => Seq::empty(),
    }
}

/// Streams records backward over `data`: the window runs from the line
/// found for `start_time` to the end of the line found for `stop_time`, and
/// every line in it is offered newest first.
pub fn stream_backward(
    data: &Vec<u8>,
    fmt: FileFormat,
    start_time: Option<i64>,
    stop_time: Option<i64>,
    grep: Option<&[u8]>,
) -> (r: Vec<LogRecord>)
    ensures
        ({
            let g = match grep {
                Some(s) => Some(s@),
                None => None,
            };
            let s = spec_backward(data@, fmt, start_time, stop_time, g);
            &&& r@.len() == s.len()
            &&& forall|i: int|
                0 <= i < r@.len() ==> s[i] == (
                #[trigger] r@[i].timestamp,
                r@[i].message@,
                r@[i].original_size_bytes,
                r@[i].is_truncated,
                )
        }),
{
    let max = data.len();
    let start: usize = match start_time {
        Some(t) => {
            proof {
                offset::lemma_spec_since_bounds(data@, t, 0, max as int, fmt);
            }
            match offset::find_nearest_offset_since(data.as_slice(), t, 0, max as u64, fmt) {
                Some(o) => o.byte_offset as usize,
                None => {
                    return Vec::new();
                },
            }
        },
        None => 0,
    };
    let end: usize = match stop_time {
        Some(t) => {
            proof {
                offset::lemma_spec_until_bounds(data@, t, 0, max as int, fmt);
            }
            match offset::find_nearest_offset_until(data.as_slice(), t, 0, max as u64, fmt) {
                Some(o) => (o.byte_offset + o.line_length) as usize,
                None => {
                    return Vec::new();
                },
            }
        },
        None => max,
    };
    let region = if start <= end {
        scan::copy_range(data.as_slice(), start, end)
    } else {
        Vec::new()
    };
    let ghost region_view = region@;
    let query = stream_forward::build_query(grep, fmt);
    let ghost pattern = match &query {
        Some(m) => Some(m.spec_pattern()),
        None => None,
    };
    let mut rdr = ReverseLineReader::new(region, 0, if start <= end {
        end - start
    } else {
        0
    });
    let mut out: Vec<LogRecord> = Vec::new();
    let ghost all = reader::rev_lines(region_view);
    let ghost g: Option<Seq<u8>> = match grep {
        Some(s) => Some(s@),
        None => None,
    };
    proof {
        assert(all.skip(0) =~= all);
        if start <= end {
            assert(region_view =~= data@.subrange(start as int, end as int));
            assert(rdr.region() == region_view);
        } else {
            assert(region_view =~= Seq::<u8>::empty());
            assert(rdr.region() == region_view);
        }
        assert(spec_backward(data@, fmt, start_time, stop_time, g)
            == stream_forward::spec_emitted(all, pattern, fmt));
        assert(all.take(0) =~= Seq::<Seq<u8>>::empty());
        assert(stream_forward::spec_emitted(Seq::<Seq<u8>>::empty(), pattern, fmt).len() == 0);
        assert(out@.map_values(
            |rec: LogRecord|
                (rec.timestamp, rec.message@, rec.original_size_bytes, rec.is_truncated),
        ) =~= Seq::<(Option<i64>, Seq<u8>, u64, bool)>::empty());
        assert(stream_forward::spec_emitted(all.take(0), pattern, fmt) == out@.map_values(
            |rec: LogRecord|
                (rec.timestamp, rec.message@, rec.original_size_bytes, rec.is_truncated),
        ));
    }
    loop
        invariant
            rdr.wf(),
            g == (match grep {
                Some(s) => Some(s@),
                None => None,
            }),
            spec_backward(data@, fmt, start_time, stop_time, g)
                == stream_forward::spec_emitted(all, pattern, fmt),
            match query {
                Some(m) => m.spec_format() == fmt && pattern == Some(m.spec_pattern()),
                None => pattern is None,
            },
            exists|k: int|
                {
                    &&& 0 <= k <= all.len()
                    &&& reader::rev_lines(rdr.region()) == all.skip(k)
                    &&& #[trigger] stream_forward::spec_emitted(all.take(k), pattern, fmt)
                        == out@.map_values(
                        |rec: LogRecord|
                            (
                                rec.timestamp,
                                rec.message@,
                                rec.original_size_bytes,
                                rec.is_truncated,
                            ),
                    )
                },
            all == reader::rev_lines(region_view),
        decreases reader::rev_lines(rdr.region()).len(),
    {
        let ghost k = choose|k: int|
            {
                &&& 0 <= k <= all.len()
                &&& reader::rev_lines(rdr.region()) == all.skip(k)
                &&& #[trigger] stream_forward::spec_emitted(all.take(k), pattern, fmt)
                    == out@.map_values(
                    |rec: LogRecord|
                        (rec.timestamp, rec.message@, rec.original_size_bytes, rec.is_truncated),
                )
            };
        match rdr.next_line() {
            None => {
                proof {
                    assert(all.skip(k).len() == 0);
                    assert(k == all.len());
                    assert(all.take(k) =~= all);
                }
                return out;
            },
            Some(line) => {
                proof {
                    assert(all.skip(k).len() > 0);
                    assert(line@ == all.skip(k)[0]);
                    assert(all.skip(k)[0] == all[k]);
                    assert(all.skip(k).skip(1) =~= all.skip(k + 1));
                    assert(all.take(k + 1) =~= all.take(k).push(all[k]));
                    stream_forward::lemma_spec_emitted_push(all.take(k), all[k], pattern, fmt);
                }
                match stream_forward::match_and_record(line.as_slice(), &query, fmt) {
                    Some(rec) => {
                        out.push(rec);
                    },
                    None => {},
                }
                proof {
                    let done = out@.map_values(
                        |rec: LogRecord|
                            (
                                rec.timestamp,
                                rec.message@,
                                rec.original_size_bytes,
                                rec.is_truncated,
                            ),
                    );
                    assert(stream_forward::spec_emitted(all.take(k + 1), pattern, fmt) =~= done);
                }
            },
        }
    }
}


/// After the first newline of a well-formed range, `emits_after` lists
/// exactly the forward lines.
proof fn lemma_emits_after_is_lines(b: Seq<u8>)
    requires
        b.len() > 0 ==> b[0] != scan::NL,
        b.len() > 0 ==> b.last() == scan::NL,
        forall|i: int|
            0 < i < b.len() ==> !(#[trigger] b[i] == scan::NL && b[i - 1] == scan::NL),
    ensures
        reader::emits_after(b) == stream_forward::lines_of(b),
    decreases b.len(),
{
    if b.len() == 0 {
        assert(reader::emits_after(b) =~= stream_forward::lines_of(b));
    } else {
        let i = scan::first_nl(b) as int;
        scan::lemma_first_occ(b, scan::NL);
        assert(i <= b.len() - 1);
        assert(i > 0);
        let d = b.skip(i + 1);
        assert(d.len() > 0 ==> d[0] == b[i + 1] && d[0] != scan::NL);
        assert(d.len() > 0 ==> d.last() == b.last());
        assert forall|j: int|
            0 < j < d.len() implies !(#[trigger] d[j] == scan::NL && d[j - 1] == scan::NL) by {
            assert(d[j] == b[i + 1 + j]);
            assert(d[j - 1] == b[i + j]);
        }
        lemma_emits_after_is_lines(d);
        assert(b.take(i).push(scan::NL) =~= b.take(i + 1));
        assert(reader::emits_after(b) =~= stream_forward::lines_of(b));
    }
}

/// Over a well-formed range, the reverse reader's lines are the forward
/// lines with the first line's terminator dropped.
proof fn lemma_fwd_emits_vs_lines(s: Seq<u8>)
    requires
        s.len() > 0,
        s[0] != scan::NL,
        s.last() == scan::NL,
        forall|i: int|
            0 < i < s.len() ==> !(#[trigger] s[i] == scan::NL && s[i - 1] == scan::NL),
    ensures
        reader::fwd_emits(s).len() == stream_forward::lines_of(s).len(),
        stream_forward::lines_of(s).len() > 0,
        reader::fwd_emits(s)[0] == stream_forward::lines_of(s)[0].drop_last(),
        forall|i: int|
            1 <= i < reader::fwd_emits(s).len() ==> #[trigger] reader::fwd_emits(s)[i]
                == stream_forward::lines_of(s)[i],
{
    let i = scan::first_nl(s) as int;
    scan::lemma_first_occ(s, scan::NL);
    assert(i <= s.len() - 1);
    assert(i > 0);
    let d = s.skip(i + 1);
    assert(d.len() > 0 ==> d[0] == s[i + 1] && d[0] != scan::NL);
    assert(d.len() > 0 ==> d.last() == s.last());
    assert forall|j: int|
        0 < j < d.len() implies !(#[trigger] d[j] == scan::NL && d[j - 1] == scan::NL) by {
        assert(d[j] == s[i + 1 + j]);
        assert(d[j - 1] == s[i + j]);
    }
    lemma_emits_after_is_lines(d);
    assert(reader::fwd_emits(s) == seq![s.take(i)] + stream_forward::lines_of(d));
    assert(stream_forward::lines_of(s) == seq![s.take(i + 1)] + stream_forward::lines_of(d));
    assert(s.take(i + 1).drop_last() =~= s.take(i));
    assert forall|k: int|
        1 <= k < reader::fwd_emits(s).len() implies #[trigger] reader::fwd_emits(s)[k]
            == stream_forward::lines_of(s)[k] by {
        assert(reader::fwd_emits(s)[k] == stream_forward::lines_of(d)[k - 1]);
        assert(stream_forward::lines_of(s)[k] == stream_forward::lines_of(d)[k - 1]);
    }
}

/// Emission commutes with reversal of the line order.
proof fn lemma_spec_emitted_reverse(
    lines: Seq<Seq<u8>>,
    pattern: Option<Seq<u8>>,
    fmt: FileFormat,
)
    ensures
        stream_forward::spec_emitted(lines.reverse(), pattern, fmt)
            == stream_forward::spec_emitted(lines, pattern, fmt).reverse(),
    decreases lines.len(),
{
    if lines.len() == 0 {
        assert(lines.reverse() =~= lines);
        assert(stream_forward::spec_emitted(lines, pattern, fmt).reverse() =~=
            stream_forward::spec_emitted(lines, pattern, fmt));
    } else {
        lemma_spec_emitted_reverse(lines.skip(1), pattern, fmt);
        assert(lines.reverse() =~= lines.skip(1).reverse().push(lines[0]));
        stream_forward::lemma_spec_emitted_push(
            lines.skip(1).reverse(),
            lines[0],
            pattern,
            fmt,
        );
        let head = stream_forward::emit_one(lines[0], pattern, fmt);
        let rest = stream_forward::spec_emitted(lines.skip(1), pattern, fmt);
        assert(stream_forward::spec_emitted(lines, pattern, fmt) == head + rest);
        assert((head + rest).reverse() =~= rest.reverse() + head) by {
            assert(head.len() <= 1);
        }
        assert(stream_forward::spec_emitted(lines.reverse(), pattern, fmt) == rest.reverse()
            + head);
    }
}

/// Emission depends on the lines only through each line's contribution.
proof fn lemma_spec_emitted_congruent(
    l1: Seq<Seq<u8>>,
    l2: Seq<Seq<u8>>,
    pattern: Option<Seq<u8>>,
    fmt: FileFormat,
)
    requires
        l1.len() == l2.len(),
        forall|i: int|
            0 <= i < l1.len() ==> stream_forward::emit_one(#[trigger] l1[i], pattern, fmt)
                == stream_forward::emit_one(#[trigger] l2[i], pattern, fmt),
    ensures
        stream_forward::spec_emitted(l1, pattern, fmt) == stream_forward::spec_emitted(
            l2,
            pattern,
            fmt,
        ),
    decreases l1.len(),
{
    if l1.len() > 0 {
        assert forall|i: int|
            0 <= i < l1.skip(1).len() implies stream_forward::emit_one(
            #[trigger] l1.skip(1)[i],
            pattern,
            fmt,
        ) == stream_forward::emit_one(#[trigger] l2.skip(1)[i], pattern, fmt) by {
            assert(l1.skip(1)[i] == l1[i + 1]);
            assert(l2.skip(1)[i] == l2[i + 1]);
        }
        lemma_spec_emitted_congruent(l1.skip(1), l2.skip(1), pattern, fmt);
        assert(stream_forward::emit_one(l1[0], pattern, fmt) == stream_forward::emit_one(
            l2[0],
            pattern,
            fmt,
        ));
    }
}

/// Backward emission reverses forward emission.  Over a range that ends at
/// a line boundary and holds no empty line, and whose earliest line
/// contributes the same record with or without its terminator, the records
/// the backward streamer emits are exactly the forward streamer's records
/// in reverse order.
pub proof fn lemma_backward_reverses_forward(
    s: Seq<u8>,
    pattern: Option<Seq<u8>>,
    fmt: FileFormat,
)
    requires
        s.len() > 0 ==> s[0] != scan::NL,
        s.len() > 0 ==> s.last() == scan::NL,
        forall|i: int|
            0 < i < s.len() ==> !(#[trigger] s[i] == scan::NL && s[i - 1] == scan::NL),
        s.len() > 0 ==> stream_forward::emit_one(
            stream_forward::lines_of(s)[0].drop_last(),
            pattern,
            fmt,
        ) == stream_forward::emit_one(stream_forward::lines_of(s)[0], pattern, fmt),
    ensures
        stream_forward::spec_emitted(reader::rev_lines(s), pattern, fmt)
            == stream_forward::spec_emitted(stream_forward::lines_of(s), pattern, fmt).reverse(),
{
    if s.len() == 0 {
        assert(reader::rev_lines(s) =~= Seq::<Seq<u8>>::empty());
        assert(stream_forward::spec_emitted(stream_forward::lines_of(s), pattern, fmt).reverse()
            =~= stream_forward::spec_emitted(stream_forward::lines_of(s), pattern, fmt));
    } else {
        lemma_fwd_emits_vs_lines(s);
        lemma_spec_emitted_congruent(
            reader::fwd_emits(s),
            stream_forward::lines_of(s),
            pattern,
            fmt,
        );
        lemma_spec_emitted_reverse(reader::fwd_emits(s), pattern, fmt);
        assert(reader::rev_lines(s) == reader::fwd_emits(s).reverse());
    }
}

} // verus!
