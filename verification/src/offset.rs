//! Timestamp offset index: locating the earliest line at or after a target
//! instant, and the latest line at or before one.
//!
//! A line counts when it starts inside `[min_offset, max_offset)` and its
//! leading timestamp parses; its reported length is that of the line with
//! trailing whitespace removed.  The search is exact: `since` returns the
//! first qualifying line in file order, `until` the last, so on a file whose
//! timestamps are nondecreasing these are the earliest line `>=` the target
//! and the latest line `<=` it.

use vstd::prelude::*;

use crate::file_format::FileFormat;
use crate::scan;
use crate::timestamp;

verus! {

/// Offset of a line found by the index: where the line starts and how long
/// its whitespace-trimmed body is.
#[derive(Debug, Clone, Copy, PartialEq, Eq, Structural)]
pub struct Offset {
    pub byte_offset: u64,
    pub line_length: u64,
}

/// End of the line starting at `pos`: the index of the next newline, or
/// `data.len()`.
pub open spec fn line_end(data: Seq<u8>, pos: int) -> int {
    pos + scan::first_nl(data.skip(pos))
}

/// The lines of `data` that start in `[pos, max)` and carry a parseable
/// timestamp, in file order, as `(start, trimmed length, timestamp)` triples.
pub open spec fn ts_entries(data: Seq<u8>, pos: int, max: int, fmt: FileFormat) -> Seq<
    (int, int, i64),
>
    decreases data.len() + 1 - pos,
        when 0 <= pos
{
    if pos >= max || pos >= data.len() {
        Seq::empty()
    } else {
        let e = line_end(data, pos);
        let content = scan::trim_end_ws(data.subrange(pos, e));
        let next = if e + 1 <= data.len() {
            e + 1
        } else {
            data.len() as int
        };
        let rest = ts_entries(data, next, max, fmt);
        match timestamp::line_timestamp(content, fmt) {
            Some(ts) => seq![(pos, content.len() as int, ts)] + rest,
            None => rest,
        }
    }
}

/// First entry whose timestamp is at or after `target`.
pub open spec fn first_since(entries: Seq<(int, int, i64)>, target: i64) -> Option<(int, int, i64)>
    decreases entries.len(),
{
    if entries.len() == 0 {
        None
    } else if entries[0].2 >= target {
        Some(entries[0])
    } else {
        first_since(entries.skip(1), target)
    }
}

/// Last entry whose timestamp is at or before `target`.
pub open spec fn last_until(entries: Seq<(int, int, i64)>, target: i64) -> Option<(int, int, i64)>
    decreases entries.len(),
{
    if entries.len() == 0 {
        None
    } else {
        match last_until(entries.skip(1), target) {
            Some(e) => Some(e),
            None => if entries[0].2 <= target {
                Some(entries[0])
            } else {
                None
            },
        }
    }
}

/// Result of `find_nearest_offset_since`, as `(start, trimmed length)`.
pub open spec fn spec_since(
    data: Seq<u8>,
    target: i64,
    min: int,
    max: int,
    fmt: FileFormat,
) -> Option<(int, int)> {
    match first_since(ts_entries(data, min, max, fmt), target) {
        Some(e) => Some((e.0, e.1)),
        None => None,
    }
}

/// Result of `find_nearest_offset_until`, as `(start, trimmed length)`.
pub open spec fn spec_until(
    data: Seq<u8>,
    target: i64,
    min: int,
    max: int,
    fmt: FileFormat,
) -> Option<(int, int)> {
    match last_until(ts_entries(data, min, max, fmt), target) {
        Some(e) => Some((e.0, e.1)),
        None => None,
    }
}

proof fn lemma_ts_entries_unfold(data: Seq<u8>, pos: int, max: int, fmt: FileFormat)
    requires
        0 <= pos,
        pos < max,
        pos < data.len(),
    ensures
        ({
            let e = line_end(data, pos);
            let content = scan::trim_end_ws(data.subrange(pos, e));
            let next = if e + 1 <= data.len() {
                e + 1
            } else {
                data.len() as int
            };
            let rest = ts_entries(data, next, max, fmt);
            ts_entries(data, pos, max, fmt) == match timestamp::line_timestamp(content, fmt) {
                Some(ts) => seq![(pos, content.len() as int, ts)] + rest,
                None => rest,
            }
        }),
{
}

proof fn lemma_cons_head_skip(e: (int, int, i64), rest: Seq<(int, int, i64)>)
    ensures
        (seq![e] + rest).len() == 1 + rest.len(),
        (seq![e] + rest)[0] == e,
        (seq![e] + rest).skip(1) == rest,
{
    assert((seq![e] + rest).skip(1) =~= rest);
}


/// Every indexed entry lies inside the searched range and its line inside
/// the data.
pub proof fn lemma_ts_entries_bounds(data: Seq<u8>, pos: int, max: int, fmt: FileFormat)
    requires
        0 <= pos,
    ensures
        forall|i: int|
            0 <= i < ts_entries(data, pos, max, fmt).len() ==> {
                let e = #[trigger] ts_entries(data, pos, max, fmt)[i];
                &&& pos <= e.0 < max
                &&& 0 <= e.1
                &&& e.0 + e.1 <= data.len()
            },
    decreases data.len() + 1 - pos,
{
    if pos >= max || pos >= data.len() {
    } else {
        let e = line_end(data, pos);
        scan::lemma_first_occ(data.skip(pos), scan::NL);
        assert(pos <= e <= data.len());
        let content = scan::trim_end_ws(data.subrange(pos, e));
        scan::lemma_trim_end_ws_len(data.subrange(pos, e));
        let next = if e + 1 <= data.len() {
            e + 1
        } else {
            data.len() as int
        };
        lemma_ts_entries_bounds(data, next, max, fmt);
        let rest = ts_entries(data, next, max, fmt);
        match timestamp::line_timestamp(content, fmt) {
            Some(ts) => {
                let whole = ts_entries(data, pos, max, fmt);
                assert(whole == seq![(pos, content.len() as int, ts)] + rest);
                assert forall|i: int| 0 <= i < whole.len() implies {
                    let en = #[trigger] whole[i];
                    &&& pos <= en.0 < max
                    &&& 0 <= en.1
                    &&& en.0 + en.1 <= data.len()
                } by {
                    if i > 0 {
                        assert(whole[i] == rest[i - 1]);
                    }
                }
            },
            None => {},
        }
    }
}

/// A `first_since` result is one of the entries.
proof fn lemma_first_since_mem(entries: Seq<(int, int, i64)>, target: i64)
    ensures
        first_since(entries, target) matches Some(e) ==> exists|i: int|
            0 <= i < entries.len() && entries[i] == e,
    decreases entries.len(),
{
    if entries.len() == 0 {
    } else if entries[0].2 >= target {
    } else {
        lemma_first_since_mem(entries.skip(1), target);
        match first_since(entries, target) {
            Some(e) => {
                let i = choose|i: int|
                    0 <= i < entries.skip(1).len() && entries.skip(1)[i] == e;
                assert(entries[i + 1] == e);
            },
            None => {},
        }
    }
}

/// A `last_until` result is one of the entries.
proof fn lemma_last_until_mem(entries: Seq<(int, int, i64)>, target: i64)
    ensures
        last_until(entries, target) matches Some(e) ==> exists|i: int|
            0 <= i < entries.len() && entries[i] == e,
    decreases entries.len(),
{
    if entries.len() == 0 {
    } else {
        lemma_last_until_mem(entries.skip(1), target);
        match last_until(entries.skip(1), target) {
            Some(e2) => {
                let i = choose|i: int|
                    0 <= i < entries.skip(1).len() && entries.skip(1)[i] == e2;
                assert(entries[i + 1] == e2);
            },
            None => {},
        }
    }
}

/// Bounds of a `spec_since` result: the line starts inside the range and
/// ends inside the data.
pub proof fn lemma_spec_since_bounds(
    data: Seq<u8>,
    target: i64,
    min: int,
    max: int,
    fmt: FileFormat,
)
    requires
        0 <= min,
    ensures
        spec_since(data, target, min, max, fmt) matches Some(p) ==> min <= p.0 < max && 0 <= p.1
            && p.0 + p.1 <= data.len(),
{
    lemma_ts_entries_bounds(data, min, max, fmt);
    lemma_first_since_mem(ts_entries(data, min, max, fmt), target);
}

/// Bounds of a `spec_until` result: the line starts inside the range and
/// ends inside the data.
pub proof fn lemma_spec_until_bounds(
    data: Seq<u8>,
    target: i64,
    min: int,
    max: int,
    fmt: FileFormat,
)
    requires
        0 <= min,
    ensures
        spec_until(data, target, min, max, fmt) matches Some(p) ==> min <= p.0 < max && 0 <= p.1
            && p.0 + p.1 <= data.len(),
{
    lemma_ts_entries_bounds(data, min, max, fmt);
    lemma_last_until_mem(ts_entries(data, min, max, fmt), target);
}


/// Entries appear in strictly increasing offset order, each line ending
/// before the next begins.
proof fn lemma_ts_entries_increasing(data: Seq<u8>, pos: int, max: int, fmt: FileFormat)
    requires
        0 <= pos,
    ensures
        forall|i: int, j: int|
            0 <= i < j < ts_entries(data, pos, max, fmt).len() ==> #[trigger] ts_entries(
                data,
                pos,
                max,
                fmt,
            )[i].0 + ts_entries(data, pos, max, fmt)[i].1 < #[trigger] ts_entries(
                data,
                pos,
                max,
                fmt,
            )[j].0,
    decreases data.len() + 1 - pos,
{
    if pos >= max || pos >= data.len() {
    } else {
        let e = line_end(data, pos);
        scan::lemma_first_occ(data.skip(pos), scan::NL);
        let content = scan::trim_end_ws(data.subrange(pos, e));
        scan::lemma_trim_end_ws_len(data.subrange(pos, e));
        let next = if e + 1 <= data.len() {
            e + 1
        } else {
            data.len() as int
        };
        lemma_ts_entries_increasing(data, next, max, fmt);
        lemma_ts_entries_bounds(data, next, max, fmt);
        let rest = ts_entries(data, next, max, fmt);
        let whole = ts_entries(data, pos, max, fmt);
        match timestamp::line_timestamp(content, fmt) {
            Some(ts) => {
                assert(whole == seq![(pos, content.len() as int, ts)] + rest);
                if e + 1 <= data.len() {
                    assert(pos + content.len() < next);
                } else {
                    assert(rest =~= Seq::<(int, int, i64)>::empty());
                }
                assert forall|i: int, j: int|
                    0 <= i < j < whole.len() implies #[trigger] whole[i].0 + whole[i].1
                    < #[trigger] whole[j].0 by {
                    if i == 0 {
                        assert(whole[j] == rest[j - 1]);
                    } else {
                        assert(whole[i] == rest[i - 1]);
                        assert(whole[j] == rest[j - 1]);
                    }
                }
            },
            None => {},
        }
    }
}

/// A `first_since` result sits at an index before which every timestamp is
/// below the target.
proof fn lemma_first_since_index(entries: Seq<(int, int, i64)>, target: i64)
    ensures
        match first_since(entries, target) {
            Some(e) => exists|i: int|
                0 <= i < entries.len() && #[trigger] entries[i] == e && forall|k: int|
                    0 <= k < i ==> (#[trigger] entries[k]).2 < target,
            None => forall|k: int| 0 <= k < entries.len() ==> (#[trigger] entries[k]).2 < target,
        },
    decreases entries.len(),
{
    if entries.len() == 0 {
    } else if entries[0].2 >= target {
        assert(entries[0] == first_since(entries, target)->0);
    } else {
        lemma_first_since_index(entries.skip(1), target);
        match first_since(entries, target) {
            Some(e) => {
                let i = choose|i: int|
                    0 <= i < entries.skip(1).len() && #[trigger] entries.skip(1)[i] == e
                        && forall|k: int|
                        0 <= k < i ==> (#[trigger] entries.skip(1)[k]).2 < target;
                assert(entries[i + 1] == e);
                assert forall|k: int| 0 <= k < i + 1 implies (#[trigger] entries[k]).2
                    < target by {
                    if k > 0 {
                        assert(entries.skip(1)[k - 1] == entries[k]);
                    }
                }
            },
            None => {
                assert forall|k: int| 0 <= k < entries.len() implies (#[trigger] entries[k]).2
                    < target by {
                    if k > 0 {
                        assert(entries.skip(1)[k - 1] == entries[k]);
                    }
                }
            },
        }
    }
}

/// A `last_until` result sits at an index after which every timestamp is
/// above the target.
proof fn lemma_last_until_index(entries: Seq<(int, int, i64)>, target: i64)
    ensures
        match last_until(entries, target) {
            Some(e) => exists|i: int|
                0 <= i < entries.len() && #[trigger] entries[i] == e && entries[i].2 <= target
                    && forall|k: int|
                    i < k < entries.len() ==> (#[trigger] entries[k]).2 > target,
            None => forall|k: int| 0 <= k < entries.len() ==> (#[trigger] entries[k]).2 > target,
        },
    decreases entries.len(),
{
    if entries.len() == 0 {
    } else {
        lemma_last_until_index(entries.skip(1), target);
        match last_until(entries.skip(1), target) {
            Some(e2) => {
                let i = choose|i: int|
                    0 <= i < entries.skip(1).len() && #[trigger] entries.skip(1)[i] == e2
                        && entries.skip(1)[i].2 <= target && forall|k: int|
                        i < k < entries.skip(1).len() ==> (#[trigger] entries.skip(1)[k]).2
                            > target;
                assert(entries[i + 1] == e2);
                assert forall|k: int| i + 1 < k < entries.len() implies (
                #[trigger] entries[k]).2 > target by {
                    assert(entries.skip(1)[k - 1] == entries[k]);
                }
            },
            None => {
                assert forall|k: int| 0 < k < entries.len() implies (#[trigger] entries[k]).2
                    > target by {
                    assert(entries.skip(1)[k - 1] == entries[k]);
                }
                if entries[0].2 <= target {
                    assert(entries[0] == last_until(entries, target)->0);
                }
            },
        }
    }
}

/// Ordering of the two searches: when some line's timestamp falls inside
/// `[t1, t2]`, the line found for `t1` starts no later than the end of the
/// line found for `t2`.  Without such a line the two searches can land on
/// opposite sides of the gap between `t1` and `t2`.
pub proof fn lemma_since_until_ordered(
    data: Seq<u8>,
    t1: i64,
    t2: i64,
    max: int,
    fmt: FileFormat,
)
    requires
        t1 <= t2,
        exists|k: int|
            0 <= k < ts_entries(data, 0, max, fmt).len() && t1 <= (#[trigger] ts_entries(
                data,
                0,
                max,
                fmt,
            )[k]).2 <= t2,
        spec_since(data, t1, 0, max, fmt) is Some,
        spec_until(data, t2, 0, max, fmt) is Some,
    ensures
        (spec_since(data, t1, 0, max, fmt)->0).0 <= (spec_until(data, t2, 0, max, fmt)->0).0
            + (spec_until(data, t2, 0, max, fmt)->0).1,
{
    let entries = ts_entries(data, 0, max, fmt);
    let w = choose|k: int|
        0 <= k < entries.len() && t1 <= (#[trigger] entries[k]).2 <= t2;
    lemma_first_since_index(entries, t1);
    lemma_last_until_index(entries, t2);
    lemma_ts_entries_increasing(data, 0, max, fmt);
    lemma_ts_entries_bounds(data, 0, max, fmt);
    let e1 = first_since(entries, t1)->0;
    let e2 = last_until(entries, t2)->0;
    let i1 = choose|i: int|
        0 <= i < entries.len() && #[trigger] entries[i] == e1 && forall|k: int|
            0 <= k < i ==> (#[trigger] entries[k]).2 < t1;
    let i2 = choose|i: int|
        0 <= i < entries.len() && #[trigger] entries[i] == e2 && entries[i].2 <= t2 && forall|
            k: int,
        | i < k < entries.len() ==> (#[trigger] entries[k]).2 > t2;
    assert(i1 <= w) by {
        if i1 > w {
            assert(entries[w].2 < t1);
        }
    }
    assert(w <= i2) by {
        if w > i2 {
            assert(entries[w].2 > t2);
        }
    }
    if i1 < i2 {
        assert(entries[i1].0 + entries[i1].1 < entries[i2].0);
    }
}

/// Finds the earliest line in `[min_offset, max_offset)` whose leading
/// timestamp is at or after `target_time`.
pub fn find_nearest_offset_since(
    data: &[u8],
    target_time: i64,
    min_offset: u64,
    max_offset: u64,
    fmt: FileFormat,
) -> (r: Option<Offset>)
    requires
        max_offset <= data.len(),
    ensures
        match r {
            Some(o) => spec_since(data@, target_time, min_offset as int, max_offset as int, fmt)
                == Some((o.byte_offset as int, o.line_length as int)),
            None => spec_since(data@, target_time, min_offset as int, max_offset as int, fmt)
                is None,
        },
{
    let max: usize = max_offset as usize;
    if min_offset >= max_offset {
        return None;
    }
    let mut pos: usize = min_offset as usize;
    loop
        invariant
            min_offset < max_offset,
            max == max_offset as int,
            max_offset <= data.len(),
            min_offset <= pos as u64,
            first_since(ts_entries(data@, min_offset as int, max as int, fmt), target_time)
                == first_since(ts_entries(data@, pos as int, max as int, fmt), target_time),
        decreases data.len() + 1 - pos,
    {
        if pos >= max {
            assert(ts_entries(data@, pos as int, max as int, fmt) =~= Seq::empty());
            return None;
        }
        let e = scan::find_nl(data, pos);
        let content = scan::copy_trimmed(data, pos, e);
        proof {
            assert(data@.subrange(pos as int, data@.len() as int) =~= data@.skip(pos as int));
            assert(line_end(data@, pos as int) == e);
            lemma_ts_entries_unfold(data@, pos as int, max as int, fmt);
        }
        let ts_opt = timestamp::parse_timestamp(content.as_slice(), fmt);
        let ghost gnext: int = if e + 1 <= data@.len() { e + 1 } else { data@.len() as int };
        let ghost rest = ts_entries(data@, gnext, max as int, fmt);
        match ts_opt {
            Some(ts) => {
                proof {
                    lemma_cons_head_skip((pos as int, content@.len() as int, ts), rest);
                }
                if ts >= target_time {
                    let len64: u64 = content.len() as u64;
                    return Some(Offset { byte_offset: pos as u64, line_length: len64 });
                }
            },
            None => {},
        }
        if e >= max {
            proof {
                let entries_pos = ts_entries(data@, pos as int, max as int, fmt);
                assert(rest =~= Seq::empty());
                assert(first_since(rest, target_time) is None);
                match ts_opt {
                    Some(ts) => {
                        lemma_cons_head_skip((pos as int, content@.len() as int, ts), rest);
                        assert(entries_pos == seq![(pos as int, content@.len() as int, ts)]
                            + rest);
                        assert(first_since(entries_pos, target_time) == first_since(
                            rest,
                            target_time,
                        ));
                    },
                    None => {
                        assert(entries_pos == rest);
                    },
                }
            }
            return None;
        }
        pos = e + 1;
    }
}

/// Finds the latest line in `[min_offset, max_offset)` whose leading
/// timestamp is at or before `target_time`.
pub fn find_nearest_offset_until(
    data: &[u8],
    target_time: i64,
    min_offset: u64,
    max_offset: u64,
    fmt: FileFormat,
) -> (r: Option<Offset>)
    requires
        max_offset <= data.len(),
    ensures
        match r {
            Some(o) => spec_until(data@, target_time, min_offset as int, max_offset as int, fmt)
                == Some((o.byte_offset as int, o.line_length as int)),
            None => spec_until(data@, target_time, min_offset as int, max_offset as int, fmt)
                is None,
        },
{
    let max: usize = max_offset as usize;
    if min_offset >= max_offset {
        return None;
    }
    let mut pos: usize = min_offset as usize;
    let mut best: Option<Offset> = None;
    loop
        invariant
            min_offset < max_offset,
            max == max_offset as int,
            max_offset <= data.len(),
            min_offset <= pos as u64,
            ({
                let whole = last_until(
                    ts_entries(data@, min_offset as int, max as int, fmt),
                    target_time,
                );
                let ahead = last_until(ts_entries(data@, pos as int, max as int, fmt), target_time);
                match ahead {
                    Some(e) => whole == Some(e),
                    None => match (whole, best) {
                        (Some(e), Some(o)) => e.0 == o.byte_offset && e.1 == o.line_length,
                        (None, None) => true,
                        _ => false,
                    },
                }
            }),
        decreases data.len() + 1 - pos,
    {
        if pos >= max {
            assert(ts_entries(data@, pos as int, max as int, fmt) =~= Seq::empty());
            return best;
        }
        let e = scan::find_nl(data, pos);
        let content = scan::copy_trimmed(data, pos, e);
        proof {
            assert(data@.subrange(pos as int, data@.len() as int) =~= data@.skip(pos as int));
            assert(line_end(data@, pos as int) == e);
            lemma_ts_entries_unfold(data@, pos as int, max as int, fmt);
        }
        let ts_opt = timestamp::parse_timestamp(content.as_slice(), fmt);
        let ghost gnext: int = if e + 1 <= data@.len() { e + 1 } else { data@.len() as int };
        let ghost rest = ts_entries(data@, gnext, max as int, fmt);
        match ts_opt {
            Some(ts) => {
                proof {
                    lemma_cons_head_skip((pos as int, content@.len() as int, ts), rest);
                }
                if ts <= target_time {
                    let len64: u64 = content.len() as u64;
                    best = Some(Offset { byte_offset: pos as u64, line_length: len64 });
                }
            },
            None => {},
        }
        if e >= max {
            proof {
                let entries_pos = ts_entries(data@, pos as int, max as int, fmt);
                assert(rest =~= Seq::empty());
                assert(last_until(rest, target_time) is None);
                match ts_opt {
                    Some(ts) => {
                        lemma_cons_head_skip((pos as int, content@.len() as int, ts), rest);
                        assert(entries_pos == seq![(pos as int, content@.len() as int, ts)]
                            + rest);
                    },
                    None => {
                        assert(entries_pos == rest);
                    },
                }
            }
            return best;
        }
        pos = e + 1;
    }
}

} // verus!
