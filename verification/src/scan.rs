//! Byte-level scanning primitives shared by the readers: locating newlines,
//! trimming trailing whitespace, and copying ranges.

use vstd::prelude::*;

verus! {

/// Newline byte, the line terminator of every log format handled here.
pub const NL: u8 = 10;

/// Index of the first occurrence of `b` in `s`, or `s.len()` if there is none.
pub open spec fn first_occ(s: Seq<u8>, b: u8) -> nat
    decreases s.len(),
{
    if s.len() == 0 {
        0
    } else if s[0] == b {
        0
    } else {
        1 + first_occ(s.skip(1), b)
    }
}

pub proof fn lemma_first_occ(s: Seq<u8>, b: u8)
    ensures
        0 <= first_occ(s, b) <= s.len(),
        first_occ(s, b) < s.len() ==> s[first_occ(s, b) as int] == b,
        forall|j: int| 0 <= j < first_occ(s, b) ==> s[j] != b,
    decreases s.len(),
{
    if s.len() == 0 {
    } else if s[0] == b {
    } else {
        lemma_first_occ(s.skip(1), b);
        assert forall|j: int| 0 <= j < first_occ(s, b) implies s[j] != b by {
            if j > 0 {
                assert(s.skip(1)[j - 1] == s[j]);
            }
        }
    }
}

/// `first_occ` is determined by any witness position `k`.
pub proof fn lemma_first_occ_is(s: Seq<u8>, b: u8, k: int)
    requires
        0 <= k <= s.len(),
        forall|j: int| 0 <= j < k ==> s[j] != b,
        k < s.len() ==> s[k] == b,
    ensures
        first_occ(s, b) == k,
    decreases s.len(),
{
    if s.len() == 0 {
    } else if s[0] == b {
        assert(k == 0);
    } else {
        assert(k > 0);
        lemma_first_occ_is(s.skip(1), b, k - 1);
    }
}

/// Index of the first newline in `s`, or `s.len()` if there is none.
pub open spec fn first_nl(s: Seq<u8>) -> nat {
    first_occ(s, NL)
}

/// Finds the first occurrence of `b` at or after `from`; returns its index,
/// or `data.len()` when the rest of `data` holds none.
pub fn find_byte(data: &[u8], from: usize, b: u8) -> (r: usize)
    requires
        from <= data.len(),
    ensures
        from <= r <= data.len(),
        r - from == first_occ(data@.skip(from as int), b),
        r < data.len() ==> data@[r as int] == b,
        forall|j: int| from <= j < r ==> data@[j] != b,
{
    let mut i: usize = from;
    while i < data.len()
        invariant
            from <= i <= data.len(),
            forall|j: int| from <= j < i ==> data@[j] != b,
        decreases data.len() - i,
    {
        if data[i] == b {
            proof {
                assert forall|j: int| 0 <= j < i - from implies data@.skip(from as int)[j] != b by {
                    assert(data@.skip(from as int)[j] == data@[from + j]);
                }
                lemma_first_occ_is(data@.skip(from as int), b, i - from);
            }
            return i;
        }
        i = i + 1;
    }
    proof {
        assert forall|j: int| 0 <= j < data.len() - from implies data@.skip(from as int)[j] != b by {
            assert(data@.skip(from as int)[j] == data@[from + j]);
        }
        lemma_first_occ_is(data@.skip(from as int), b, data.len() - from);
    }
    data.len()
}

/// Finds the next newline at or after `from`; returns its index, or
/// `data.len()` when the rest of `data` holds none.
pub fn find_nl(data: &[u8], from: usize) -> (r: usize)
    requires
        from <= data.len(),
    ensures
        from <= r <= data.len(),
        r - from == first_nl(data@.skip(from as int)),
        r < data.len() ==> data@[r as int] == NL,
        forall|j: int| from <= j < r ==> data@[j] != NL,
{
    find_byte(data, from, NL)
}

/// Whitespace bytes stripped from line ends before timestamp parsing.
pub open spec fn is_ws(b: u8) -> bool {
    b == 32 || b == 9 || b == 13 || b == 10
}

/// `s` with every trailing whitespace byte removed.
pub open spec fn trim_end_ws(s: Seq<u8>) -> Seq<u8>
    decreases s.len(),
{
    if s.len() == 0 {
        s
    } else if is_ws(s.last()) {
        trim_end_ws(s.drop_last())
    } else {
        s
    }
}

pub proof fn lemma_trim_end_ws_is(s: Seq<u8>, k: int)
    requires
        0 <= k <= s.len(),
        forall|j: int| k <= j < s.len() ==> is_ws(s[j]),
        k > 0 ==> !is_ws(s[k - 1]),
    ensures
        trim_end_ws(s) == s.take(k),
    decreases s.len(),
{
    if s.len() == 0 {
        assert(trim_end_ws(s) =~= s.take(k));
    } else if is_ws(s.last()) {
        assert(k < s.len());
        lemma_trim_end_ws_is(s.drop_last(), k);
        assert(s.drop_last().take(k) =~= s.take(k));
    } else {
        assert(k == s.len());
        assert(trim_end_ws(s) =~= s.take(k));
    }
}

pub proof fn lemma_trim_end_ws_len(s: Seq<u8>)
    ensures
        trim_end_ws(s).len() <= s.len(),
        trim_end_ws(s) == s.take(trim_end_ws(s).len() as int),
    decreases s.len(),
{
    if s.len() == 0 {
        assert(trim_end_ws(s) =~= s.take(0));
    } else if is_ws(s.last()) {
        lemma_trim_end_ws_len(s.drop_last());
        assert(s.drop_last().take(trim_end_ws(s).len() as int) =~= s.take(
            trim_end_ws(s).len() as int,
        ));
    } else {
        assert(trim_end_ws(s) =~= s.take(s.len() as int));
    }
}

/// Copies `data[lo..hi]` into a fresh vector, trailing whitespace removed.
pub fn copy_trimmed(data: &[u8], lo: usize, hi: usize) -> (r: Vec<u8>)
    requires
        lo <= hi <= data.len(),
    ensures
        r@ == trim_end_ws(data@.subrange(lo as int, hi as int)),
{
    let mut end: usize = hi;
    while end > lo && is_ws_byte(data[end - 1])
        invariant
            lo <= end <= hi <= data.len(),
            forall|j: int| end <= j < hi ==> is_ws(data@[j]),
        decreases end,
    {
        end = end - 1;
    }
    proof {
        let s = data@.subrange(lo as int, hi as int);
        assert forall|j: int| end - lo <= j < s.len() implies is_ws(s[j]) by {
            assert(s[j] == data@[lo + j]);
        }
        if end > lo {
            assert(s[end - lo - 1] == data@[end - 1]);
        }
        lemma_trim_end_ws_is(s, end - lo);
        assert(s.take(end - lo) =~= data@.subrange(lo as int, end as int));
    }
    copy_range(data, lo, end)
}

/// Whether `b` is one of the whitespace bytes of `is_ws`.
pub fn is_ws_byte(b: u8) -> (r: bool)
    ensures
        r == is_ws(b),
{
    b == 32 || b == 9 || b == 13 || b == NL
}

/// Copies `data[lo..hi]` into a fresh vector.
pub fn copy_range(data: &[u8], lo: usize, hi: usize) -> (r: Vec<u8>)
    requires
        lo <= hi <= data.len(),
    ensures
        r@ == data@.subrange(lo as int, hi as int),
{
    let mut out: Vec<u8> = Vec::new();
    let mut i: usize = lo;
    while i < hi
        invariant
            lo <= i <= hi <= data.len(),
            out@ == data@.subrange(lo as int, i as int),
        decreases hi - i,
    {
        out.push(data[i]);
        proof {
            assert(data@.subrange(lo as int, i + 1) =~= data@.subrange(lo as int, i as int).push(
                data@[i as int],
            ));
        }
        i = i + 1;
    }
    out
}


/// `s` with every leading whitespace byte removed.
pub open spec fn trim_start_ws(s: Seq<u8>) -> Seq<u8>
    decreases s.len(),
{
    if s.len() > 0 && is_ws(s[0]) {
        trim_start_ws(s.skip(1))
    } else {
        s
    }
}

pub proof fn lemma_trim_start_ws_is(s: Seq<u8>, k: int)
    requires
        0 <= k <= s.len(),
        forall|j: int| 0 <= j < k ==> is_ws(s[j]),
        k < s.len() ==> !is_ws(s[k]),
    ensures
        trim_start_ws(s) == s.skip(k),
    decreases s.len(),
{
    if s.len() > 0 && is_ws(s[0]) {
        assert(k > 0);
        assert forall|j: int| 0 <= j < k - 1 implies is_ws(s.skip(1)[j]) by {
            assert(s.skip(1)[j] == s[j + 1]);
        }
        assert(k - 1 < s.skip(1).len() ==> s.skip(1)[k - 1] == s[k]);
        lemma_trim_start_ws_is(s.skip(1), k - 1);
        assert(s.skip(1).skip(k - 1) =~= s.skip(k));
    } else {
        assert(k == 0);
        assert(s.skip(0) =~= s);
    }
}

/// Copies `data` with whitespace removed from both ends.
pub fn trim_ws_both(data: &[u8]) -> (r: Vec<u8>)
    ensures
        r@ == trim_start_ws(trim_end_ws(data@)),
{
    let mut end: usize = data.len();
    while end > 0 && is_ws_byte(data[end - 1])
        invariant
            end <= data.len(),
            forall|j: int| end <= j < data.len() ==> is_ws(data@[j]),
        decreases end,
    {
        end = end - 1;
    }
    proof {
        lemma_trim_end_ws_is(data@, end as int);
    }
    let mut start: usize = 0;
    while start < end && is_ws_byte(data[start])
        invariant
            start <= end <= data.len(),
            forall|j: int| 0 <= j < start ==> is_ws(data@[j]),
        decreases end - start,
    {
        start = start + 1;
    }
    proof {
        let t = data@.take(end as int);
        assert forall|j: int| 0 <= j < start implies is_ws(t[j]) by {
            assert(t[j] == data@[j]);
        }
        if start < end {
            assert(t[start as int] == data@[start as int]);
        }
        lemma_trim_start_ws_is(t, start as int);
        assert(t.skip(start as int) =~= data@.subrange(start as int, end as int));
    }
    copy_range(data, start, end)
}


/// Index of the last occurrence of `b` in `s`, or `-1` if there is none.
pub open spec fn last_occ(s: Seq<u8>, b: u8) -> int
    decreases s.len(),
{
    if s.len() == 0 {
        -1
    } else if s.last() == b {
        s.len() - 1
    } else {
        last_occ(s.drop_last(), b)
    }
}

/// `last_occ` is determined by any witness position `k`.
pub proof fn lemma_last_occ_is(s: Seq<u8>, b: u8, k: int)
    requires
        -1 <= k < s.len(),
        forall|j: int| k < j < s.len() ==> s[j] != b,
        k >= 0 ==> s[k] == b,
    ensures
        last_occ(s, b) == k,
    decreases s.len(),
{
    if s.len() == 0 {
    } else if s.last() == b {
        assert(k == s.len() - 1);
    } else {
        assert(k < s.len() - 1);
        assert forall|j: int| k < j < s.drop_last().len() implies s.drop_last()[j] != b by {
            assert(s.drop_last()[j] == s[j]);
        }
        lemma_last_occ_is(s.drop_last(), b, k);
    }
}

/// Finds the last occurrence of `b` in `data[lo..hi)`, or `hi` when none.
pub fn find_last_byte(data: &[u8], lo: usize, hi: usize, b: u8) -> (r: Option<usize>)
    requires
        lo <= hi <= data.len(),
    ensures
        match r {
            Some(p) => lo <= p < hi && data@[p as int] == b && forall|j: int|
                p < j < hi ==> data@[j] != b,
            None => forall|j: int| lo <= j < hi ==> data@[j] != b,
        },
{
    let mut i: usize = hi;
    while i > lo
        invariant
            lo <= i <= hi <= data.len(),
            forall|j: int| i <= j < hi ==> data@[j] != b,
        decreases i,
    {
        if data[i - 1] == b {
            return Some(i - 1);
        }
        i = i - 1;
    }
    None
}

/// Whether the byte sequence `s` ends with `suffix`.
pub open spec fn ends_with(s: Seq<u8>, suffix: Seq<u8>) -> bool {
    s.len() >= suffix.len() && s.skip(s.len() - suffix.len()) == suffix
}

/// Whether `data` ends with `suffix`, byte for byte.
pub fn bytes_end_with(data: &[u8], suffix: &[u8]) -> (r: bool)
    ensures
        r == ends_with(data@, suffix@),
{
    if data.len() < suffix.len() {
        assert(!ends_with(data@, suffix@));
        return false;
    }
    let off: usize = data.len() - suffix.len();
    let mut i: usize = 0;
    while i < suffix.len()
        invariant
            0 <= i <= suffix.len(),
            off == data.len() - suffix.len(),
            suffix.len() <= data.len(),
            forall|j: int| 0 <= j < i ==> data@[off + j] == suffix@[j],
        decreases suffix.len() - i,
    {
        if data[off + i] != suffix[i] {
            proof {
                let tail = data@.skip(off as int);
                assert(tail[i as int] == data@[off + i]);
                assert(tail != suffix@);
            }
            return false;
        }
        i = i + 1;
    }
    proof {
        assert(data@.skip(off as int) =~= suffix@);
    }
    true
}

/// Whether the byte slices are equal.
pub fn bytes_eq(a: &[u8], b: &[u8]) -> (r: bool)
    ensures
        r == (a@ == b@),
{
    if a.len() != b.len() {
        return false;
    }
    let mut i: usize = 0;
    while i < a.len()
        invariant
            0 <= i <= a.len(),
            a.len() == b.len(),
            forall|j: int| 0 <= j < i ==> a@[j] == b@[j],
        decreases a.len() - i,
    {
        if a[i] != b[i] {
            return false;
        }
        i = i + 1;
    }
    proof {
        assert(a@ =~= b@);
    }
    true
}

} // verus!
