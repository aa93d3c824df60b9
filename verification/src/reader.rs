//! Reverse line reader: emits the lines of a byte range in reverse order.
//!
//! Each emitted line carries a trailing newline except the earliest one, a
//! newline at the very end of the range is skipped, and empty lines are not
//! emitted.  `rev_lines` is the exact model of the emission; `next_line`
//! produces it element by element.

use vstd::prelude::*;

use crate::scan;

verus! {

/// The lines that remain to be emitted for the suffix `s` of a range after
/// its first newline: every non-empty newline-separated segment of `s`, in
/// file order, each with a newline appended.
pub open spec fn emits_after(s: Seq<u8>) -> Seq<Seq<u8>>
    decreases s.len(),
{
    if s.len() == 0 {
        Seq::empty()
    } else {
        let i = scan::first_nl(s) as int;
        let head: Seq<Seq<u8>> = if i > 0 {
            seq![s.take(i).push(scan::NL)]
        } else {
            Seq::empty()
        };
        let rest: Seq<Seq<u8>> = if i < s.len() {
            emits_after(s.skip(i + 1))
        } else {
            Seq::empty()
        };
        head + rest
    }
}

/// All lines the reader emits for the range `s`, in file order: the segment
/// before the first newline stays bare, every later non-empty segment gets a
/// newline appended, empty segments are dropped.
pub open spec fn fwd_emits(s: Seq<u8>) -> Seq<Seq<u8>> {
    if s.len() == 0 {
        Seq::empty()
    } else {
        let i = scan::first_nl(s) as int;
        let head: Seq<Seq<u8>> = if i > 0 {
            seq![s.take(i)]
        } else {
            Seq::empty()
        };
        let rest: Seq<Seq<u8>> = if i < s.len() {
            emits_after(s.skip(i + 1))
        } else {
            Seq::empty()
        };
        head + rest
    }
}

/// The lines the reader emits, in emission (reverse file) order.
pub open spec fn rev_lines(s: Seq<u8>) -> Seq<Seq<u8>> {
    fwd_emits(s).reverse()
}

/// A sequence without newlines emits itself once (with a newline appended,
/// as it sits after a newline).
proof fn lemma_emits_after_no_nl(s: Seq<u8>)
    requires
        forall|j: int| 0 <= j < s.len() ==> s[j] != scan::NL,
    ensures
        emits_after(s) == if s.len() > 0 {
            seq![s.push(scan::NL)]
        } else {
            Seq::<Seq<u8>>::empty()
        },
{
    scan::lemma_first_occ_is(s, scan::NL, s.len() as int);
    if s.len() > 0 {
        assert(s.take(s.len() as int) =~= s);
        assert(emits_after(s) =~= seq![s.push(scan::NL)]);
    }
}

/// Splitting `emits_after` at the last newline, when bytes follow it.
proof fn lemma_emits_after_split(s: Seq<u8>, p: int)
    requires
        0 <= p < s.len(),
        s[p] == scan::NL,
        p + 1 < s.len(),
        forall|j: int| p < j < s.len() ==> s[j] != scan::NL,
    ensures
        emits_after(s) == emits_after(s.take(p)).push(s.skip(p + 1).push(scan::NL)),
    decreases s.len(),
{
    let i = scan::first_nl(s) as int;
    scan::lemma_first_occ(s, scan::NL);
    assert(i <= p);
    let d = s.skip(p + 1);
    if i == p {
        assert forall|j: int| 0 <= j < d.len() implies d[j] != scan::NL by {
            assert(d[j] == s[p + 1 + j]);
        }
        lemma_emits_after_no_nl(d);
        assert(s.skip(i + 1) == d);
        assert forall|j: int| 0 <= j < p implies s.take(p)[j] != scan::NL by {
            assert(s.take(p)[j] == s[j]);
        }
        scan::lemma_first_occ_is(s.take(p), scan::NL, p);
        lemma_emits_after_no_nl(s.take(p));
        if p > 0 {
            assert(s.take(p).take(p) =~= s.take(p));
            assert(s.take(i).push(scan::NL) == s.take(p).push(scan::NL));
            assert(emits_after(s) =~= emits_after(s.take(p)).push(d.push(scan::NL)));
        } else {
            assert(emits_after(s) =~= emits_after(s.take(p)).push(d.push(scan::NL)));
        }
    } else {
        let t = s.skip(i + 1);
        assert forall|j: int| p - i - 1 < j < t.len() implies t[j] != scan::NL by {
            assert(t[j] == s[i + 1 + j]);
        }
        assert(t[p - i - 1] == s[p]);
        lemma_emits_after_split(t, p - i - 1);
        assert(t.take(p - i - 1) =~= s.take(p).skip(i + 1));
        assert(t.skip(p - i) =~= s.skip(p + 1));
        assert forall|j: int| 0 <= j < i implies s.take(p)[j] != scan::NL by {
            assert(s.take(p)[j] == s[j]);
        }
        scan::lemma_first_occ_is(s.take(p), scan::NL, i);
        assert(s.take(p).take(i) =~= s.take(i));
        assert(emits_after(s) =~= emits_after(s.take(p)).push(s.skip(p + 1).push(scan::NL)));
    }
}

/// A trailing newline changes nothing in `emits_after`.
proof fn lemma_emits_after_drop_nl(s: Seq<u8>)
    requires
        s.len() > 0,
        s.last() == scan::NL,
    ensures
        emits_after(s) == emits_after(s.drop_last()),
    decreases s.len(),
{
    let i = scan::first_nl(s) as int;
    scan::lemma_first_occ(s, scan::NL);
    assert(i <= s.len() - 1);
    if i == s.len() - 1 {
        assert(s.skip(i + 1) =~= Seq::<u8>::empty());
        assert(emits_after(s.skip(i + 1)) == Seq::<Seq<u8>>::empty());
        assert(s.drop_last() =~= s.take(i));
        assert forall|j: int| 0 <= j < i implies s.take(i)[j] != scan::NL by {
            assert(s.take(i)[j] == s[j]);
        }
        scan::lemma_first_occ_is(s.take(i), scan::NL, i);
        lemma_emits_after_no_nl(s.take(i));
        if i > 0 {
            assert(s.take(i).take(i) =~= s.take(i));
            assert(emits_after(s.take(i)) == seq![s.take(i).push(scan::NL)]);
            assert(emits_after(s) =~= seq![s.take(i).push(scan::NL)] + Seq::<Seq<u8>>::empty());
            assert(seq![s.take(i).push(scan::NL)] + Seq::<Seq<u8>>::empty() =~= seq![s.take(i).push(scan::NL)]);
            assert(emits_after(s) =~= emits_after(s.drop_last()));
        } else {
            assert(emits_after(s.take(i)).len() == 0);
            assert(emits_after(s) =~= Seq::<Seq<u8>>::empty() + Seq::<Seq<u8>>::empty());
            assert(emits_after(s) =~= emits_after(s.drop_last()));
        }
    } else {
        let t = s.skip(i + 1);
        assert(t.last() == s.last());
        lemma_emits_after_drop_nl(t);
        assert forall|j: int| 0 <= j < i implies s.drop_last()[j] != scan::NL by {
            assert(s.drop_last()[j] == s[j]);
        }
        assert(s.drop_last()[i] == s[i]);
        scan::lemma_first_occ_is(s.drop_last(), scan::NL, i);
        assert(s.drop_last().take(i) =~= s.take(i));
        assert(s.drop_last().skip(i + 1) =~= t.drop_last());
        assert(emits_after(s) =~= emits_after(s.drop_last()));
    }
}

/// A trailing newline changes nothing in the emitted lines.
pub proof fn lemma_fwd_emits_drop_nl(s: Seq<u8>)
    requires
        s.len() > 0,
        s.last() == scan::NL,
    ensures
        fwd_emits(s) == fwd_emits(s.drop_last()),
{
    let i = scan::first_nl(s) as int;
    scan::lemma_first_occ(s, scan::NL);
    assert(i <= s.len() - 1);
    if i == s.len() - 1 {
        assert(s.skip(i + 1) =~= Seq::<u8>::empty());
        assert(s.drop_last() =~= s.take(i));
        assert forall|j: int| 0 <= j < i implies s.take(i)[j] != scan::NL by {
            assert(s.take(i)[j] == s[j]);
        }
        scan::lemma_first_occ_is(s.take(i), scan::NL, i);
        if i > 0 {
            assert(s.take(i).take(i) =~= s.take(i));
            assert(fwd_emits(s) =~= fwd_emits(s.drop_last()));
        } else {
            assert(fwd_emits(s) =~= fwd_emits(s.drop_last()));
        }
    } else {
        let t = s.skip(i + 1);
        assert(t.last() == s.last());
        lemma_emits_after_drop_nl(t);
        assert forall|j: int| 0 <= j < i implies s.drop_last()[j] != scan::NL by {
            assert(s.drop_last()[j] == s[j]);
        }
        assert(s.drop_last()[i] == s[i]);
        scan::lemma_first_occ_is(s.drop_last(), scan::NL, i);
        assert(s.drop_last().take(i) =~= s.take(i));
        assert(s.drop_last().skip(i + 1) =~= t.drop_last());
        assert(fwd_emits(s) =~= fwd_emits(s.drop_last()));
    }
}

/// Splitting the emitted lines at the last newline, when bytes follow it:
/// the bytes after it form the latest line.
pub proof fn lemma_fwd_emits_split(s: Seq<u8>, p: int)
    requires
        0 <= p < s.len(),
        s[p] == scan::NL,
        p + 1 < s.len(),
        forall|j: int| p < j < s.len() ==> s[j] != scan::NL,
    ensures
        fwd_emits(s) == fwd_emits(s.take(p)).push(s.skip(p + 1).push(scan::NL)),
{
    let i = scan::first_nl(s) as int;
    scan::lemma_first_occ(s, scan::NL);
    assert(i <= p);
    let d = s.skip(p + 1);
    if i == p {
        assert forall|j: int| 0 <= j < d.len() implies d[j] != scan::NL by {
            assert(d[j] == s[p + 1 + j]);
        }
        lemma_emits_after_no_nl(d);
        assert(s.skip(i + 1) == d);
        assert forall|j: int| 0 <= j < p implies s.take(p)[j] != scan::NL by {
            assert(s.take(p)[j] == s[j]);
        }
        scan::lemma_first_occ_is(s.take(p), scan::NL, p);
        if p > 0 {
            assert(s.take(p).take(p) =~= s.take(p));
            assert(fwd_emits(s.take(p)) =~= seq![s.take(p)]);
            assert(fwd_emits(s) =~= fwd_emits(s.take(p)).push(d.push(scan::NL)));
        } else {
            assert(fwd_emits(s.take(p)) =~= Seq::<Seq<u8>>::empty());
            assert(fwd_emits(s) =~= fwd_emits(s.take(p)).push(d.push(scan::NL)));
        }
    } else {
        let t = s.skip(i + 1);
        assert forall|j: int| p - i - 1 < j < t.len() implies t[j] != scan::NL by {
            assert(t[j] == s[i + 1 + j]);
        }
        assert(t[p - i - 1] == s[p]);
        lemma_emits_after_split(t, p - i - 1);
        assert(t.take(p - i - 1) =~= s.take(p).skip(i + 1));
        assert(t.skip(p - i) =~= s.skip(p + 1));
        assert forall|j: int| 0 <= j < i implies s.take(p)[j] != scan::NL by {
            assert(s.take(p)[j] == s[j]);
        }
        scan::lemma_first_occ_is(s.take(p), scan::NL, i);
        assert(s.take(p).take(i) =~= s.take(i));
        assert(fwd_emits(s) =~= fwd_emits(s.take(p)).push(s.skip(p + 1).push(scan::NL)));
    }
}

/// A non-empty sequence without newlines is emitted once, bare.
pub proof fn lemma_fwd_emits_no_nl(s: Seq<u8>)
    requires
        forall|j: int| 0 <= j < s.len() ==> s[j] != scan::NL,
    ensures
        fwd_emits(s) == if s.len() > 0 {
            seq![s]
        } else {
            Seq::<Seq<u8>>::empty()
        },
{
    scan::lemma_first_occ_is(s, scan::NL, s.len() as int);
    if s.len() > 0 {
        assert(s.take(s.len() as int) =~= s);
        assert(fwd_emits(s) =~= seq![s]);
    }
}


/// Concatenating `emits_after` restores the suffix itself, when it ends at a
/// line boundary and holds no empty line.
proof fn lemma_emits_after_flatten(s: Seq<u8>)
    requires
        s.len() > 0 ==> s[0] != scan::NL,
        s.len() > 0 ==> s.last() == scan::NL,
        forall|i: int| 0 < i < s.len() ==> !(#[trigger] s[i] == scan::NL && s[i - 1] == scan::NL),
    ensures
        emits_after(s).flatten() == s,
    decreases s.len(),
{
    if s.len() == 0 {
        assert(emits_after(s).flatten() =~= s);
    } else {
        let i = scan::first_nl(s) as int;
        scan::lemma_first_occ(s, scan::NL);
        assert(i <= s.len() - 1);
        assert(i > 0);
        let t = s.skip(i + 1);
        assert(t.len() > 0 ==> t[0] == s[i + 1] && t[0] != scan::NL);
        assert(t.len() > 0 ==> t.last() == s.last());
        assert forall|j: int| 0 < j < t.len() implies !(#[trigger] t[j] == scan::NL && t[j - 1]
            == scan::NL) by {
            assert(t[j] == s[i + 1 + j]);
            assert(t[j - 1] == s[i + j]);
        }
        lemma_emits_after_flatten(t);
        let head = s.take(i).push(scan::NL);
        assert(emits_after(s) == seq![head] + emits_after(t));
        assert((seq![head] + emits_after(t)).drop_first() =~= emits_after(t));
        assert(emits_after(s).flatten() == head + emits_after(t).flatten());
        assert(head + t =~= s);
    }
}

/// The emitted lines, put back in file order and concatenated, restore the
/// range with the terminator of its first line removed: nothing else is lost
/// or added.  Holds for a range that ends at a line boundary and holds no
/// empty line.
pub proof fn lemma_rev_lines_round_trip(s: Seq<u8>)
    requires
        s.len() > 0 ==> s[0] != scan::NL,
        s.len() > 0 ==> s.last() == scan::NL,
        forall|i: int| 0 < i < s.len() ==> !(#[trigger] s[i] == scan::NL && s[i - 1] == scan::NL),
    ensures
        s.len() == 0 ==> rev_lines(s).len() == 0,
        s.len() > 0 ==> rev_lines(s).reverse().flatten() == s.take(scan::first_nl(s) as int)
            + s.skip(scan::first_nl(s) as int + 1),
{
    if s.len() == 0 {
    } else {
        assert(rev_lines(s).reverse() =~= fwd_emits(s)) by {
            assert(fwd_emits(s).reverse().reverse() =~= fwd_emits(s));
        }
        let i = scan::first_nl(s) as int;
        scan::lemma_first_occ(s, scan::NL);
        assert(i <= s.len() - 1);
        assert(i > 0);
        let t = s.skip(i + 1);
        assert(t.len() > 0 ==> t[0] == s[i + 1] && t[0] != scan::NL);
        assert(t.len() > 0 ==> t.last() == s.last());
        assert forall|j: int| 0 < j < t.len() implies !(#[trigger] t[j] == scan::NL && t[j - 1]
            == scan::NL) by {
            assert(t[j] == s[i + 1 + j]);
            assert(t[j - 1] == s[i + j]);
        }
        lemma_emits_after_flatten(t);
        let head = s.take(i);
        assert(fwd_emits(s) == seq![head] + emits_after(t));
        assert((seq![head] + emits_after(t)).drop_first() =~= emits_after(t));
        assert(fwd_emits(s).flatten() == head + emits_after(t).flatten());
    }
}

/// Finds the last newline in `data[lo..hi)`.
fn rfind_nl(data: &[u8], lo: usize, hi: usize) -> (r: Option<usize>)
    requires
        lo <= hi <= data.len(),
    ensures
        match r {
            Some(p) => lo <= p < hi && data@[p as int] == scan::NL && forall|j: int|
                p < j < hi ==> data@[j] != scan::NL,
            None => forall|j: int| lo <= j < hi ==> data@[j] != scan::NL,
        },
{
    let mut i: usize = hi;
    while i > lo
        invariant
            lo <= i <= hi <= data.len(),
            forall|j: int| i <= j < hi ==> data@[j] != scan::NL,
        decreases i,
    {
        if data[i - 1] == scan::NL {
            return Some(i - 1);
        }
        i = i - 1;
    }
    None
}

/// Reads the lines of `data[min_pos..max_pos)` in reverse order.
pub struct ReverseLineReader {
    data: Vec<u8>,
    min_pos: usize,
    end: usize,
    current_line: Vec<u8>,
    line_pos: usize,
}

impl ReverseLineReader {
    /// The bytes the reader was created over.
    pub closed spec fn spec_data(self) -> Seq<u8> {
        self.data@
    }

    /// The lower bound of the range.
    pub closed spec fn spec_min(self) -> int {
        self.min_pos as int
    }

    /// Bounds are in place: the unread region sits inside the data and the
    /// byte cursor inside the line being served.
    pub closed spec fn wf(self) -> bool {
        self.min_pos <= self.end <= self.data@.len() && self.line_pos
            <= self.current_line@.len()
    }

    /// The rest of the line currently being served by `read`.
    pub closed spec fn spec_serving(self) -> Seq<u8> {
        self.current_line@.skip(self.line_pos as int)
    }

    /// The bytes `read` still has to serve: the rest of the line being
    /// served, then every remaining line in emission order.
    pub closed spec fn pending(self) -> Seq<u8> {
        self.spec_serving() + rev_lines(self.region()).flatten()
    }

    /// The bytes not yet emitted.
    pub closed spec fn region(self) -> Seq<u8> {
        self.data@.subrange(self.min_pos as int, self.end as int)
    }

    /// The full range the reader was created over.
    pub open spec fn initial_region(data: Seq<u8>, min_pos: int, max_pos: int) -> Seq<u8> {
        data.subrange(min_pos, max_pos)
    }

    /// Creates a reader over `data[min_pos..max_pos)`.  An empty or inverted
    /// range yields no lines.
    pub fn new(data: Vec<u8>, min_pos: usize, max_pos: usize) -> (r: Self)
        requires
            min_pos <= data@.len(),
            max_pos <= data@.len(),
        ensures
            r.wf(),
            r.spec_data() == data@,
            r.spec_min() == min_pos,
            min_pos <= max_pos ==> r.region() == Self::initial_region(
                data@,
                min_pos as int,
                max_pos as int,
            ),
            min_pos > max_pos ==> r.region() == Seq::<u8>::empty(),
            r.pending() == rev_lines(r.region()).flatten(),
    {
        let end = if max_pos < min_pos {
            min_pos
        } else {
            max_pos
        };
        let r = ReverseLineReader {
            data,
            min_pos,
            end,
            current_line: Vec::new(),
            line_pos: 0,
        };
        proof {
            assert(r.current_line@.skip(0) =~= Seq::<u8>::empty());
            assert(r.pending() =~= rev_lines(r.region()).flatten());
        }
        proof {
            if min_pos > max_pos {
                assert(r.region() =~= Seq::<u8>::empty());
            }
        }
        r
    }


    /// Serves up to `max` bytes of the reverse-ordered line stream into a
    /// fresh buffer, pulling the next line whenever the current one is
    /// spent.  The buffer is filled completely while bytes remain; an empty
    /// result means the stream is done.
    pub fn read(&mut self, max: usize) -> (r: Vec<u8>)
        requires
            old(self).wf(),
        ensures
            final(self).wf(),
            r@.len() == if max <= old(self).pending().len() {
                max as int
            } else {
                old(self).pending().len() as int
            },
            r@ == old(self).pending().take(r@.len() as int),
            final(self).pending() == old(self).pending().skip(r@.len() as int),
    {
        let mut out: Vec<u8> = Vec::new();
        proof {
            assert(old(self).pending().take(0) =~= Seq::<u8>::empty());
            assert(old(self).pending().skip(0) =~= old(self).pending());
        }
        loop
            invariant
                self.wf(),
                out@.len() <= max,
                out@.len() <= old(self).pending().len(),
                out@ == old(self).pending().take(out@.len() as int),
                self.pending() == old(self).pending().skip(out@.len() as int),
            decreases max - out@.len(), rev_lines(self.region()).len(),
        {
            if out.len() >= max {
                return out;
            }
            if self.line_pos >= self.current_line.len() {
                let ghost rev_before = rev_lines(self.region());
                let ghost serving_before = self.spec_serving();
                proof {
                    assert(serving_before.len() == 0);
                }
                let ghost pend_entry = self.pending();
                proof {
                    assert(pend_entry =~= rev_before.flatten());
                }
                match self.next_line() {
                    Some(line) => {
                        self.current_line = line;
                        self.line_pos = 0;
                        proof {
                            assert(rev_before.len() > 0);
                            assert(rev_before.first() == rev_before[0]);
                            assert(rev_before.drop_first() =~= rev_before.skip(1));
                            assert(rev_before.flatten() == rev_before[0] + rev_before.skip(
                                1,
                            ).flatten());
                            assert(self.spec_serving() =~= self.current_line@);
                            assert(self.pending() =~= rev_before.flatten());
                            assert(self.pending() == pend_entry);
                        }
                    },
                    None => {
                        proof {
                            assert(rev_before.len() == 0);
                            assert(rev_before.flatten().len() == 0);
                            assert(pend_entry.len() == 0);
                            assert(old(self).pending().len() == out@.len());
                            assert(rev_lines(self.region()).len() == 0);
                            assert(self.pending().len() == 0);
                            assert(self.pending() =~= old(self).pending().skip(
                                out@.len() as int,
                            ));
                            assert(out@ =~= old(self).pending().take(out@.len() as int));
                        }
                        return out;
                    },
                }
            } else {
                let avail = self.current_line.len() - self.line_pos;
                let want = max - out.len();
                let take = if avail < want {
                    avail
                } else {
                    want
                };
                let ghost pend_before = self.pending();
                let ghost out_before = out@;
                let mut chunk = scan::copy_range(
                    self.current_line.as_slice(),
                    self.line_pos,
                    self.line_pos + take,
                );
                proof {
                    assert(chunk@ =~= self.spec_serving().take(take as int));
                    assert(self.spec_serving().take(take as int) =~= pend_before.take(
                        take as int,
                    ));
                }
                out.append(&mut chunk);
                self.line_pos = self.line_pos + take;
                proof {
                    assert(self.spec_serving() =~= pend_before.take(take as int).add(
                        self.spec_serving(),
                    ).skip(take as int));
                    assert(self.pending() =~= pend_before.skip(take as int));
                    assert(out@ =~= old(self).pending().take(out_before.len() + take));
                    assert(self.pending() =~= old(self).pending().skip(
                        out_before.len() + take,
                    ));
                }
            }
        }
    }

    /// Emits the next line in reverse file order: the first element of
    /// `rev_lines` over the unread region, which shrinks accordingly.
    pub fn next_line(&mut self) -> (r: Option<Vec<u8>>)
        requires
            old(self).wf(),
        ensures
            final(self).wf(),
            final(self).spec_data() == old(self).spec_data(),
            final(self).spec_min() == old(self).spec_min(),
            final(self).spec_serving() == old(self).spec_serving(),
            match r {
                Some(line) => {
                    &&& rev_lines(old(self).region()).len() > 0
                    &&& line@ == rev_lines(old(self).region())[0]
                    &&& rev_lines(final(self).region()) == rev_lines(old(self).region()).skip(1)
                },
                None => rev_lines(old(self).region()).len() == 0 && rev_lines(
                    final(self).region(),
                ).len() == 0,
            },
    {
        loop
            invariant
                self.wf(),
                self.data@ == old(self).data@,
                self.min_pos == old(self).min_pos,
                self.spec_serving() == old(self).spec_serving(),
                fwd_emits(self.region()) == fwd_emits(old(self).region()),
            decreases self.end,
        {
            let ghost s = self.region();
            let min = self.min_pos;
            let end = self.end;
            match rfind_nl(self.data.as_slice(), min, end) {
                Some(p) => {
                    if p + 1 == end {
                        proof {
                            assert(s.len() > 0);
                            assert(s.last() == self.data@[p as int]);
                            lemma_fwd_emits_drop_nl(s);
                            assert(s.drop_last() =~= self.data@.subrange(
                                min as int,
                                p as int,
                            ));
                        }
                        self.end = p;
                    } else {
                        let mut line = scan::copy_range(self.data.as_slice(), p + 1, end);
                        line.push(scan::NL);
                        proof {
                            let p_rel = p - min;
                            assert(s[p_rel] == self.data@[p as int]);
                            assert forall|j: int| p_rel < j < s.len() implies s[j]
                                != scan::NL by {
                                assert(s[j] == self.data@[min + j]);
                            }
                            lemma_fwd_emits_split(s, p_rel);
                            assert(s.skip(p_rel + 1) =~= self.data@.subrange(
                                p + 1,
                                end as int,
                            ));
                            assert(s.take(p_rel) =~= self.data@.subrange(min as int, p as int));
                        }
                        self.end = p;
                        proof {
                            let fwd_old = fwd_emits(old(self).region());
                            let fwd_new = fwd_emits(self.region());
                            assert(fwd_old.len() > 0);
                            assert(line@ == fwd_old.last());
                            assert(fwd_new == fwd_old.drop_last());
                            assert(rev_lines(old(self).region())[0] == fwd_old[fwd_old.len()
                                - 1]);
                            assert(rev_lines(self.region()) =~= rev_lines(
                                old(self).region(),
                            ).skip(1));
                        }
                        return Some(line);
                    }
                },
                None => {
                    if end > min {
                        let line = scan::copy_range(self.data.as_slice(), min, end);
                        proof {
                            assert forall|j: int| 0 <= j < s.len() implies s[j] != scan::NL by {
                                assert(s[j] == self.data@[min + j]);
                            }
                            lemma_fwd_emits_no_nl(s);
                        }
                        self.end = min;
                        proof {
                            assert(self.region() =~= Seq::<u8>::empty());
                            let fwd_old = fwd_emits(old(self).region());
                            assert(fwd_old == seq![s]);
                            assert(line@ == fwd_old.last());
                            assert(fwd_emits(self.region()) == fwd_old.drop_last()) by {
                                assert(fwd_old.drop_last() =~= Seq::<Seq<u8>>::empty());
                            }
                            assert(rev_lines(old(self).region())[0] == fwd_old[fwd_old.len()
                                - 1]);
                            assert(rev_lines(self.region()) =~= rev_lines(
                                old(self).region(),
                            ).skip(1));
                        }
                        return Some(line);
                    } else {
                        proof {
                            assert(s.len() == 0);
                            assert(fwd_emits(old(self).region()).len() == 0);
                            assert(rev_lines(old(self).region()).len() == 0);
                            assert(rev_lines(self.region()).len() == 0);
                        }
                        return None;
                    }
                },
            }
        }
    }
}

} // verus!
