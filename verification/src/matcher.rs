//! Line matchers: the pass-through matcher accepts every line once; the
//! regex matcher tests only the message portion of each line, with every
//! space of the query widened to tolerate ANSI colour codes around it.

use vstd::prelude::*;

use crate::file_format;
use crate::file_format::FileFormat;
use crate::scan;
use crate::timestamp;

verus! {

/// Whether the pattern compiles and matches the haystack: `None` when the
/// pattern is not valid UTF-8 or not a valid regular expression, else
/// whether a match exists.
pub uninterp spec fn regex_line_match(pattern: Seq<u8>, haystack: Seq<u8>) -> Option<bool>;

/// Relies on regex's `bytes::Regex::new` and `is_match`: the outcome depends
/// on the pattern and haystack bytes alone.
#[verifier::external_body]
fn regex_is_match(pattern: &[u8], haystack: &[u8]) -> (r: Option<bool>)
    ensures
        r == regex_line_match(pattern@, haystack@),
{
    let text = match core::str::from_utf8(pattern) {
        Ok(text) => text,
        Err(_) => return None,
    };
    match regex::bytes::Regex::new(text) {
        Ok(re) => Some(re.is_match(haystack)),
        Err(_) => None,
    }
}

/// Matches every line exactly once: any haystack offered from its start.
pub struct PassThroughMatcher {}

impl PassThroughMatcher {
    /// Creates a pass-through matcher.
    pub fn new() -> (r: Self) {
        PassThroughMatcher {  }
    }

    /// The whole haystack matches when offered from its start; later offsets
    /// yield nothing, so one line never matches twice.
    pub fn find_at(&self, haystack: &[u8], start: usize) -> (r: Option<(usize, usize)>)
        requires
            start <= haystack.len(),
        ensures
            r == if start > 0 {
                Option::<(usize, usize)>::None
            } else {
                Some((start, haystack@.len() as usize))
            },
    {
        if start > 0 {
            None
        } else {
            Some((start, haystack.len()))
        }
    }
}

impl Default for PassThroughMatcher {
    /// An empty matcher, as `new` builds.
    fn default() -> (r: Self) {
        PassThroughMatcher {  }
    }
}

/// The regex source that replaces a literal space in a query: optional ANSI
/// colour codes, a whitespace class, optional ANSI colour codes.
pub open spec fn ansi_ws_pattern() -> Seq<u8> {
    seq![
        40u8, 63u8, 58u8, 92u8, 120u8, 49u8, 66u8, 92u8, 91u8, 91u8, 48u8, 45u8, 57u8, 59u8,
        93u8, 42u8, 91u8, 109u8, 75u8, 93u8, 41u8, 42u8, 92u8, 115u8, 40u8, 63u8, 58u8, 92u8,
        120u8, 49u8, 66u8, 92u8, 91u8, 91u8, 48u8, 45u8, 57u8, 59u8, 93u8, 42u8, 91u8, 109u8,
        75u8, 93u8, 41u8, 42u8,
    ]
}

/// The query with every space replaced by the ANSI-tolerant pattern.
pub open spec fn ansi_tolerant_pattern(p: Seq<u8>) -> Seq<u8>
    decreases p.len(),
{
    if p.len() == 0 {
        Seq::empty()
    } else {
        (if p[0] == 32 {
            ansi_ws_pattern()
        } else {
            seq![p[0]]
        }) + ansi_tolerant_pattern(p.skip(1))
    }
}

/// Builds the ANSI-tolerant regex source for a query.
pub fn build_ansi_tolerant_pattern(query: &[u8]) -> (r: Vec<u8>)
    ensures
        r@ == ansi_tolerant_pattern(query@),
{
    let ansi: [u8; 46] = [
        40u8, 63u8, 58u8, 92u8, 120u8, 49u8, 66u8, 92u8, 91u8, 91u8, 48u8, 45u8, 57u8, 59u8,
        93u8, 42u8, 91u8, 109u8, 75u8, 93u8, 41u8, 42u8, 92u8, 115u8, 40u8, 63u8, 58u8, 92u8,
        120u8, 49u8, 66u8, 92u8, 91u8, 91u8, 48u8, 45u8, 57u8, 59u8, 93u8, 42u8, 91u8, 109u8,
        75u8, 93u8, 41u8, 42u8,
    ];
    proof {
        assert(ansi@ =~= ansi_ws_pattern());
    }
    let mut out: Vec<u8> = Vec::new();
    let mut i: usize = 0;
    proof {
        assert(query@.skip(0) =~= query@);
    }
    while i < query.len()
        invariant
            i <= query.len(),
            ansi@ == ansi_ws_pattern(),
            ansi_tolerant_pattern(query@) == out@ + ansi_tolerant_pattern(
                query@.skip(i as int),
            ),
        decreases query.len() - i,
    {
        let ghost rest = query@.skip(i as int);
        proof {
            assert(rest[0] == query@[i as int]);
            assert(rest.skip(1) =~= query@.skip(i + 1));
        }
        if query[i] == 32 {
            let mut chunk = scan::copy_range(ansi.as_slice(), 0, ansi.len());
            proof {
                assert(chunk@ =~= ansi_ws_pattern());
            }
            out.append(&mut chunk);
        } else {
            out.push(query[i]);
            proof {
                assert(out@ =~= (out@.drop_last()) + seq![query@[i as int]]);
            }
        }
        i = i + 1;
    }
    proof {
        assert(query@.skip(query@.len() as int) =~= Seq::<u8>::empty());
        assert(out@ + Seq::<u8>::empty() =~= out@);
    }
    out
}

/// The message portion a matcher tests: for CRI the bytes past the stream
/// and tag tokens, for Docker-JSON the decoded `"log"` field.
pub open spec fn spec_msg_of(line: Seq<u8>, fmt: FileFormat) -> Option<Seq<u8>> {
    match fmt {
        FileFormat::CRI => file_format::spec_cri_message(line),
        FileFormat::Docker => match timestamp::docker_fields(line) {
            Some(p) => Some(p.1),
            None => None,
        },
    }
}

/// Whether the line's message matches the compiled query.  Lines without a
/// recognisable message, and queries that do not compile, match nothing.
pub open spec fn spec_line_matches(pattern: Seq<u8>, line: Seq<u8>, fmt: FileFormat) -> bool {
    match spec_msg_of(line, fmt) {
        None => false,
        Some(msg) => regex_line_match(pattern, msg) == Some(true),
    }
}

/// Format-aware regex matcher over the message portion of each line.
pub struct LogFileRegexMatcher {
    pattern: Vec<u8>,
    format: FileFormat,
}

impl LogFileRegexMatcher {
    /// The ANSI-tolerant regex source the matcher was built with.
    pub closed spec fn spec_pattern(self) -> Seq<u8> {
        self.pattern@
    }

    /// The format the matcher was built for.
    pub closed spec fn spec_format(self) -> FileFormat {
        self.format
    }

    /// Builds a matcher for `query`, widening each space to tolerate ANSI
    /// colour codes.  `None` when the widened query does not compile.
    pub fn new(query: &[u8], format: FileFormat) -> (r: Option<Self>)
        ensures
            match r {
                Some(m) => m.spec_pattern() == ansi_tolerant_pattern(query@)
                    && m.spec_format() == format && regex_line_match(
                    ansi_tolerant_pattern(query@),
                    Seq::<u8>::empty(),
                ) is Some,
                None => regex_line_match(ansi_tolerant_pattern(query@), Seq::<u8>::empty())
                    is None,
            },
    {
        let pattern = build_ansi_tolerant_pattern(query);
        let empty: Vec<u8> = Vec::new();
        match regex_is_match(pattern.as_slice(), empty.as_slice()) {
            Some(_) => Some(LogFileRegexMatcher { pattern, format }),
            None => None,
        }
    }

    /// Builds a matcher without checking that the widened query compiles; a
    /// query that does not compile simply matches nothing.
    pub fn new_unchecked(query: &[u8], format: FileFormat) -> (r: Self)
        ensures
            r.spec_pattern() == ansi_tolerant_pattern(query@),
            r.spec_format() == format,
    {
        let pattern = build_ansi_tolerant_pattern(query);
        LogFileRegexMatcher { pattern, format }
    }

    /// Whether the line's message matches the query.
    pub fn matches_line(&self, line: &[u8]) -> (r: bool)
        ensures
            r == spec_line_matches(self.spec_pattern(), line@, self.spec_format()),
    {
        let msg: Option<Vec<u8>> = match self.format {
            FileFormat::CRI => file_format::extract_message_cri(line),
            FileFormat::Docker => match timestamp::docker_json_fields(line) {
                Some(p) => Some(p.1),
                None => None,
            },
        };
        match msg {
            None => false,
            Some(m) => match regex_is_match(self.pattern.as_slice(), m.as_slice()) {
                Some(b) => b,
                None => false,
            },
        }
    }
}

} // verus!
