//! Timestamps of log lines, as nanoseconds since the Unix epoch.
//!
//! RFC 3339 text and Docker-JSON objects are decoded by outside crates; the
//! two calls sit behind trusted wrappers whose results carry names, and
//! everything downstream is verified against those names.

use vstd::prelude::*;

use crate::file_format::FileFormat;
use crate::scan;

verus! {

/// Instant that the RFC 3339 text `s` denotes, in nanoseconds since the Unix
/// epoch; `None` when `s` is not valid RFC 3339 (or not valid UTF-8), or the
/// instant does not fit an `i64`.
pub uninterp spec fn rfc3339_nanos(s: Seq<u8>) -> Option<i64>;

/// Relies on chrono's `DateTime::parse_from_rfc3339` and
/// `timestamp_nanos_opt`: the decoded instant depends on the bytes alone.
#[verifier::external_body]
fn chrono_parse_rfc3339(s: &[u8]) -> (r: Option<i64>)
    ensures
        r == rfc3339_nanos(s@),
{
    let text = match core::str::from_utf8(s) {
        Ok(text) => text,
        Err(_) => return None,
    };
    match chrono::DateTime::parse_from_rfc3339(text) {
        Ok(dt) => dt.timestamp_nanos_opt(),
        Err(_) => None,
    }
}

/// Decodes an RFC 3339 timestamp to nanoseconds since the Unix epoch.
pub fn rfc3339_to_nanos(s: &[u8]) -> (r: Option<i64>)
    ensures
        r == rfc3339_nanos(s@),
{
    chrono_parse_rfc3339(s)
}

/// The `"time"` and `"log"` string fields of the JSON object that the Docker
/// line `line` holds, with JSON string escapes decoded; `None` when the line
/// is not a JSON object carrying both fields as strings.
pub uninterp spec fn docker_fields(line: Seq<u8>) -> Option<(Seq<u8>, Seq<u8>)>;

/// Relies on serde_json: parses the line as a JSON object and hands back its
/// top-level `"time"` and `"log"` string fields; the result depends on the
/// bytes alone.
#[verifier::external_body]
pub(crate) fn docker_json_fields(line: &[u8]) -> (r: Option<(Vec<u8>, Vec<u8>)>)
    ensures
        match r {
            Some(p) => docker_fields(line@) == Some((p.0@, p.1@)),
            None => docker_fields(line@) is None,
        },
{
    let v: serde_json::Value = serde_json::from_slice(line).ok()?;
    let time = v.get("time")?.as_str()?;
    let log = v.get("log")?.as_str()?;
    Some((time.as_bytes().to_vec(), log.as_bytes().to_vec()))
}

/// Timestamp that leads the line `line` of format `fmt`: for CRI the RFC 3339
/// token before the first space (a space must be present), for Docker-JSON
/// the `"time"` field of the object.
pub open spec fn line_timestamp(line: Seq<u8>, fmt: FileFormat) -> Option<i64> {
    match fmt {
        FileFormat::CRI => {
            let sp = scan::first_occ(line, 32u8) as int;
            if sp >= line.len() {
                None
            } else {
                rfc3339_nanos(line.take(sp))
            }
        },
        FileFormat::Docker => match docker_fields(line) {
            Some(p) => rfc3339_nanos(p.0),
            None => None,
        },
    }
}

/// Parses the leading timestamp of a log line, per `line_timestamp`.
pub fn parse_timestamp(line: &[u8], fmt: FileFormat) -> (r: Option<i64>)
    ensures
        r == line_timestamp(line@, fmt),
{
    match fmt {
        FileFormat::CRI => {
            let sp = scan::find_byte(line, 0, 32u8);
            proof {
                assert(line@.skip(0) =~= line@);
            }
            if sp >= line.len() {
                None
            } else {
                let token = scan::copy_range(line, 0, sp);
                proof {
                    assert(line@.subrange(0, sp as int) =~= line@.take(sp as int));
                }
                rfc3339_to_nanos(token.as_slice())
            }
        },
        FileFormat::Docker => match docker_json_fields(line) {
            Some(p) => rfc3339_to_nanos(p.0.as_slice()),
            None => None,
        },
    }
}

} // verus!
