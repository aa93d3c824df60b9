//! Log-file format detection and the CRI message boundary.
//!
//! Files whose name ends in `-json.log` hold Docker-JSON lines; every other
//! file holds CRI lines of the shape `<timestamp> <stream> <tag> <message>`.

use vstd::prelude::*;

use crate::scan;

verus! {

/// The two on-disk formats of a container log file.
#[derive(Clone, Copy, PartialEq, Eq, Structural, Debug)]
pub enum FileFormat {
    CRI,
    Docker,
}

/// Filename suffix that marks the Docker-JSON format.
pub open spec fn docker_suffix() -> Seq<u8> {
    seq![45u8, 106u8, 115u8, 111u8, 110u8, 46u8, 108u8, 111u8, 103u8]
}

/// Format of the file named `name`, by its suffix.
pub open spec fn spec_format_for_filename(name: Seq<u8>) -> FileFormat {
    if scan::ends_with(name, docker_suffix()) {
        FileFormat::Docker
    } else {
        FileFormat::CRI
    }
}

/// Determines the format of a log file from its name: a `-json.log` suffix
/// means Docker-JSON, anything else CRI.
pub fn format_for_filename(name: &[u8]) -> (r: FileFormat)
    ensures
        r == spec_format_for_filename(name@),
{
    let suffix: [u8; 9] = [45u8, 106u8, 115u8, 111u8, 110u8, 46u8, 108u8, 111u8, 103u8];
    proof {
        assert(suffix@ =~= docker_suffix());
    }
    if scan::bytes_end_with(name, suffix.as_slice()) {
        FileFormat::Docker
    } else {
        FileFormat::CRI
    }
}

/// Start of the message portion of a CRI line: ten bytes past the first space
/// at or after byte 19 (the shortest RFC 3339 timestamp ends there), skipping
/// over the stream and tag tokens.  `None` when the line is too short or holds
/// no such space.
pub open spec fn cri_message_start(line: Seq<u8>) -> Option<int> {
    if line.len() < 19 {
        None
    } else {
        let sp = 19 + scan::first_occ(line.skip(19), 32u8) as int;
        if sp >= line.len() {
            None
        } else {
            let start = sp + 10;
            if start >= line.len() {
                None
            } else {
                Some(start)
            }
        }
    }
}

/// Message portion of a CRI line, per `cri_message_start`.
pub open spec fn spec_cri_message(line: Seq<u8>) -> Option<Seq<u8>> {
    match cri_message_start(line) {
        Some(start) => Some(line.skip(start)),
        None => None,
    }
}

/// Extracts the message portion of a CRI line
/// (`<timestamp> <stdout|stderr> <P|F> <message>`).
pub fn extract_message_cri(line: &[u8]) -> (r: Option<Vec<u8>>)
    ensures
        match r {
            Some(m) => spec_cri_message(line@) == Some(m@),
            None => spec_cri_message(line@) is None,
        },
{
    if line.len() < 19 {
        return None;
    }
    let sp = scan::find_byte(line, 19, 32u8);
    proof {
        assert(line@.skip(19) =~= line@.subrange(19, line@.len() as int));
    }
    if sp >= line.len() {
        return None;
    }
    if line.len() - sp <= 10 {
        assert(cri_message_start(line@) is None);
        return None;
    }
    let start = sp + 10;
    let m = scan::copy_range(line, start, line.len());
    proof {
        assert(line@.subrange(start as int, line@.len() as int) =~= line@.skip(start as int));
    }
    Some(m)
}

} // verus!
