//! Status values the core hands to the transport: a code and a message.

use vstd::prelude::*;

use crate::scan;

verus! {

/// The status codes of the terminal errors the core produces; a stream that
/// completes normally carries no status at all.
#[derive(Debug, Clone, Copy, PartialEq, Eq, Structural)]
pub enum StatusCode {
    Unauthenticated,
    PermissionDenied,
    NotFound,
    Unavailable,
    Unknown,
}

/// A terminal status: the code and its rendered message.
#[derive(Debug, Clone, PartialEq)]
pub struct AgentStatus {
    pub code: StatusCode,
    pub message: Vec<u8>,
}

/// The bytes of `Server is shutting down`, the message every cancelled
/// stream ends with.
pub open spec fn shutdown_message() -> Seq<u8> {
    seq![
        83u8, 101u8, 114u8, 118u8, 101u8, 114u8, 32u8, 105u8, 115u8, 32u8, 115u8, 104u8, 117u8,
        116u8, 116u8, 105u8, 110u8, 103u8, 32u8, 100u8, 111u8, 119u8, 110u8,
    ]
}

/// The bytes of `server shutting down`, the message of the stream wrapper.
pub open spec fn wrap_shutdown_message() -> Seq<u8> {
    seq![
        115u8, 101u8, 114u8, 118u8, 101u8, 114u8, 32u8, 115u8, 104u8, 117u8, 116u8, 116u8,
        105u8, 110u8, 103u8, 32u8, 100u8, 111u8, 119u8, 110u8,
    ]
}

impl AgentStatus {
    /// The terminal status of a cancelled record or watch stream.
    pub fn shutdown() -> (r: AgentStatus)
        ensures
            r.code == StatusCode::Unavailable,
            r.message@ == shutdown_message(),
    {
        let m: [u8; 23] = [
            83u8, 101u8, 114u8, 118u8, 101u8, 114u8, 32u8, 105u8, 115u8, 32u8, 115u8, 104u8,
            117u8, 116u8, 116u8, 105u8, 110u8, 103u8, 32u8, 100u8, 111u8, 119u8, 110u8,
        ];
        let message = scan::copy_range(m.as_slice(), 0, m.len());
        proof {
            assert(message@ =~= shutdown_message());
        }
        AgentStatus { code: StatusCode::Unavailable, message }
    }

    /// The terminal status the stream wrapper emits on cancellation.
    pub fn wrap_shutdown() -> (r: AgentStatus)
        ensures
            r.code == StatusCode::Unavailable,
            r.message@ == wrap_shutdown_message(),
    {
        let m: [u8; 20] = [
            115u8, 101u8, 114u8, 118u8, 101u8, 114u8, 32u8, 115u8, 104u8, 117u8, 116u8, 116u8,
            105u8, 110u8, 103u8, 32u8, 100u8, 111u8, 119u8, 110u8,
        ];
        let message = scan::copy_range(m.as_slice(), 0, m.len());
        proof {
            assert(message@ =~= wrap_shutdown_message());
        }
        AgentStatus { code: StatusCode::Unavailable, message }
    }
}

} // verus!
