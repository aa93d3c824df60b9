//! Shutdown bookkeeping of a streaming endpoint: how each observed event is
//! turned into at most one outgoing item and a decision to stop.
//!
//! The event loop itself runs outside (it waits on channels); it must offer
//! cancellation before inner items, so that end of file is never reported
//! while shutting down, and it stops as soon as this step says so.

use vstd::prelude::*;

use crate::status::AgentStatus;
use crate::status::StatusCode;
use crate::status;

verus! {

/// One observation of the wrapped stream: the shutdown signal fired, the
/// inner stream yielded an item or an error, or it closed.
pub enum WrapEvent<T> {
    Cancelled,
    Item(T),
    InnerError(AgentStatus),
    InnerClosed,
}

/// What the wrapper sends on, if anything, for one observation.
pub enum WrapAction<T> {
    Forward(T),
    EmitError(AgentStatus),
    Close,
}

/// Decides the outgoing item and whether the stream goes on, for one
/// observed event: an item is forwarded and the stream continues; an inner
/// error is forwarded and the stream ends; cancellation emits exactly one
/// `Unavailable` status and ends the stream; a closed inner stream ends it
/// silently.
pub fn wrap_with_shutdown_step<T>(ev: WrapEvent<T>) -> (r: (WrapAction<T>, bool))
    ensures
        match ev {
            WrapEvent::Cancelled => {
                &&& r.0 matches WrapAction::EmitError(s) && s.code == StatusCode::Unavailable
                    && s.message@ == status::wrap_shutdown_message()
                &&& r.1 == false
            },
            WrapEvent::Item(x) => r.0 matches WrapAction::Forward(y) && y == x && r.1 == true,
            WrapEvent::InnerError(s) => r.0 matches WrapAction::EmitError(e) && e == s && r.1
                == false,
            WrapEvent::InnerClosed => r.0 is Close && r.1 == false,
        },
{
    match ev {
        WrapEvent::Cancelled => (WrapAction::EmitError(AgentStatus::wrap_shutdown()), false),
        WrapEvent::Item(x) => (WrapAction::Forward(x), true),
        WrapEvent::InnerError(s) => (WrapAction::EmitError(s), false),
        WrapEvent::InnerClosed => (WrapAction::Close, false),
    }
}

} // verus!
