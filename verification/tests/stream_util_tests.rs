use cluster_agent::status::{AgentStatus, StatusCode};
use cluster_agent::stream_util::{wrap_with_shutdown_step, WrapAction, WrapEvent};

fn drive(events: Vec<WrapEvent<i32>>) -> (Vec<Result<i32, AgentStatus>>, bool) {
    // The event loop outside performs exactly this: feed observations in
    // order until a step says the stream is over.
    let mut out = Vec::new();
    for ev in events {
        let (action, go_on) = wrap_with_shutdown_step(ev);
        match action {
            WrapAction::Forward(x) => out.push(Ok(x)),
            WrapAction::EmitError(s) => out.push(Err(s)),
            WrapAction::Close => {}
        }
        if !go_on {
            return (out, true);
        }
    }
    (out, false)
}

#[test]
fn propagates_items_and_completes_on_inner_close() {
    let (out, closed) = drive(vec![
        WrapEvent::Item(1),
        WrapEvent::Item(2),
        WrapEvent::InnerClosed,
    ]);
    assert!(closed);
    assert_eq!(out.len(), 2);
    assert_eq!(out[0].as_ref().ok(), Some(&1));
    assert_eq!(out[1].as_ref().ok(), Some(&2));
}

#[test]
fn forwards_inner_error_and_terminates() {
    let aborted = AgentStatus { code: StatusCode::Unknown, message: b"boom".to_vec() };
    let (out, closed) = drive(vec![
        WrapEvent::InnerError(aborted),
        // Anything after the terminal error is never observed.
    ]);
    assert!(closed);
    assert_eq!(out.len(), 1);
    assert_eq!(out[0].as_ref().unwrap_err().code, StatusCode::Unknown);
}

#[test]
fn emits_unavailable_on_shutdown_without_items() {
    let (out, closed) = drive(vec![WrapEvent::Cancelled]);
    assert!(closed);
    assert_eq!(out.len(), 1);
    let status = out[0].as_ref().unwrap_err();
    assert_eq!(status.code, StatusCode::Unavailable);
    assert_eq!(status.message, b"server shutting down".to_vec());
}

#[test]
fn emits_unavailable_after_some_items_on_shutdown() {
    let (out, closed) = drive(vec![WrapEvent::Item(42), WrapEvent::Cancelled]);
    assert!(closed);
    assert_eq!(out.len(), 2);
    assert_eq!(out[0].as_ref().ok(), Some(&42));
    assert_eq!(out[1].as_ref().unwrap_err().code, StatusCode::Unavailable);
}

#[test]
fn prefers_shutdown_over_inner_error() {
    // When both the shutdown signal and an inner error are ready, the event
    // loop's biased selection observes the cancellation first.
    let (out, closed) = drive(vec![
        WrapEvent::Cancelled,
        WrapEvent::InnerError(AgentStatus {
            code: StatusCode::Unknown,
            message: b"inner".to_vec(),
        }),
    ]);
    assert!(closed);
    assert_eq!(out.len(), 1);
    assert_eq!(out[0].as_ref().unwrap_err().code, StatusCode::Unavailable);
}

#[test]
fn cancellation_before_first_record_is_sole_output() {
    // A stream cancelled before producing anything yields exactly one
    // Unavailable error, for the record streams and the watcher alike.
    let (out, closed) = drive(vec![WrapEvent::Cancelled, WrapEvent::Item(1)]);
    assert!(closed);
    assert_eq!(out.len(), 1);
    assert_eq!(out[0].as_ref().unwrap_err().code, StatusCode::Unavailable);

    let shutdown = AgentStatus::shutdown();
    assert_eq!(shutdown.code, StatusCode::Unavailable);
    assert_eq!(shutdown.message, b"Server is shutting down".to_vec());
}
