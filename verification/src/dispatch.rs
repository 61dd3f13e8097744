use vstd::prelude::*;

verus! {

use crate::codec::DecodeError;
use crate::frame::Frame;
use crate::table::CallOutcome;
use crate::table::Delivery;
use crate::value::Value;

/// What the dispatch loop took from the stream: one decoded frame, a clean
/// end of input, a decode failure, or an explicit shutdown request.
#[derive(Debug, PartialEq, Eq)]
pub enum Inbound {
    Frame(Frame),
    Eof,
    Malformed,
    Shutdown,
}

/// What one dispatch step asks the embedding application to do.
#[derive(Debug, PartialEq, Eq)]
pub enum Step {
    /// A response matched a pending call: hand this outcome to the caller
    /// awaiting the identifier.
    Deliver(Delivery),
    /// A response matched nothing (an orphan): discard it with a
    /// diagnostic; the session stays intact.
    Orphan(u64),
    /// A reverse call from the remote side: invoke the handler's call path
    /// — without blocking the loop on its completion — and write back a
    /// `Response` frame carrying this same identifier.
    HandleCall { id: u64, method: Vec<u8>, params: Vec<Value> },
    /// A notification from the remote side: invoke the handler's event
    /// path; nothing is written back.
    HandleEvent { method: Vec<u8>, params: Vec<Value> },
    /// The loop is over. Every delivery in `abandoned` goes to a caller
    /// that was still pending; the loop's own task ends with `failure`.
    Stop { failure: Option<DecodeError>, abandoned: Vec<Delivery> },
}

/// What a `Response` frame's payload means for its caller: a nil error is
/// a success carrying the result; anything else is the remote side's
/// application-level error payload.
pub open spec fn response_outcome(error: Value, result: Value) -> CallOutcome {
    if error is Nil {
        CallOutcome::Success(result)
    } else {
        CallOutcome::RemoteError(error)
    }
}

} // verus!
