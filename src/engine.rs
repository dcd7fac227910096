//! The core operations: constructing a message under the process-wide id
//! counter, the diagnostic line of the reference sink, and how the sink's
//! outcome and the core's errors reach callers.

use crate::decode::{decode_message, decoded};
use crate::json::{decimal, unsigned_text};
use crate::message::{AppError, Message, MessageView};
use std::sync::atomic::{AtomicU64, Ordering};
use vstd::prelude::*;

verus! {

/// The source of message ids: one atomic counter, starting at 1. A process
/// keeps a single one and hands it to every adapter, on any thread. Each id is
/// taken by a single atomic read-and-increment, never under a lock, so no two
/// callers see the same one.
pub struct IdCounter {
    next: AtomicU64,
}

impl IdCounter {
    /// A counter whose first id is 1.
    pub fn new() -> IdCounter {
        IdCounter { next: AtomicU64::new(1) }
    }

    /// Takes the current value as an id and advances the counter.
    pub fn take(&self) -> u64 {
        self.next.fetch_add(1, Ordering::Relaxed)
    }
}

/// Constructs a message: the next id of `ids`, the given texts unchanged,
/// and the given time in milliseconds since the Unix epoch. Never fails.
pub fn create_message(ids: &IdCounter, sender: &str, content: &str, timestamp: u64) -> (r: Message)
    ensures
        r@.sender == sender@,
        r@.content == content@,
        r@.timestamp == timestamp,
{
    let id = ids.take();
    Message::new(id, sender, content, timestamp)
}

/// The line that the reference sink writes for a message.
pub open spec fn report_text(m: MessageView) -> Seq<char> {
    "Send message: id="@ + decimal(m.id as nat) + " sender='"@ + m.sender + "' content='"@
        + m.content + "' ts="@ + decimal(m.timestamp as nat)
}

/// Renders the reference sink's line for a message.
pub fn report_line(m: &Message) -> (r: String)
    ensures
        r@ == report_text(m@),
{
    let mut out = "Send message: id=".to_owned();
    let id = unsigned_text(m.id());
    out.append(id.as_str());
    out.append(" sender='");
    out.append(m.sender());
    out.append("' content='");
    out.append(m.content());
    out.append("' ts=");
    let ts = unsigned_text(m.timestamp());
    out.append(ts.as_str());
    out
}

/// `r` is what the core reports for the sink's outcome `accepted`: success
/// stays success, and the sink's failure reason is carried unchanged as
/// `Internal`.
pub open spec fn reports(accepted: Result<(), String>, r: Result<(), AppError>) -> bool {
    &&& accepted is Ok <==> r is Ok
    &&& accepted matches Err(reason) ==> (r matches Err(AppError::Internal(d)) && d@ == reason@)
}

/// The core's answer to the sink's outcome, with no retry and nothing
/// suppressed.
pub fn dispatch(accepted: Result<(), String>) -> (r: Result<(), AppError>)
    ensures
        reports(accepted, r),
{
    match accepted {
        Ok(()) => Ok(()),
        Err(reason) => Err(AppError::Internal(reason)),
    }
}

/// Hands a message to the sink once and reports the sink's outcome.
pub fn send_message<F: FnOnce(&Message) -> Result<(), String>>(msg: &Message, sink: F) -> (r:
    Result<(), AppError>)
    requires
        sink.requires((msg,)),
    ensures
        exists|accepted: Result<(), String>| sink.ensures((msg,), accepted) && reports(accepted, r),
{
    let accepted = sink(msg);
    dispatch(accepted)
}

/// Decodes an encoded message and hands it to the sink. Text that does not
/// decode fails with `InvalidInput` and the sink is not called; otherwise the
/// sink gets the decoded message once and its outcome is reported.
pub fn send_message_json<F: FnOnce(&Message) -> Result<(), String>>(json: &str, sink: F) -> (r:
    Result<(), AppError>)
    requires
        forall|m: &Message| #[trigger] sink.requires((m,)),
    ensures
        decoded(json@) is None ==> (r matches Err(e) && e is InvalidInput),
        decoded(json@) matches Some(v) ==> exists|m: Message, accepted: Result<(), String>|
            m@ == v && #[trigger] sink.ensures((&m,), accepted) && reports(accepted, r),
{
    match decode_message(json) {
        Ok(m) => send_message(&m, sink),
        Err(e) => Err(e),
    }
}

/// The status code of the raw C interface: 0 for success, 1 for any failure.
pub fn status_code(r: &Result<(), AppError>) -> (c: i32)
    ensures
        r is Ok ==> c == 0,
        r is Err ==> c == 1,
{
    match r {
        Ok(()) => 0,
        Err(_) => 1,
    }
}

} // verus!
