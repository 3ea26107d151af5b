//! The decisions of the worker that reads one client's stream.
use vstd::prelude::*;

verus! {

/// A payload read from `sender`'s stream, on its way to the broadcaster.
pub struct Message {
    pub payload: Vec<u8>,
    pub sender: u64,
}

/// What one read of a client's stream gave.
pub enum ReadOutcome {
    /// The bytes read; none at all means the peer closed the stream.
    Bytes(Vec<u8>),
    /// The read failed without closing the stream.
    Error,
}

/// What the reading worker does next.
pub enum IngressStep {
    /// Hand the message to the ordering channel, then read again.
    Forward(Message),
    /// Read again: a failed read is not fatal.
    Retry,
    /// Unregister the client and stop.
    Close,
}

/// The step that follows `outcome` on the stream of client `id`.
pub fn on_read(id: u64, outcome: ReadOutcome) -> (r: IngressStep)
    ensures
        match outcome {
            ReadOutcome::Bytes(b) => if b@.len() == 0 {
                r is Close
            } else {
                r == IngressStep::Forward(Message { payload: b, sender: id })
            },
            ReadOutcome::Error => r is Retry,
        },
{
    match outcome {
        ReadOutcome::Bytes(b) => {
            if b.len() == 0 {
                IngressStep::Close
            } else {
                IngressStep::Forward(Message { payload: b, sender: id })
            }
        },
        ReadOutcome::Error => IngressStep::Retry,
    }
}

} // verus!
