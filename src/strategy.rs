//! The host's decision on inbound open requests.

use vstd::prelude::*;
use crate::channel::Reason;

verus! {

/// Response to an open or reopen request: acceptance, or rejection with a reason.
#[derive(Clone, Copy, Debug, PartialEq, Eq, Structural)]
pub enum Acceptable {
    Accept,
    Reject(Reason),
}

/// A host-supplied decision hook, asked once for each inbound open request.
pub trait Strategy {
    /// The other party requests to open a new session.
    fn ack_session_open(&self) -> Acceptable;

    /// The other party requests to open a new stream.
    fn ack_stream_open(&self) -> Acceptable;
}

} // verus!
