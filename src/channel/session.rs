//! Session-scope events.

use vstd::prelude::*;
use crate::channel::Reason;
use crate::strategy::Acceptable;

verus! {

/// Which directions a session carries data in.
#[derive(Clone, Copy, Debug, PartialEq, Eq, Structural)]
pub enum Ways {
    OnlyRead,
    OnlyWrite,
    TwoWays,
}

/// Options of a session, sent with its open request.
#[derive(Clone, Copy, Debug, PartialEq, Eq, Structural)]
pub struct OpenOptions {
    pub way: Ways,
    pub allow_reconnect: bool,
}

impl Default for OpenOptions {
    /// Both ways, reconnection allowed.
    fn default() -> (r: OpenOptions)
        ensures
            r == (OpenOptions { way: Ways::TwoWays, allow_reconnect: true }),
    {
        OpenOptions { way: Ways::TwoWays, allow_reconnect: true }
    }
}

#[derive(Clone, Copy, Debug, PartialEq, Eq, Structural)]
pub enum Event {
    Open(OpenOptions),
    OpenAck(Acceptable),
    Reopen,
    ReopenAck(Acceptable),
    Close,
    CloseAck(Acceptable),
    Death(Reason),
}

} // verus!
