//! Errors of the transport.

use vstd::prelude::*;

verus! {

/// What a transport operation can fail with.
#[derive(Clone, Debug)]
pub enum IOError {
    OpenTimeout,
    AcceptTimeout,
    ClosedStream,
    ReadError,
    WriteError,
    Disconnected,
    Unknown { code: u32, error: String },
}

impl IOError {
    /// Whether a reader stops on this error: a closed stream or a dropped
    /// connection ends it; any other error is transient.
    pub fn ends_reader(&self) -> (r: bool)
        ensures
            r <==> (self is ClosedStream || self is Disconnected),
    {
        match self {
            IOError::ClosedStream | IOError::Disconnected => true,
            _ => false,
        }
    }

    /// Whether a writer that failed with this error leaves the pool.
    pub fn evicts_writer(&self) -> (r: bool)
        ensures
            r <==> self is ClosedStream,
    {
        match self {
            IOError::ClosedStream => true,
            _ => false,
        }
    }
}

} // verus!
