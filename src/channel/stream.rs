//! Stream-scope events.

use vstd::prelude::*;
use crate::channel::Reason;
use crate::strategy::Acceptable;
use crate::ubig::UBig;

verus! {

/// A one-shot whole payload.
#[derive(Clone, Debug)]
pub struct Block {
    pub ask_response: bool,
    pub data: Vec<u8>,
}

/// Options of a stream, sent with its open request.
#[derive(Clone, Copy, Debug, PartialEq, Eq, Structural)]
pub struct OpenOptions {
    pub allow_reconnect: bool,
    pub enforce_orderliness: bool,
    pub enforce_integrity: bool,
}

impl Default for OpenOptions {
    /// Reconnection allowed, no ordering enforced, integrity enforced.
    fn default() -> (r: OpenOptions)
        ensures
            r == (OpenOptions { allow_reconnect: true, enforce_orderliness: false, enforce_integrity: true }),
    {
        OpenOptions { allow_reconnect: true, enforce_orderliness: false, enforce_integrity: true }
    }
}

/// One element of a chunked stream.
#[derive(Clone, Debug)]
pub struct Chunk {
    pub order: UBig,
    pub data: Vec<u8>,
}

#[derive(Clone, Debug)]
pub struct ChunkAck {
    pub order: UBig,
}

#[derive(Clone, Debug)]
pub struct Flush {
    pub length: UBig,
}

#[derive(Clone, Debug)]
pub struct Lack {
    pub orders: Vec<UBig>,
}

#[derive(Clone, Debug)]
pub enum Event {
    Block(Block),
    BlockAck,
    Open { options: OpenOptions, length: Option<UBig> },
    OpenAck(Acceptable),
    Reopen,
    ReopenAck(Acceptable),
    Chunk(Chunk),
    ChunkAck(ChunkAck),
    Flush(Flush),
    FlushAck,
    Lack(Lack),
    Later,
    Go,
    Clear(Reason),
}

/// A stream event with its identifiers as numbers and its bytes as sequences.
pub enum EventView {
    Block { ask_response: bool, data: Seq<u8> },
    BlockAck,
    Open { options: OpenOptions, length: Option<nat> },
    OpenAck(Acceptable),
    Reopen,
    ReopenAck(Acceptable),
    Chunk { order: nat, data: Seq<u8> },
    ChunkAck { order: nat },
    Flush { length: nat },
    FlushAck,
    Lack { orders: Seq<nat> },
    Later,
    Go,
    Clear(Reason),
}

pub open spec fn opt_value(o: Option<UBig>) -> Option<nat> {
    match o {
        Some(u) => Some(u.value()),
        None => None,
    }
}

pub open spec fn opt_wf(o: Option<UBig>) -> bool {
    match o {
        Some(u) => u.wf(),
        None => true,
    }
}

pub open spec fn values_of(s: Seq<UBig>) -> Seq<nat> {
    s.map_values(|u: UBig| u.value())
}

pub fn clone_bytes(v: &Vec<u8>) -> (r: Vec<u8>)
    ensures
        r@ == v@,
{
    let _n = v.len();
    let r = v.clone();
    assert(r@ =~= v@);
    r
}

pub fn opt_is_wf(o: &Option<UBig>) -> (r: bool)
    ensures
        r == opt_wf(*o),
{
    match o {
        Some(u) => u.is_wf(),
        None => true,
    }
}

impl Event {
    /// Whether every identifier inside is in canonical form.
    pub fn is_wf(&self) -> (r: bool)
        ensures
            r == self.wf(),
    {
        match self {
            Event::Block(b) => {
                let _n = b.data.len();
                true
            },
            Event::Open { length, .. } => opt_is_wf(length),
            Event::Chunk(c) => {
                let _n = c.data.len();
                c.order.is_wf()
            },
            Event::ChunkAck(c) => c.order.is_wf(),
            Event::Flush(f) => f.length.is_wf(),
            Event::Lack(l) => {
                let mut i: usize = 0;
                while i < l.orders.len()
                    invariant
                        i <= l.orders@.len(),
                        *self == Event::Lack(*l),
                        forall|j: int| 0 <= j < i ==> (#[trigger] l.orders@[j]).wf(),
                    decreases l.orders@.len() - i,
                {
                    if !l.orders[i].is_wf() {
                        assert(!l.orders@[i as int].wf());
                        return false;
                    }
                    i = i + 1;
                }
                true
            },
            _ => true,
        }
    }

    pub open spec fn view(&self) -> EventView {
        match self {
            Event::Block(b) => EventView::Block { ask_response: b.ask_response, data: b.data@ },
            Event::BlockAck => EventView::BlockAck,
            Event::Open { options, length } => EventView::Open { options: *options, length: opt_value(*length) },
            Event::OpenAck(a) => EventView::OpenAck(*a),
            Event::Reopen => EventView::Reopen,
            Event::ReopenAck(a) => EventView::ReopenAck(*a),
            Event::Chunk(c) => EventView::Chunk { order: c.order.value(), data: c.data@ },
            Event::ChunkAck(c) => EventView::ChunkAck { order: c.order.value() },
            Event::Flush(f) => EventView::Flush { length: f.length.value() },
            Event::FlushAck => EventView::FlushAck,
            Event::Lack(l) => EventView::Lack { orders: values_of(l.orders@) },
            Event::Later => EventView::Later,
            Event::Go => EventView::Go,
            Event::Clear(r) => EventView::Clear(*r),
        }
    }

    /// Every identifier inside is in canonical form.
    pub open spec fn wf(&self) -> bool {
        match self {
            Event::Block(b) => b.data@.len() <= usize::MAX,
            Event::Open { length, .. } => opt_wf(*length),
            Event::Chunk(c) => c.order.wf() && c.data@.len() <= usize::MAX,
            Event::ChunkAck(c) => c.order.wf(),
            Event::Flush(f) => f.length.wf(),
            Event::Lack(l) => l.orders@.len() <= usize::MAX && forall|i: int|
                0 <= i < l.orders@.len() ==> (#[trigger] l.orders@[i]).wf(),
            _ => true,
        }
    }
}

} // verus!
