//! The in-memory form of protocol packets.

pub mod link;
pub mod session;
pub mod stream;

use vstd::prelude::*;
use crate::ubig::UBig;
use crate::channel::stream::{opt_is_wf, opt_value, opt_wf, EventView as StreamEventView};

verus! {

/// A numeric code given with rejections and deaths.
#[derive(Clone, Copy, Debug, PartialEq, Eq, Structural)]
pub struct Reason {
    pub code: u64,
}

/// How data is sent on a stream.
#[derive(Clone, Copy, Debug, PartialEq, Eq, Structural)]
pub enum TransWays {
    /// Send a whole piece of data and complete it all at once.
    Block,
    /// Send a predictable total quantity of data.
    Buffer,
    /// Send an unpredictable total amount of data.
    Stream,
}

/// Any protocol event.
#[derive(Clone, Debug)]
pub enum Event {
    Link(link::Event),
    Session(session::Event),
    Stream(stream::Event),
}

pub enum EventView {
    Link(link::Event),
    Session(session::Event),
    Stream(StreamEventView),
}

/// The identifiers a packet carries.
#[derive(Clone, Debug)]
pub struct IdSet {
    pub event: Option<UBig>,
    pub session: Option<UBig>,
    pub stream: Option<UBig>,
}

pub struct IdSetView {
    pub event: Option<nat>,
    pub session: Option<nat>,
    pub stream: Option<nat>,
}

/// One protocol packet.
#[derive(Clone, Debug)]
pub struct Datagram {
    pub id: IdSet,
    pub event: Event,
}

pub struct DatagramView {
    pub id: IdSetView,
    pub event: EventView,
}

impl Event {
    pub open spec fn view(&self) -> EventView {
        match self {
            Event::Link(e) => EventView::Link(*e),
            Event::Session(e) => EventView::Session(*e),
            Event::Stream(e) => EventView::Stream(e.view()),
        }
    }

    pub open spec fn wf(&self) -> bool {
        match self {
            Event::Stream(e) => e.wf(),
            _ => true,
        }
    }
}

impl IdSet {
    pub open spec fn view(&self) -> IdSetView {
        IdSetView {
            event: opt_value(self.event),
            session: opt_value(self.session),
            stream: opt_value(self.stream),
        }
    }

    pub open spec fn wf(&self) -> bool {
        opt_wf(self.event) && opt_wf(self.session) && opt_wf(self.stream)
    }
}

impl Datagram {
    /// Whether every identifier inside is in canonical form.
    pub fn is_wf(&self) -> (r: bool)
        ensures
            r == self.wf(),
    {
        let ids = opt_is_wf(&self.id.event) && opt_is_wf(&self.id.session) && opt_is_wf(&self.id.stream);
        let ev = match &self.event {
            Event::Stream(e) => e.is_wf(),
            _ => true,
        };
        ids && ev
    }

    pub open spec fn view(&self) -> DatagramView {
        DatagramView { id: self.id.view(), event: self.event.view() }
    }

    pub open spec fn wf(&self) -> bool {
        self.id.wf() && self.event.wf()
    }
}

} // verus!
