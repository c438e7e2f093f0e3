//! Link-level decisions: errors and modes, and the outcome of an open
//! handshake.

use vstd::prelude::*;
use crate::channel::{Datagram, DatagramView, Event, EventView, IdSet, IdSetView, Reason};
use crate::channel::session::Event as SessionEvent;
use crate::channel::stream::opt_value;
use crate::channel::link::Health;
use crate::health::{HealthMonitor, REASON_HEALTH_TIMEOUT};
use crate::ids::IdPool;
use crate::strategy::Acceptable;
use crate::ubig::{u64_limit, UBig};

verus! {

/// Failures surfaced to the user of a link.
#[derive(Clone, Copy, Debug, PartialEq, Eq, Structural)]
pub enum LinkError {
    /// The peer rejected the session, with this reason code.
    SessionReject(u64),
    /// The session died before it was open, with this reason code.
    SessionDeath(u64),
}

/// Which side of the link this is: only the client creates sessions and
/// sends health pings.
#[derive(Clone, Copy, Debug, PartialEq, Eq, Structural)]
pub enum LinkMode {
    Server,
    Client,
}

#[derive(Clone, Copy, Debug, PartialEq, Eq, Structural)]
pub enum ModeSession {
    Server,
    Client,
}


/// Where an inbound datagram goes.
#[derive(Clone, Copy, Debug, PartialEq, Eq, Structural)]
pub enum Route {
    /// Handled by the link itself (health).
    Link,
    /// A request for a new session.
    OpenSession,
    /// To the session with this identifier.
    Session(u64),
    /// To the stream with these session and stream identifiers.
    Stream(u64, u64),
    /// Nowhere: the datagram lacks the identifiers its scope needs.
    Drop,
}

/// The route of a datagram, by the scope of its event and the identifiers
/// it carries.
pub open spec fn route_spec(d: DatagramView) -> Route {
    match d.event {
        EventView::Link(_) => Route::Link,
        EventView::Session(SessionEvent::Open(_)) => if d.id.session is None {
            Route::OpenSession
        } else {
            Route::Drop
        },
        EventView::Session(_) => match d.id.session {
            Some(s) => if s <= u64_limit() {
                Route::Session(s as u64)
            } else {
                Route::Drop
            },
            None => Route::Drop,
        },
        EventView::Stream(_) => match (d.id.session, d.id.stream) {
            (Some(s), Some(t)) => if s <= u64_limit() && t <= u64_limit() {
                Route::Stream(s as u64, t as u64)
            } else {
                Route::Drop
            },
            _ => Route::Drop,
        },
    }
}

/// Routes an inbound datagram.
pub fn route(d: &Datagram) -> (r: Route)
    requires
        d.wf(),
    ensures
        r == route_spec(d.view()),
{
    match &d.event {
        Event::Link(_) => Route::Link,
        Event::Session(SessionEvent::Open(_)) => if d.id.session.is_none() {
            Route::OpenSession
        } else {
            Route::Drop
        },
        Event::Session(_) => match &d.id.session {
            Some(s) => match s.to_u64() {
                Some(v) => Route::Session(v),
                None => Route::Drop,
            },
            None => Route::Drop,
        },
        Event::Stream(_) => match (&d.id.session, &d.id.stream) {
            (Some(s), Some(t)) => match (s.to_u64(), t.to_u64()) {
                (Some(a), Some(b)) => Route::Stream(a, b),
                _ => Route::Drop,
            },
            _ => Route::Drop,
        },
    }
}

/// The outcome that an inbound datagram gives to the pending open request
/// whose event identifier is `request`: the new session's identifier on
/// acceptance, the reason code on rejection; `None` where the datagram
/// answers something else.
pub fn open_outcome(d: &Datagram, request: u64) -> (r: Option<Result<UBig, LinkError>>)
    requires
        d.wf(),
    ensures
        r is None <==> !(d.event is Session && d.event->Session_0 is OpenAck && opt_value(d.id.event)
            == Some(request as nat)),
        match r {
            Some(Ok(s)) => s.wf() && d.event == Event::Session(SessionEvent::OpenAck(Acceptable::Accept))
                && opt_value(d.id.session) == Some(s.value()),
            Some(Err(e)) => match d.event {
                Event::Session(SessionEvent::OpenAck(Acceptable::Reject(reason))) => e == LinkError::SessionReject(reason.code),
                _ => e == LinkError::SessionReject(0) && d.id.session is None,
            },
            None => true,
        },
{
    let answers = match &d.id.event {
        Some(e) => match e.to_u64() {
            Some(v) => v == request,
            None => false,
        },
        None => false,
    };
    if !answers {
        return None;
    }
    match &d.event {
        Event::Session(SessionEvent::OpenAck(a)) => match a {
            Acceptable::Accept => match &d.id.session {
                Some(s) => Some(Ok(s.copy())),
                None => Some(Err(LinkError::SessionReject(0))),
            },
            Acceptable::Reject(reason) => Some(Err(LinkError::SessionReject(reason.code))),
        },
        _ => None,
    }
}

/// The death notices sent to every session when the peer stops answering
/// health checks; their event identifiers are left to the encoder.
pub fn health_deaths(sessions: &Vec<u64>) -> (r: Vec<Datagram>)
    ensures
        r@.len() == sessions@.len(),
        forall|i: int|
            0 <= i < r@.len() ==> (#[trigger] r@[i]).wf() && r@[i].view() == (DatagramView {
                id: IdSetView { event: None, session: Some(sessions@[i] as nat), stream: None },
                event: EventView::Session(SessionEvent::Death(Reason { code: REASON_HEALTH_TIMEOUT })),
            }),
{
    let mut r: Vec<Datagram> = Vec::new();
    let mut i: usize = 0;
    while i < sessions.len()
        invariant
            i <= sessions@.len(),
            r@.len() == i,
            forall|j: int|
                0 <= j < i ==> (#[trigger] r@[j]).wf() && r@[j].view() == (DatagramView {
                    id: IdSetView { event: None, session: Some(sessions@[j] as nat), stream: None },
                    event: EventView::Session(SessionEvent::Death(Reason { code: REASON_HEALTH_TIMEOUT })),
                }),
        decreases sessions@.len() - i,
    {
        let d = Datagram {
            id: IdSet { event: None, session: Some(UBig::from_u64(sessions[i])), stream: None },
            event: Event::Session(SessionEvent::Death(Reason { code: REASON_HEALTH_TIMEOUT })),
        };
        r.push(d);
        i = i + 1;
    }
    r
}

/// Handles a health packet from the peer: a ping is answered with exactly
/// one pong; a pong ends the ping in flight and is not answered.
pub fn on_health(monitor: &mut HealthMonitor, h: Health) -> (r: Option<Health>)
    ensures
        h == Health::Ping ==> r == Some(Health::Pong) && *final(monitor) == *old(monitor),
        h == Health::Pong ==> r is None && final(monitor).ping_sent_at() is None
            && final(monitor).deadline() == old(monitor).deadline() && final(monitor).timed_out()
            == old(monitor).timed_out(),
{
    match h {
        Health::Ping => Some(Health::Pong),
        Health::Pong => {
            monitor.on_pong();
            None
        },
    }
}

/// The keys of the outbound writer pool: each writer gets a key that no
/// other live writer holds, and a closed writer's key is reused later.
pub struct WriterKeys {
    pool: IdPool,
}

impl WriterKeys {
    pub closed spec fn live(&self) -> Set<u64> {
        self.pool.live()
    }

    pub closed spec fn wf(&self) -> bool {
        self.pool.wf()
    }

    pub fn new() -> (r: WriterKeys)
        ensures
            r.wf(),
            r.live() == Set::<u64>::empty(),
    {
        WriterKeys { pool: IdPool::new() }
    }

    /// A key for a new writer; `None` only once 2^64 keys are live.
    pub fn register(&mut self) -> (r: Option<u64>)
        requires
            old(self).wf(),
        ensures
            final(self).wf(),
            match r {
                Some(k) => !old(self).live().contains(k) && final(self).live() == old(self).live().insert(k),
                None => final(self).live() == old(self).live(),
            },
    {
        self.pool.acquire()
    }

    /// Removes a closed writer's key from the live set, for reuse.
    pub fn evict(&mut self, k: u64)
        requires
            old(self).wf(),
            old(self).live().contains(k),
        ensures
            final(self).wf(),
            final(self).live() == old(self).live().remove(k),
    {
        self.pool.release(k);
    }
}

} // verus!
