use linkmux::channel::session::{Event as SessionEvent, OpenOptions, Ways};
use linkmux::channel::stream::{Chunk, Event as StreamEvent, OpenOptions as StreamOptions};
use linkmux::channel::{Datagram, Event, IdSet, Reason};
use linkmux::health::{HealthAction, HealthMonitor, REASON_HEALTH_TIMEOUT};
use linkmux::io::IOError;
use linkmux::link::{health_deaths, on_health, open_outcome, route, LinkError, Route, WriterKeys};
use linkmux::session::{decide_session_open, decide_stream_open, SessionState, StreamTable, Waiter, WaiterError, REASON_STRATEGY_ABANDONED};
use linkmux::strategy::Acceptable;
use linkmux::ubig::UBig;

fn ack(event: u64, session: Option<u64>, a: Acceptable) -> Datagram {
    Datagram {
        id: IdSet { event: Some(UBig::from_u64(event)), session: session.map(UBig::from_u64), stream: None },
        event: Event::Session(SessionEvent::OpenAck(a)),
    }
}

#[test]
fn default_session_options() {
    let o = OpenOptions::default();
    assert_eq!(o.way, Ways::TwoWays);
    assert!(o.allow_reconnect);
}

#[test]
fn simple_session_open() {
    let mut s = SessionState::new_client(OpenOptions::default());
    assert_eq!(s.open(), Some(SessionEvent::Open(OpenOptions::default())));
    let d = ack(1, Some(42), Acceptable::Accept);
    match open_outcome(&d, 1) {
        Some(Ok(id)) => assert_eq!(id.to_u64(), Some(42)),
        _ => panic!("session should open"),
    }
    let r = s.on_event(&SessionEvent::OpenAck(Acceptable::Accept));
    assert_eq!(r.outcome, Some(Ok(())));
    assert!(r.reply.is_none());
    // an answer to another request is not ours
    assert!(open_outcome(&d, 2).is_none());
}

#[test]
fn rejected_session() {
    let mut s = SessionState::new_client(OpenOptions::default());
    s.open();
    let d = ack(1, None, Acceptable::Reject(Reason { code: 401 }));
    assert_eq!(open_outcome(&d, 1).map(|r| r.err()), Some(Some(LinkError::SessionReject(401))));
    let r = s.on_event(&SessionEvent::OpenAck(Acceptable::Reject(Reason { code: 401 })));
    assert_eq!(r.outcome, Some(Err(LinkError::SessionReject(401))));
}

#[test]
fn close_handshake() {
    let mut s = SessionState::new_accepted(OpenOptions::default());
    assert_eq!(s.close(), Some(SessionEvent::Close));
    assert_eq!(s.close(), None);
    s.on_event(&SessionEvent::CloseAck(Acceptable::Reject(Reason { code: 1 })));
    // refused: open again, so closing can start over
    assert_eq!(s.close(), Some(SessionEvent::Close));
    s.on_event(&SessionEvent::CloseAck(Acceptable::Accept));
    assert_eq!(s.close(), None);
}

#[test]
fn peer_close_and_death() {
    let mut s = SessionState::new_accepted(OpenOptions::default());
    let r = s.on_event(&SessionEvent::Close);
    assert_eq!(r.reply, Some(SessionEvent::CloseAck(Acceptable::Accept)));
    let mut s = SessionState::new_client(OpenOptions::default());
    s.open();
    let r = s.on_event(&SessionEvent::Death(Reason { code: 3 }));
    assert_eq!(r.outcome, Some(Err(LinkError::SessionDeath(3))));
}

#[test]
fn stream_accepted_at_most_once() {
    let mut t = StreamTable::new();
    assert!(t.accept(7, StreamOptions::default(), None));
    assert!(!t.accept(7, StreamOptions::default(), None));
    assert!(t.accept(8, StreamOptions::default(), Some(3)));
    let mut s = SessionState::new_accepted(OpenOptions::default());
    assert_eq!(s.accept_stream(7, StreamOptions::default(), None), Acceptable::Accept);
    assert!(matches!(s.accept_stream(7, StreamOptions::default(), None), Acceptable::Reject(_)));
}

#[test]
fn reconnect_keeps_streams() {
    let mut s = SessionState::new_accepted(OpenOptions::default());
    s.accept_stream(7, StreamOptions { enforce_orderliness: true, ..StreamOptions::default() }, None);
    let step = s
        .dispatch(7, &StreamEvent::Chunk(Chunk { order: UBig::from_u64(1), data: vec![1] }))
        .unwrap();
    assert!(step.delivered.is_empty());
    let r = s.on_event(&SessionEvent::Reopen);
    assert_eq!(r.reply, Some(SessionEvent::ReopenAck(Acceptable::Accept)));
    let r = s.on_event(&SessionEvent::ReopenAck(Acceptable::Accept));
    assert!(r.reply.is_none());
    // the stream is still there, with its held chunk
    let step = s
        .dispatch(7, &StreamEvent::Chunk(Chunk { order: UBig::from_u64(0), data: vec![0] }))
        .unwrap();
    assert_eq!(step.delivered, vec![vec![0u8], vec![1u8]]);
    assert!(s.dispatch(8, &StreamEvent::Go).is_none());
}

#[test]
fn reopen_refused_without_reconnect() {
    let mut s = SessionState::new_accepted(OpenOptions { way: Ways::OnlyRead, allow_reconnect: false });
    let r = s.on_event(&SessionEvent::Reopen);
    assert!(matches!(r.reply, Some(SessionEvent::ReopenAck(Acceptable::Reject(_)))));
}

#[test]
fn waiter_decides_once() {
    let mut w = Waiter::new();
    assert_eq!(w.accept(), Ok(Acceptable::Accept));
    assert_eq!(w.accept(), Err(WaiterError::Closed));
    assert_eq!(w.reject(5), Err(WaiterError::Closed));
    assert_eq!(w.abandon(), None);
    let mut w = Waiter::new();
    assert_eq!(w.reject(403), Ok(Acceptable::Reject(Reason { code: 403 })));
    assert_eq!(w.accept(), Err(WaiterError::Closed));
}

#[test]
fn abandoned_waiter_rejects() {
    let w = Waiter::new();
    assert_eq!(w.abandon(), Some(Acceptable::Reject(Reason { code: REASON_STRATEGY_ABANDONED })));
}

#[test]
fn health_timeout_kills_sessions() {
    let mut h = HealthMonitor::new(1000);
    assert_eq!(h.on_tick(0), HealthAction::SendPing);
    assert_eq!(h.on_tick(500), HealthAction::Idle);
    assert_eq!(h.on_tick(999), HealthAction::Idle);
    assert_eq!(h.on_tick(1000), HealthAction::Timeout);
    assert_eq!(h.on_tick(2000), HealthAction::Idle);
    let deaths = health_deaths(&vec![42, 43]);
    assert_eq!(deaths.len(), 2);
    for (d, s) in deaths.iter().zip([42u64, 43]) {
        assert_eq!(d.id.session.as_ref().and_then(|x| x.to_u64()), Some(s));
        assert!(matches!(d.event, Event::Session(SessionEvent::Death(Reason { code: REASON_HEALTH_TIMEOUT }))));
    }
}

#[test]
fn pong_clears_the_ping() {
    let mut h = HealthMonitor::new(1000);
    h.on_tick(0);
    h.on_pong();
    assert_eq!(h.on_tick(5000), HealthAction::SendPing);
}

#[test]
fn routing_by_scope() {
    let d = |s: Option<u64>, t: Option<u64>, e: Event| Datagram {
        id: IdSet { event: Some(UBig::from_u64(1)), session: s.map(UBig::from_u64), stream: t.map(UBig::from_u64) },
        event: e,
    };
    assert_eq!(route(&d(None, None, Event::Link(linkmux::channel::link::Event::Health(linkmux::channel::link::Health::Ping)))), Route::Link);
    assert_eq!(route(&d(None, None, Event::Session(SessionEvent::Open(OpenOptions::default())))), Route::OpenSession);
    assert_eq!(route(&d(Some(4), None, Event::Session(SessionEvent::Close))), Route::Session(4));
    assert_eq!(route(&d(None, None, Event::Session(SessionEvent::Close))), Route::Drop);
    assert_eq!(route(&d(Some(4), Some(9), Event::Stream(StreamEvent::Go))), Route::Stream(4, 9));
    assert_eq!(route(&d(Some(4), None, Event::Stream(StreamEvent::Go))), Route::Drop);
}

#[test]
fn writer_keys_are_reused() {
    let mut k = WriterKeys::new();
    let a = k.register().unwrap();
    let b = k.register().unwrap();
    assert_ne!(a, b);
    k.evict(a);
    assert_eq!(k.register(), Some(a));
}

#[test]
fn reader_and_writer_errors() {
    assert!(IOError::ClosedStream.ends_reader());
    assert!(IOError::Disconnected.ends_reader());
    assert!(!IOError::ReadError.ends_reader());
    assert!(!IOError::Unknown { code: 1, error: String::from("x") }.ends_reader());
    assert!(IOError::ClosedStream.evicts_writer());
    assert!(!IOError::WriteError.evicts_writer());
}

struct Fixed(Acceptable);

impl linkmux::strategy::Strategy for Fixed {
    fn ack_session_open(&self) -> Acceptable {
        self.0
    }

    fn ack_stream_open(&self) -> Acceptable {
        self.0
    }
}

#[test]
fn strategy_decides_through_waiter() {
    let mut w = Waiter::new();
    assert_eq!(decide_session_open(&Fixed(Acceptable::Accept), &mut w), Acceptable::Accept);
    assert_eq!(w.accept(), Err(WaiterError::Closed));

    let mut s = SessionState::new_accepted(OpenOptions::default());
    let mut w = Waiter::new();
    assert_eq!(
        decide_stream_open(&Fixed(Acceptable::Accept), &mut w, &mut s, 7, StreamOptions::default(), None),
        Acceptable::Accept
    );
    let mut w = Waiter::new();
    assert!(matches!(
        decide_stream_open(&Fixed(Acceptable::Accept), &mut w, &mut s, 7, StreamOptions::default(), None),
        Acceptable::Reject(_)
    ));
    let mut w = Waiter::new();
    assert_eq!(
        decide_stream_open(&Fixed(Acceptable::Reject(Reason { code: 3 })), &mut w, &mut s, 8, StreamOptions::default(), None),
        Acceptable::Reject(Reason { code: 3 })
    );
}

#[test]
fn ping_gets_one_pong() {
    let mut h = HealthMonitor::new(1000);
    h.on_tick(0);
    assert_eq!(on_health(&mut h, linkmux::channel::link::Health::Ping), Some(linkmux::channel::link::Health::Pong));
    assert_eq!(on_health(&mut h, linkmux::channel::link::Health::Pong), None);
    assert_eq!(h.on_tick(10), HealthAction::SendPing);
}
