//! Session lifecycles: the open/close/reopen handshakes, the table of a
//! session's streams, and the single-use waiters handed to the host.

use vstd::prelude::*;
use crate::channel::Reason;
use crate::channel::session::{Event as SessionEvent, OpenOptions};
use crate::channel::stream::OpenOptions as StreamOptions;
use crate::link::LinkError;
use crate::strategy::{Acceptable, Strategy};
use crate::stream::{event_step, StreamState, StreamStep, REASON_RECONNECT_REFUSED};
use crate::channel::stream::Event as StreamEvent;

verus! {

/// The host dropped a waiter without deciding.
pub const REASON_STRATEGY_ABANDONED: u64 = 5;

/// A stream open named a stream identifier already accepted in the session.
pub const REASON_DUPLICATE_STREAM: u64 = 6;

#[derive(Clone, Copy, Debug, PartialEq, Eq, Structural)]
pub enum SessionPhase {
    Init,
    Opening,
    Open,
    Closing,
    Closed,
    Dead(Reason),
}

/// What one session event leads to: a reply to send, and the outcome of a
/// pending open, if this event settled one.
pub struct SessionReaction {
    pub reply: Option<SessionEvent>,
    pub outcome: Option<Result<(), LinkError>>,
}

/// The streams of one session, and every stream identifier ever accepted in it.
pub struct StreamTable {
    entries: Vec<(u64, StreamState)>,
    accepted: Vec<u64>,
}

/// Admission of a stream identifier: accepted only if never accepted before.
pub open spec fn acceptance_spec(accepted: Set<u64>, id: u64) -> (bool, Set<u64>) {
    (!accepted.contains(id), accepted.insert(id))
}

/// A stream identifier is accepted at most once: once accepted, a second
/// open with the same identifier is refused, whatever came in between.
pub proof fn lemma_accept_at_most_once(accepted: Set<u64>, id: u64)
    ensures
        !acceptance_spec(acceptance_spec(accepted, id).1, id).0,
        forall|later: Set<u64>| #[trigger] acceptance_spec(accepted, id).1.subset_of(later) ==> !acceptance_spec(later, id).0,
{
}

impl StreamTable {
    /// The identifiers ever accepted.
    pub closed spec fn accepted(&self) -> Set<u64> {
        self.accepted@.to_set()
    }

    /// The identifiers of the streams held now.
    pub closed spec fn ids(&self) -> Seq<u64> {
        self.entries@.map_values(|e: (u64, StreamState)| e.0)
    }

    /// The streams held now, each under its identifier.
    pub closed spec fn entries(&self) -> Seq<(u64, StreamState)> {
        self.entries@
    }

    pub closed spec fn wf(&self) -> bool {
        &&& forall|i: int| 0 <= i < self.entries@.len() ==> (#[trigger] self.entries@[i]).1.wf()
        &&& forall|i: int| 0 <= i < self.entries@.len() ==> self.accepted@.contains(#[trigger] self.entries@[i].0)
        &&& forall|i: int, j: int|
            0 <= i < j < self.entries@.len() ==> self.entries@[i].0 != self.entries@[j].0
    }

    pub fn new() -> (r: StreamTable)
        ensures
            r.wf(),
            r.accepted() == Set::<u64>::empty(),
            r.ids().len() == 0,
    {
        let r = StreamTable { entries: Vec::new(), accepted: Vec::new() };
        assert(r.accepted@.to_set() =~= Set::<u64>::empty());
        r
    }

    fn was_accepted(&self, id: u64) -> (r: bool)
        ensures
            r == self.accepted().contains(id),
    {
        let mut i: usize = 0;
        while i < self.accepted.len()
            invariant
                i <= self.accepted@.len(),
                forall|j: int| 0 <= j < i ==> self.accepted@[j] != id,
            decreases self.accepted@.len() - i,
        {
            if self.accepted[i] == id {
                assert(self.accepted@.to_set().contains(self.accepted@[i as int]));
                return true;
            }
            i = i + 1;
        }
        false
    }

    /// Accepts a new stream under `id`, unless `id` was ever accepted
    /// before; returns whether it was accepted.
    pub fn accept(&mut self, id: u64, options: StreamOptions, length: Option<u64>) -> (r: bool)
        requires
            old(self).wf(),
        ensures
            final(self).wf(),
            (r, final(self).accepted()) == acceptance_spec(old(self).accepted(), id),
            r ==> final(self).ids() == old(self).ids().push(id),
            !r ==> final(self).ids() == old(self).ids(),
    {
        if self.was_accepted(id) {
            assert(self.accepted().insert(id) =~= self.accepted());
            return false;
        }
        let ghost old_acc = self.accepted@;
        self.accepted.push(id);
        let ghost old_entries = self.entries@;
        self.entries.push((id, StreamState::new(options, length)));
        proof {
            old_acc.lemma_push_to_set_commute(id);
            assert(self.accepted@.contains(id)) by {
                assert(self.accepted@[old_acc.len() as int] == id);
            }
            assert forall|i: int| 0 <= i < self.entries@.len() implies self.accepted@.contains(#[trigger] self.entries@[i].0) by {
                if i < old_entries.len() {
                    assert(self.entries@[i] == old_entries[i]);
                    assert(old_acc.contains(old_entries[i].0));
                    let k = choose|k: int| 0 <= k < old_acc.len() && old_acc[k] == old_entries[i].0;
                    assert(self.accepted@[k] == old_entries[i].0);
                }
            }
            assert forall|i: int| 0 <= i < self.entries@.len() implies (#[trigger] self.entries@[i]).1.wf() by {
                if i < old_entries.len() {
                    assert(self.entries@[i] == old_entries[i]);
                }
            }
            assert forall|i: int, j: int| 0 <= i < j < self.entries@.len() implies self.entries@[i].0
                != self.entries@[j].0 by {
                assert(self.entries@[i] == old_entries[i]);
                if j == old_entries.len() {
                    assert(old_acc.contains(old_entries[i].0));
                    assert(old_acc.to_set().contains(old_entries[i].0));
                } else {
                    assert(self.entries@[j] == old_entries[j]);
                }
            }
            assert(self.entries@.map_values(|e: (u64, StreamState)| e.0) =~= old_entries.map_values(
                |e: (u64, StreamState)| e.0,
            ).push(id));
        }
        true
    }

    fn position(&self, id: u64) -> (r: Option<usize>)
        ensures
            match r {
                Some(i) => i < self.entries@.len() && self.entries@[i as int].0 == id,
                None => !self.ids().contains(id),
            },
    {
        let mut i: usize = 0;
        while i < self.entries.len()
            invariant
                i <= self.entries@.len(),
                forall|j: int| 0 <= j < i ==> self.entries@[j].0 != id,
            decreases self.entries@.len() - i,
        {
            if self.entries[i].0 == id {
                return Some(i);
            }
            i = i + 1;
        }
        proof {
            if self.ids().contains(id) {
                let k = choose|k: int| 0 <= k < self.ids().len() && self.ids()[k] == id;
                assert(self.entries@[k].0 == id);
            }
        }
        None
    }

    /// Hands a stream event to the stream held under `id`; `None` where no
    /// stream is held under it.
    pub fn dispatch(&mut self, id: u64, ev: &StreamEvent) -> (r: Option<StreamStep>)
        requires
            old(self).wf(),
            ev.wf(),
        ensures
            final(self).wf(),
            final(self).accepted() == old(self).accepted(),
            final(self).ids() == old(self).ids(),
            r is None <==> !old(self).ids().contains(id),
            dispatched(old(self).entries(), final(self).entries(), id, *ev, r),
    {
        match self.position(id) {
            None => None,
            Some(i) => {
                let ghost old_entries = self.entries@;
                let (k, mut st) = self.entries.remove(i);
                let step = st.on_event(ev);
                self.entries.insert(i, (k, st));
                proof {
                    assert forall|j: int| 0 <= j < self.entries@.len() implies (#[trigger] self.entries@[j]).1.wf() by {
                        if j != i {
                            assert(self.entries@[j] == old_entries[j]);
                        }
                    }
                    assert forall|j: int| 0 <= j < self.entries@.len() implies self.accepted@.contains(#[trigger] self.entries@[j].0) by {
                        assert(self.entries@[j].0 == old_entries[j].0);
                    }
                    assert(self.entries@.map_values(|e: (u64, StreamState)| e.0) =~= old_entries.map_values(
                        |e: (u64, StreamState)| e.0,
                    ));
                    assert(old_entries.map_values(|e: (u64, StreamState)| e.0)[i as int] == id);
                    assert forall|j: int| 0 <= j < self.entries@.len() && j != i implies self.entries@[j]
                        == old_entries[j] by {}
                    assert forall|i1: int, j1: int| 0 <= i1 < j1 < self.entries@.len() implies self.entries@[i1].0
                        != self.entries@[j1].0 by {
                        assert(self.entries@[i1].0 == old_entries[i1].0);
                        assert(self.entries@[j1].0 == old_entries[j1].0);
                    }
                }
                Some(step)
            },
        }
    }
}

/// What dispatching `ev` to the stream under `id` did to the table: that
/// stream took the step `on_event` describes, every other stream is as it
/// was, and with no stream under `id` nothing changed.
pub open spec fn dispatched(
    before: Seq<(u64, StreamState)>,
    after: Seq<(u64, StreamState)>,
    id: u64,
    ev: StreamEvent,
    r: Option<StreamStep>,
) -> bool {
    &&& after.len() == before.len()
    &&& forall|j: int| 0 <= j < before.len() ==> (#[trigger] after[j]).0 == before[j].0
    &&& forall|j: int|
        0 <= j < before.len() && before[j].0 != id ==> #[trigger] after[j] == before[j]
    &&& match r {
        Some(step) => forall|j: int|
            0 <= j < before.len() && before[j].0 == id ==> event_step(
                before[j].1,
                #[trigger] after[j].1,
                ev,
                step,
            ),
        None => after == before,
    }
}

/// One session: its phase, its options, and its streams.
pub struct SessionState {
    phase: SessionPhase,
    options: OpenOptions,
    streams: StreamTable,
}

impl SessionState {
    pub closed spec fn phase(&self) -> SessionPhase {
        self.phase
    }

    pub closed spec fn options(&self) -> OpenOptions {
        self.options
    }

    pub closed spec fn streams(&self) -> StreamTable {
        self.streams
    }

    pub closed spec fn wf(&self) -> bool {
        self.streams.wf()
    }

    /// A session this side is about to ask the peer to open.
    pub fn new_client(options: OpenOptions) -> (r: SessionState)
        ensures
            r.wf(),
            r.phase() == SessionPhase::Init,
            r.options() == options,
    {
        SessionState { phase: SessionPhase::Init, options, streams: StreamTable::new() }
    }

    /// A session the peer asked for and the host accepted.
    pub fn new_accepted(options: OpenOptions) -> (r: SessionState)
        ensures
            r.wf(),
            r.phase() == SessionPhase::Open,
            r.options() == options,
    {
        SessionState { phase: SessionPhase::Open, options, streams: StreamTable::new() }
    }

    /// Starts the open handshake: the request to send, if the session has
    /// not been opened yet.
    pub fn open(&mut self) -> (r: Option<SessionEvent>)
        requires
            old(self).wf(),
        ensures
            final(self).wf(),
            final(self).options() == old(self).options(),
            final(self).streams() == old(self).streams(),
            old(self).phase() == SessionPhase::Init ==> r == Some(SessionEvent::Open(old(self).options()))
                && final(self).phase() == SessionPhase::Opening,
            old(self).phase() != SessionPhase::Init ==> r is None && final(self).phase() == old(self).phase(),
    {
        match self.phase {
            SessionPhase::Init => {
                self.phase = SessionPhase::Opening;
                Some(SessionEvent::Open(self.options))
            },
            _ => None,
        }
    }

    /// Starts the close handshake from an open session.
    pub fn close(&mut self) -> (r: Option<SessionEvent>)
        requires
            old(self).wf(),
        ensures
            final(self).wf(),
            final(self).options() == old(self).options(),
            final(self).streams() == old(self).streams(),
            old(self).phase() == SessionPhase::Open ==> r == Some(SessionEvent::Close)
                && final(self).phase() == SessionPhase::Closing,
            old(self).phase() != SessionPhase::Open ==> r is None && final(self).phase() == old(self).phase(),
    {
        match self.phase {
            SessionPhase::Open => {
                self.phase = SessionPhase::Closing;
                Some(SessionEvent::Close)
            },
            _ => None,
        }
    }

    /// Accepts a new stream in an open session; a stream identifier already
    /// accepted once is refused.
    pub fn accept_stream(&mut self, id: u64, options: StreamOptions, length: Option<u64>) -> (r: Acceptable)
        requires
            old(self).wf(),
        ensures
            final(self).wf(),
            final(self).phase() == old(self).phase(),
            old(self).phase() == SessionPhase::Open ==> (r == Acceptable::Accept)
                == !old(self).streams().accepted().contains(id),
            old(self).phase() != SessionPhase::Open ==> r != Acceptable::Accept,
            r == Acceptable::Accept ==> final(self).streams().ids() == old(self).streams().ids().push(id),
            r != Acceptable::Accept ==> final(self).streams().ids() == old(self).streams().ids(),
    {
        match self.phase {
            SessionPhase::Open => {
                if self.streams.accept(id, options, length) {
                    Acceptable::Accept
                } else {
                    Acceptable::Reject(Reason { code: REASON_DUPLICATE_STREAM })
                }
            },
            _ => Acceptable::Reject(Reason { code: REASON_DUPLICATE_STREAM }),
        }
    }

    /// Hands a stream event to the stream it names.
    pub fn dispatch(&mut self, id: u64, ev: &StreamEvent) -> (r: Option<StreamStep>)
        requires
            old(self).wf(),
            ev.wf(),
        ensures
            final(self).wf(),
            final(self).phase() == old(self).phase(),
            final(self).options() == old(self).options(),
            final(self).streams().ids() == old(self).streams().ids(),
            final(self).streams().accepted() == old(self).streams().accepted(),
            r is None <==> !old(self).streams().ids().contains(id),
            dispatched(old(self).streams().entries(), final(self).streams().entries(), id, *ev, r),
    {
        self.streams.dispatch(id, ev)
    }

    /// Handles one inbound session event.
    pub fn on_event(&mut self, ev: &SessionEvent) -> (r: SessionReaction)
        requires
            old(self).wf(),
        ensures
            final(self).wf(),
            final(self).options() == old(self).options(),
            match (old(self).phase(), *ev) {
                (_, SessionEvent::Death(reason)) => final(self).phase() == SessionPhase::Dead(reason)
                    && r.reply is None && r.outcome == (if old(self).phase() == SessionPhase::Opening {
                    Some(Err::<(), LinkError>(LinkError::SessionDeath(reason.code)))
                } else {
                    None::<Result<(), LinkError>>
                }),
                (SessionPhase::Opening, SessionEvent::OpenAck(Acceptable::Accept)) => final(self).phase()
                    == SessionPhase::Open && r.reply is None && r.outcome == Some(Ok::<(), LinkError>(())),
                (SessionPhase::Opening, SessionEvent::OpenAck(Acceptable::Reject(reason))) => final(self).phase() == SessionPhase::Closed && r.reply is None && r.outcome == Some(
                    Err::<(), LinkError>(LinkError::SessionReject(reason.code)),
                ),
                (SessionPhase::Closing, SessionEvent::CloseAck(Acceptable::Accept)) => final(self).phase()
                    == SessionPhase::Closed && r.reply is None && r.outcome is None,
                (SessionPhase::Closing, SessionEvent::CloseAck(Acceptable::Reject(_))) => final(self).phase() == SessionPhase::Open && final(self).streams() == old(self).streams()
                    && r.reply is None && r.outcome is None,
                (SessionPhase::Open, SessionEvent::Close) | (SessionPhase::Closing, SessionEvent::Close) => final(self).phase() == SessionPhase::Closed && r.reply == Some(
                    SessionEvent::CloseAck(Acceptable::Accept),
                ) && r.outcome is None,
                (SessionPhase::Open, SessionEvent::Reopen) => *final(self) == *old(self) && r.reply
                    == Some(
                    SessionEvent::ReopenAck(
                        if old(self).options().allow_reconnect {
                            Acceptable::Accept
                        } else {
                            Acceptable::Reject(Reason { code: REASON_RECONNECT_REFUSED })
                        },
                    ),
                ) && r.outcome is None,
                (SessionPhase::Open, SessionEvent::ReopenAck(Acceptable::Accept)) => *final(self) == *old(self) && r.reply is None && r.outcome is None,
                (SessionPhase::Open, SessionEvent::ReopenAck(Acceptable::Reject(reason))) => final(self).phase() == SessionPhase::Dead(reason) && r.reply is None && r.outcome is None,
                _ => *final(self) == *old(self) && r.reply is None && r.outcome is None,
            },
    {
        let none = SessionReaction { reply: None, outcome: None };
        match (self.phase, *ev) {
            (_, SessionEvent::Death(reason)) => {
                let outcome = if self.phase == SessionPhase::Opening {
                    Some(Err(LinkError::SessionDeath(reason.code)))
                } else {
                    None
                };
                self.phase = SessionPhase::Dead(reason);
                SessionReaction { reply: None, outcome }
            },
            (SessionPhase::Opening, SessionEvent::OpenAck(Acceptable::Accept)) => {
                self.phase = SessionPhase::Open;
                SessionReaction { reply: None, outcome: Some(Ok(())) }
            },
            (SessionPhase::Opening, SessionEvent::OpenAck(Acceptable::Reject(reason))) => {
                self.phase = SessionPhase::Closed;
                SessionReaction { reply: None, outcome: Some(Err(LinkError::SessionReject(reason.code))) }
            },
            (SessionPhase::Closing, SessionEvent::CloseAck(Acceptable::Accept)) => {
                self.phase = SessionPhase::Closed;
                none
            },
            (SessionPhase::Closing, SessionEvent::CloseAck(Acceptable::Reject(_))) => {
                self.phase = SessionPhase::Open;
                none
            },
            (SessionPhase::Open, SessionEvent::Close) | (SessionPhase::Closing, SessionEvent::Close) => {
                self.phase = SessionPhase::Closed;
                SessionReaction { reply: Some(SessionEvent::CloseAck(Acceptable::Accept)), outcome: None }
            },
            (SessionPhase::Open, SessionEvent::Reopen) => {
                let a = if self.options.allow_reconnect {
                    Acceptable::Accept
                } else {
                    Acceptable::Reject(Reason { code: REASON_RECONNECT_REFUSED })
                };
                SessionReaction { reply: Some(SessionEvent::ReopenAck(a)), outcome: None }
            },
            (SessionPhase::Open, SessionEvent::ReopenAck(Acceptable::Accept)) => none,
            (SessionPhase::Open, SessionEvent::ReopenAck(Acceptable::Reject(reason))) => {
                self.phase = SessionPhase::Dead(reason);
                none
            },
            _ => none,
        }
    }
}

/// The decision on a waiter: the first one goes through, any later one
/// fails with `Closed`.
pub open spec fn decide_spec(decided: bool, a: Acceptable) -> (Result<Acceptable, WaiterError>, bool) {
    if decided {
        (Err(WaiterError::Closed), true)
    } else {
        (Ok(a), true)
    }
}

/// A waiter takes one decision at most: after any first decision, every
/// further one fails with `Closed`.
pub proof fn lemma_single_decision(a: Acceptable, b: Acceptable)
    ensures
        decide_spec(false, a).0 == Ok::<Acceptable, WaiterError>(a),
        decide_spec(decide_spec(false, a).1, b).0 == Err::<Acceptable, WaiterError>(WaiterError::Closed),
        forall|d: bool| #[trigger] decide_spec(decide_spec(d, a).1, b).0 == Err::<Acceptable, WaiterError>(WaiterError::Closed),
{
}

/// Settles an inbound session open: asks the host's strategy once and
/// records its answer on the waiter.
pub fn decide_session_open<S: Strategy>(strategy: &S, waiter: &mut Waiter) -> (r: Acceptable)
    requires
        !old(waiter).is_decided(),
    ensures
        final(waiter).is_decided(),
{
    let a = strategy.ack_session_open();
    let _ = waiter.decide(a);
    a
}

/// Settles an inbound stream open: asks the host's strategy once, then
/// refuses a stream identifier the session already accepted, and records
/// the answer on the waiter.
pub fn decide_stream_open<S: Strategy>(
    strategy: &S,
    waiter: &mut Waiter,
    session: &mut SessionState,
    id: u64,
    options: StreamOptions,
    length: Option<u64>,
) -> (r: Acceptable)
    requires
        !old(waiter).is_decided(),
        old(session).wf(),
    ensures
        final(waiter).is_decided(),
        final(session).wf(),
        final(session).phase() == old(session).phase(),
        r == Acceptable::Accept ==> old(session).phase() == SessionPhase::Open
            && !old(session).streams().accepted().contains(id) && final(session).streams().ids()
            == old(session).streams().ids().push(id),
        r != Acceptable::Accept ==> final(session).streams().ids() == old(session).streams().ids(),
{
    let a = match strategy.ack_stream_open() {
        Acceptable::Accept => session.accept_stream(id, options, length),
        rejected => rejected,
    };
    let _ = waiter.decide(a);
    a
}

#[derive(Clone, Copy, Debug, PartialEq, Eq, Structural)]
pub enum WaiterError {
    /// The waiter was already decided.
    Closed,
}

/// A handle on an inbound open request, to be decided once by the host.
pub struct Waiter {
    decided: bool,
}

impl Waiter {
    pub closed spec fn is_decided(&self) -> bool {
        self.decided
    }

    pub fn new() -> (r: Waiter)
        ensures
            !r.is_decided(),
    {
        Waiter { decided: false }
    }

    /// Accepts the request.
    pub fn accept(&mut self) -> (r: Result<Acceptable, WaiterError>)
        ensures
            (r, final(self).is_decided()) == decide_spec(old(self).is_decided(), Acceptable::Accept),
    {
        self.decide(Acceptable::Accept)
    }

    /// Rejects the request with a reason code.
    pub fn reject(&mut self, code: u64) -> (r: Result<Acceptable, WaiterError>)
        ensures
            (r, final(self).is_decided()) == decide_spec(
                old(self).is_decided(),
                Acceptable::Reject(Reason { code }),
            ),
    {
        self.decide(Acceptable::Reject(Reason { code }))
    }

    fn decide(&mut self, a: Acceptable) -> (r: Result<Acceptable, WaiterError>)
        ensures
            (r, final(self).is_decided()) == decide_spec(old(self).is_decided(), a),
    {
        if self.decided {
            Err(WaiterError::Closed)
        } else {
            self.decided = true;
            Ok(a)
        }
    }

    /// What the request gets when the host drops the waiter: a rejection
    /// with the abandoned reason, unless it was already decided.
    pub fn abandon(&self) -> (r: Option<Acceptable>)
        ensures
            r == if self.is_decided() {
                None
            } else {
                Some(Acceptable::Reject(Reason { code: REASON_STRATEGY_ABANDONED }))
            },
    {
        if self.decided {
            None
        } else {
            Some(Acceptable::Reject(Reason { code: REASON_STRATEGY_ABANDONED }))
        }
    }
}

} // verus!
