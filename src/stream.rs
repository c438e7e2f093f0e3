//! The data path of a chunked stream: the receiving side records orders,
//! surfaces data (in order where that is enforced) and checks a flush; the
//! sending side numbers chunks, pauses and resumes, and answers lacks.

use vstd::prelude::*;
use crate::channel::Reason;
use crate::channel::stream::{
    values_of, Block, Chunk, ChunkAck, Event as StreamEvent, EventView as StreamEventView, Lack,
    OpenOptions,
};
use crate::strategy::Acceptable;
use crate::ubig::{u64_limit, UBig};

verus! {

/// A lack named an order that was never sent.
pub const REASON_INVALID_LACK: u64 = 1;

/// A stream was opened with a length and then used for a block.
pub const REASON_INVALID_OPEN: u64 = 2;

/// A packet broke the protocol: an unexpected head or an order out of range.
pub const REASON_PROTOCOL_VIOLATION: u64 = 3;

/// A reopen was refused because the stream does not allow reconnection.
pub const REASON_RECONNECT_REFUSED: u64 = 4;

/// What the receiver does with one chunk.
pub struct Delivery {
    /// Whether to answer with an acknowledgement of the chunk's order.
    pub ack: bool,
    /// The chunks surfaced to the consumer now, with their orders.
    pub surfaced: Vec<(u64, Vec<u8>)>,
}

/// The receiver's answer to a flush.
pub enum FlushReply {
    Ack,
    Lack(Vec<u64>),
}

pub open spec fn orders_of(s: Seq<(u64, Vec<u8>)>) -> Seq<u64> {
    s.map_values(|c: (u64, Vec<u8>)| c.0)
}

proof fn lemma_push_contains(s: Seq<u64>, x: u64)
    ensures
        forall|y: u64| s.push(x).contains(y) <==> (s.contains(y) || y == x),
        s.push(x).to_set() == s.to_set().insert(x),
{
    assert forall|y: u64| s.push(x).contains(y) <==> (s.contains(y) || y == x) by {
        if s.contains(y) {
            let j = choose|j: int| 0 <= j < s.len() && s[j] == y;
            assert(s.push(x)[j] == y);
        }
        if y == x {
            assert(s.push(x)[s.len() as int] == x);
        }
        if s.push(x).contains(y) {
            let j = choose|j: int| 0 <= j < s.len() + 1 && s.push(x)[j] == y;
            if j < s.len() {
                assert(s[j] == y);
            }
        }
    }
    s.lemma_push_to_set_commute(x);
}

/// The receiving side of a chunked stream.
pub struct ChunkReceiver {
    orderliness: bool,
    integrity: bool,
    received: Vec<u64>,
    next_surface: u64,
    pending: Vec<(u64, Vec<u8>)>,
    surfaced: Ghost<Seq<u64>>,
    data: Ghost<Map<u64, Seq<u8>>>,
}

impl ChunkReceiver {
    pub closed spec fn enforce_orderliness(&self) -> bool {
        self.orderliness
    }

    pub closed spec fn enforce_integrity(&self) -> bool {
        self.integrity
    }

    /// Every order received so far.
    pub closed spec fn received(&self) -> Set<u64> {
        self.received@.to_set()
    }

    /// The orders surfaced to the consumer so far, in the order surfaced.
    pub closed spec fn surfaced(&self) -> Seq<u64> {
        self.surfaced@
    }

    /// The data first received under each order.
    pub closed spec fn data_of(&self) -> Map<u64, Seq<u8>> {
        self.data@
    }

    closed spec fn wf_core(&self) -> bool {
        &&& self.received@.no_duplicates()
        &&& forall|i: int|
            0 <= i < self.surfaced@.len() ==> self.received@.contains(#[trigger] self.surfaced@[i])
        &&& forall|i: int|
            0 <= i < self.pending@.len() ==> self.received@.contains(#[trigger] self.pending@[i].0)
        &&& forall|i: int|
            0 <= i < self.pending@.len() ==> self.data@.contains_key(#[trigger] self.pending@[i].0)
                && self.data@[self.pending@[i].0] == self.pending@[i].1@
        &&& self.data@.dom() == self.received@.to_set()
        &&& self.orderliness ==> self.surfaced@.len() == self.next_surface
        &&& self.orderliness ==> forall|i: int|
            0 <= i < self.surfaced@.len() ==> #[trigger] self.surfaced@[i] == i
        &&& self.orderliness ==> forall|o: u64|
            #[trigger] self.received@.contains(o) ==> o < self.next_surface || orders_of(
                self.pending@,
            ).contains(o)
    }

    pub closed spec fn wf(&self) -> bool {
        &&& self.wf_core()
        &&& self.orderliness && self.next_surface < u64::MAX ==> !self.received@.contains(
            self.next_surface,
        )
    }

    /// Under enforced ordering, the next order to surface has not been
    /// received: every order received without a gap from 0 is surfaced.
    pub proof fn lemma_no_ready_chunk_held(&self)
        requires
            self.wf(),
            self.enforce_orderliness(),
            self.surfaced().len() < u64::MAX,
        ensures
            !self.received().contains(self.surfaced().len() as u64),
    {
    }

    /// Under enforced ordering, the orders surfaced so far are exactly
    /// 0, 1, 2, ... in that order: no gap, no repeat, nothing out of turn.
    pub proof fn lemma_surfaced_in_order(&self)
        requires
            self.wf(),
            self.enforce_orderliness(),
        ensures
            forall|i: int| 0 <= i < self.surfaced().len() ==> #[trigger] self.surfaced()[i] == i,
            forall|i: int, j: int|
                0 <= i < j < self.surfaced().len() ==> self.surfaced()[i] < self.surfaced()[j],
    {
        assert forall|i: int, j: int|
            0 <= i < j < self.surfaced().len() implies self.surfaced()[i] < self.surfaced()[j] by {
            assert(self.surfaced@[i] == i);
            assert(self.surfaced@[j] == j);
        }
    }

    pub fn new(enforce_orderliness: bool, enforce_integrity: bool) -> (r: ChunkReceiver)
        ensures
            r.wf(),
            r.enforce_orderliness() == enforce_orderliness,
            r.enforce_integrity() == enforce_integrity,
            r.received() == Set::<u64>::empty(),
            r.surfaced() == Seq::<u64>::empty(),
    {
        let r = ChunkReceiver {
            orderliness: enforce_orderliness,
            integrity: enforce_integrity,
            received: Vec::new(),
            next_surface: 0,
            pending: Vec::new(),
            surfaced: Ghost(Seq::empty()),
            data: Ghost(Map::empty()),
        };
        assert(r.received@.to_set() =~= Set::<u64>::empty());
        assert(r.data@.dom() =~= Set::<u64>::empty());
        r
    }

    fn has_received(&self, order: u64) -> (r: bool)
        ensures
            r == self.received@.contains(order),
    {
        let mut i: usize = 0;
        while i < self.received.len()
            invariant
                i <= self.received@.len(),
                forall|j: int| 0 <= j < i ==> self.received@[j] != order,
            decreases self.received@.len() - i,
        {
            if self.received[i] == order {
                return true;
            }
            i = i + 1;
        }
        false
    }

    /// Whether `order` has been received.
    pub fn contains(&self, order: u64) -> (r: bool)
        ensures
            r == self.received().contains(order),
    {
        proof {
            if self.received@.contains(order) {
                let j = choose|j: int| 0 <= j < self.received@.len() && self.received@[j] == order;
                assert(self.received@.to_set().contains(self.received@[j]));
            }
        }
        self.has_received(order)
    }

    /// Records one chunk. A duplicate changes nothing and surfaces nothing.
    /// Without ordering a new chunk is surfaced at once; with ordering,
    /// chunks are held until every lower order has been surfaced.
    pub fn on_chunk(&mut self, order: u64, data: Vec<u8>) -> (r: Delivery)
        requires
            old(self).wf(),
        ensures
            final(self).wf(),
            final(self).enforce_orderliness() == old(self).enforce_orderliness(),
            final(self).enforce_integrity() == old(self).enforce_integrity(),
            final(self).received() == old(self).received().insert(order),
            r.ack == old(self).enforce_integrity(),
            final(self).surfaced() == old(self).surfaced() + orders_of(r.surfaced@),
            old(self).received().contains(order) ==> r.surfaced@.len() == 0,
            !old(self).received().contains(order) && !old(self).enforce_orderliness() ==> (
            r.surfaced@.len() == 1 && r.surfaced@[0].0 == order && r.surfaced@[0].1@ == data@),
            final(self).data_of() == if old(self).received().contains(order) {
                old(self).data_of()
            } else {
                old(self).data_of().insert(order, data@)
            },
            forall|i: int|
                0 <= i < r.surfaced@.len() ==> final(self).data_of().contains_key(
                    (#[trigger] r.surfaced@[i]).0,
                ) && r.surfaced@[i].1@ == final(self).data_of()[r.surfaced@[i].0],
            final(self).enforce_orderliness() && final(self).surfaced().len() < u64::MAX ==> !final(self).received().contains(final(self).surfaced().len() as u64),
    {
        let ack = self.integrity;
        let mut out: Vec<(u64, Vec<u8>)> = Vec::new();
        if self.contains(order) {
            proof {
                assert(self.received@.to_set().insert(order) =~= self.received@.to_set());
                assert(orders_of(out@) =~= Seq::<u64>::empty());
                assert(self.surfaced@ + orders_of(out@) =~= self.surfaced@);
            }
            return Delivery { ack, surfaced: out };
        }
        let ghost old_received = self.received@;
        self.received.push(order);
        self.data = Ghost(self.data@.insert(order, data@));
        proof {
            lemma_push_contains(old_received, order);
            assert(self.received@.no_duplicates()) by {
                assert forall|i: int, j: int| 0 <= i < j < self.received@.len() implies self.received@[i] != self.received@[j] by {
                    if j == old_received.len() {
                        assert(old_received.contains(old_received[i]));
                    }
                }
            }
            assert forall|i: int| 0 <= i < self.surfaced@.len() implies self.received@.contains(#[trigger] self.surfaced@[i]) by {
                assert(old(self).received@.contains(self.surfaced@[i]));
            }
            assert forall|i: int| 0 <= i < self.pending@.len() implies self.received@.contains(#[trigger] self.pending@[i].0) by {
                assert(old(self).received@.contains(self.pending@[i].0));
            }
            assert forall|i: int| 0 <= i < self.pending@.len() implies self.data@.contains_key(#[trigger] self.pending@[i].0)
                && self.data@[self.pending@[i].0] == self.pending@[i].1@ by {
                assert(old(self).received@.contains(self.pending@[i].0));
                assert(old(self).received@.to_set().contains(self.pending@[i].0));
            }
            assert(self.data@.dom() =~= self.received@.to_set());
        }
        if !self.orderliness {
            let ghost d = data@;
            out.push((order, data));
            self.surfaced = Ghost(self.surfaced@.push(order));
            proof {
                assert(orders_of(out@) =~= seq![order]);
                assert(out@[0].1@ == d);
            }
            return Delivery { ack, surfaced: out };
        }
        self.pending.push((order, data));
        proof {
            assert(orders_of(out@) =~= Seq::<u64>::empty());
            assert forall|i: int| 0 <= i < self.pending@.len() implies self.data@.contains_key(#[trigger] self.pending@[i].0)
                && self.data@[self.pending@[i].0] == self.pending@[i].1@ by {
                if i < self.pending@.len() - 1 {
                    assert(self.pending@[i] == old(self).pending@[i]);
                }
            }
            assert(self.surfaced@ + orders_of(out@) =~= self.surfaced@);
            assert forall|i: int| 0 <= i < self.pending@.len() implies self.received@.contains(#[trigger] self.pending@[i].0) by {
                if i < self.pending@.len() - 1 {
                    assert(self.pending@[i] == old(self).pending@[i]);
                }
            }
            let op = old(self).pending@;
            assert(orders_of(self.pending@) =~= orders_of(op).push(order));
            assert forall|o: u64| #[trigger] self.received@.contains(o) implies o < self.next_surface
                || orders_of(self.pending@).contains(o) by {
                if o == order {
                    assert(orders_of(self.pending@)[op.len() as int] == order);
                } else {
                    assert(old_received.contains(o));
                    if orders_of(op).contains(o) {
                        let k = choose|k: int| 0 <= k < orders_of(op).len() && orders_of(op)[k] == o;
                        assert(orders_of(self.pending@)[k] == o);
                    }
                }
            }
        }
        self.surface_ready(&mut out);
        assert(out@.subrange(0, out@.len() as int) =~= out@);
        Delivery { ack, surfaced: out }
    }

    /// Answers a flush that announces `length` chunks: an acknowledgement
    /// when integrity is not enforced or every order below `length` has been
    /// received, else a lack naming every missing order below `length`, in
    /// increasing order.
    pub fn on_flush(&self, length: u64) -> (r: FlushReply)
        requires
            self.wf(),
        ensures
            r is Ack <==> (!self.enforce_integrity() || forall|o: u64|
                o < length ==> #[trigger] self.received().contains(o)),
            match r {
                FlushReply::Ack => true,
                FlushReply::Lack(m) => {
                    &&& 0 < m@.len()
                    &&& forall|i: int|
                        0 <= i < m@.len() ==> #[trigger] m@[i] < length && !self.received().contains(
                            m@[i],
                        )
                    &&& forall|i: int, j: int| 0 <= i < j < m@.len() ==> m@[i] < m@[j]
                    &&& forall|o: u64|
                        o < length && !#[trigger] self.received().contains(o) ==> m@.contains(o)
                },
            },
    {
        if !self.integrity {
            return FlushReply::Ack;
        }
        let mut m: Vec<u64> = Vec::new();
        let mut o: u64 = 0;
        while o < length
            invariant
                o <= length,
                forall|i: int| 0 <= i < m@.len() ==> #[trigger] m@[i] < o && !self.received().contains(m@[i]),
                forall|i: int, j: int| 0 <= i < j < m@.len() ==> m@[i] < m@[j],
                forall|x: u64| x < o && !#[trigger] self.received().contains(x) ==> m@.contains(x),
            decreases length - o,
        {
            if !self.contains(o) {
                let ghost old_m = m@;
                m.push(o);
                assert(m@[old_m.len() as int] == o);
                assert forall|x: u64| x < o + 1 && !#[trigger] self.received().contains(x) implies m@.contains(x) by {
                    if x < o {
                        let k = choose|k: int| 0 <= k < old_m.len() && old_m[k] == x;
                        assert(m@[k] == x);
                    }
                }
            }
            o = o + 1;
        }
        if m.len() == 0 {
            assert forall|x: u64| x < length implies #[trigger] self.received().contains(x) by {
                if !self.received().contains(x) {
                    assert(m@.contains(x));
                }
            }
            FlushReply::Ack
        } else {
            assert(!self.received().contains(m@[0]) && m@[0] < length);
            FlushReply::Lack(m)
        }
    }

    fn find_pending(&self, order: u64) -> (r: Option<usize>)
        ensures
            match r {
                Some(j) => j < self.pending@.len() && self.pending@[j as int].0 == order,
                None => !orders_of(self.pending@).contains(order),
            },
    {
        let mut j: usize = 0;
        while j < self.pending.len()
            invariant
                j <= self.pending@.len(),
                forall|k: int| 0 <= k < j ==> self.pending@[k].0 != order,
            decreases self.pending@.len() - j,
        {
            if self.pending[j].0 == order {
                return Some(j);
            }
            j = j + 1;
        }
        proof {
            if orders_of(self.pending@).contains(order) {
                let k = choose|k: int| 0 <= k < orders_of(self.pending@).len() && orders_of(self.pending@)[k] == order;
                assert(self.pending@[k].0 == order);
            }
        }
        None
    }

    /// Moves held chunks to `out` while the next order is among them.
    fn surface_ready(&mut self, out: &mut Vec<(u64, Vec<u8>)>)
        requires
            old(self).wf_core(),
            old(self).orderliness,
        ensures
            final(self).wf(),
            final(self).orderliness == old(self).orderliness,
            final(self).integrity == old(self).integrity,
            final(self).received == old(self).received,
            final(self).surfaced@ == old(self).surfaced@ + orders_of(
                final(out)@.subrange(old(out)@.len() as int, final(out)@.len() as int),
            ),
            final(out)@.subrange(0, old(out)@.len() as int) == old(out)@,
            final(self).data == old(self).data,
            forall|i: int|
                old(out)@.len() <= i < final(out)@.len() ==> final(self).data@.contains_key(
                    (#[trigger] final(out)@[i]).0,
                ) && final(out)@[i].1@ == final(self).data@[final(out)@[i].0],
    {
        let ghost start = out@.len();
        let mut go = true;
        assert(orders_of(out@.subrange(start as int, out@.len() as int)) =~= Seq::<u64>::empty());
        assert(self.surfaced@ + Seq::<u64>::empty() =~= self.surfaced@);
        assert(out@.subrange(0, start as int) =~= old(out)@);
        while go
            invariant
                self.wf_core(),
                !go ==> self.next_surface == u64::MAX || !self.received@.contains(self.next_surface),
                self.orderliness,
                self.integrity == old(self).integrity,
                self.received == old(self).received,
                start == old(out)@.len(),
                start <= out@.len(),
                out@.subrange(0, start as int) == old(out)@,
                self.surfaced@ == old(self).surfaced@ + orders_of(
                    out@.subrange(start as int, out@.len() as int),
                ),
                self.data == old(self).data,
                forall|i: int|
                    start <= i < out@.len() ==> self.data@.contains_key((#[trigger] out@[i]).0)
                        && out@[i].1@ == self.data@[out@[i].0],
            decreases self.pending@.len() + if go {
                1int
            } else {
                0int
            },
        {
            if self.next_surface == u64::MAX {
                go = false;
            } else {
                match self.find_pending(self.next_surface) {
                    None => {
                        proof {
                            if self.received@.contains(self.next_surface) {
                                assert(orders_of(self.pending@).contains(self.next_surface));
                            }
                        }
                        go = false;
                    },
                    Some(j) => {
                        let ghost old_pending = self.pending@;
                        let ghost old_ns = self.next_surface;
                        let ghost old_out = out@;
                        let ghost old_surf = self.surfaced@;
                        let (o, d) = self.pending.remove(j);
                        assert(old_pending.remove(j as int) == self.pending@);
                        assert forall|i: int| 0 <= i < self.pending@.len() implies self.received@.contains(
                            #[trigger] self.pending@[i].0,
                        ) by {
                            if i < j {
                                assert(self.pending@[i] == old_pending[i]);
                            } else {
                                assert(self.pending@[i] == old_pending[i + 1]);
                            }
                        }
                        out.push((o, d));
                        self.surfaced = Ghost(self.surfaced@.push(o));
                        self.next_surface = self.next_surface + 1;
                        assert(old_pending[j as int].0 == o);
                        assert(out@.subrange(start as int, out@.len() as int) =~= old_out.subrange(
                            start as int,
                            old_out.len() as int,
                        ).push((o, d)));
                        assert(orders_of(out@.subrange(start as int, out@.len() as int)) =~= orders_of(
                            old_out.subrange(start as int, old_out.len() as int),
                        ).push(o));
                        assert(self.surfaced@ =~= old(self).surfaced@ + orders_of(
                            out@.subrange(start as int, out@.len() as int),
                        ));
                        assert(out@.subrange(0, start as int) =~= old_out.subrange(0, start as int));
                        assert forall|i: int| 0 <= i < self.surfaced@.len() implies self.received@.contains(
                            #[trigger] self.surfaced@[i],
                        ) by {
                            if i < old_surf.len() {
                                assert(self.surfaced@[i] == old_surf[i]);
                            }
                        }
                        assert forall|x: u64| #[trigger] self.received@.contains(x) implies x
                            < self.next_surface || orders_of(self.pending@).contains(x) by {
                            if x >= self.next_surface {
                                assert(x != old_ns);
                                assert(orders_of(old_pending).contains(x));
                                let k = choose|k: int| 0 <= k < orders_of(old_pending).len() && orders_of(old_pending)[k] == x;
                                assert(k != j);
                                if k < j {
                                    assert(orders_of(self.pending@)[k] == x);
                                } else {
                                    assert(orders_of(self.pending@)[k - 1] == x);
                                }
                            }
                        }
                    },
                }
            }
        }
    }
}


/// The sending side of a chunked stream.
pub struct ChunkSender {
    sent: Vec<Vec<u8>>,
    paused: bool,
    acked: Vec<u64>,
}

impl ChunkSender {
    /// The order the next chunk gets: orders start at 0 and grow by one.
    pub closed spec fn next_order(&self) -> nat {
        self.sent@.len()
    }

    /// The data sent under each order so far.
    pub closed spec fn sent(&self) -> Seq<Seq<u8>> {
        self.sent@.map_values(|d: Vec<u8>| d@)
    }

    /// Whether the receiver asked to pause.
    pub closed spec fn paused(&self) -> bool {
        self.paused
    }

    /// The orders the receiver acknowledged.
    pub closed spec fn acked(&self) -> Set<u64> {
        self.acked@.to_set()
    }

    pub closed spec fn wf(&self) -> bool {
        &&& self.sent@.len() <= u64::MAX
        &&& forall|o: u64| #[trigger] self.acked@.contains(o) ==> o < self.sent@.len()
    }

    pub proof fn lemma_next_order_bound(&self)
        requires
            self.wf(),
        ensures
            self.next_order() <= u64_limit(),
    {
    }

    pub fn new() -> (r: ChunkSender)
        ensures
            r.wf(),
            r.next_order() == 0,
            !r.paused(),
            r.acked() == Set::<u64>::empty(),
            r.sent() == Seq::<Seq<u8>>::empty(),
    {
        let r = ChunkSender { sent: Vec::new(), paused: false, acked: Vec::new() };
        assert(r.acked@.to_set() =~= Set::<u64>::empty());
        assert(r.sent@.map_values(|d: Vec<u8>| d@) =~= Seq::<Seq<u8>>::empty());
        r
    }

    /// Numbers the next chunk and keeps its data for retransmission; nothing
    /// is sent while paused or once every order is used.
    pub fn send(&mut self, data: Vec<u8>) -> (r: Option<u64>)
        requires
            old(self).wf(),
        ensures
            final(self).wf(),
            final(self).paused() == old(self).paused(),
            final(self).acked() == old(self).acked(),
            r is None <==> old(self).paused() || old(self).next_order() == u64::MAX,
            match r {
                Some(o) => o == old(self).next_order() && final(self).sent() == old(self).sent().push(
                    data@,
                ) && final(self).next_order() == old(self).next_order() + 1,
                None => final(self).sent() == old(self).sent() && final(self).next_order() == old(self).next_order(),
            },
    {
        if self.paused || self.sent.len() as u64 == u64::MAX {
            return None;
        }
        let o = self.sent.len() as u64;
        let ghost d = data@;
        self.sent.push(data);
        assert(self.sent@.map_values(|d: Vec<u8>| d@) =~= old(self).sent@.map_values(|d: Vec<u8>| d@).push(d));
        Some(o)
    }

    /// The receiver asks for a pause; a second one changes nothing.
    pub fn on_later(&mut self)
        ensures
            final(self).next_order() == old(self).next_order(),
            final(self).paused(),
            final(self).sent() == old(self).sent(),
            final(self).acked() == old(self).acked(),
            old(self).wf() ==> final(self).wf(),
    {
        self.paused = true;
    }

    /// The receiver asks to resume at the next unsent order.
    pub fn on_go(&mut self)
        ensures
            final(self).next_order() == old(self).next_order(),
            !final(self).paused(),
            final(self).sent() == old(self).sent(),
            final(self).acked() == old(self).acked(),
            old(self).wf() ==> final(self).wf(),
    {
        self.paused = false;
    }

    /// Records an acknowledgement; one of an order never sent is refused.
    pub fn on_ack(&mut self, order: u64) -> (r: bool)
        requires
            old(self).wf(),
        ensures
            final(self).wf(),
            r == (order < old(self).next_order()),
            final(self).acked() == if r {
                old(self).acked().insert(order)
            } else {
                old(self).acked()
            },
            final(self).sent() == old(self).sent(),
            final(self).paused() == old(self).paused(),
    {
        if order < self.sent.len() as u64 {
            let ghost old_acked = self.acked@;
            self.acked.push(order);
            proof {
                lemma_push_contains(old_acked, order);
                assert(self.acked@ == old_acked.push(order));
                assert forall|o: u64| #[trigger] self.acked@.contains(o) implies o < self.sent@.len() by {
                    assert(old_acked.push(order).contains(o));
                    if o != order {
                        assert(old_acked.contains(o));
                    }
                }
            }
            true
        } else {
            false
        }
    }

    /// The chunks a lack asks for again, in the order asked; a lack that
    /// names an order never sent is answered by clearing the stream.
    pub fn on_lack(&self, orders: &Vec<u64>) -> (r: Result<Vec<(u64, Vec<u8>)>, Reason>)
        requires
            self.wf(),
        ensures
            r is Err <==> exists|i: int| 0 <= i < orders@.len() && #[trigger] orders@[i] >= self.next_order(),
            match r {
                Ok(v) => v@.len() == orders@.len() && forall|i: int|
                    0 <= i < v@.len() ==> (#[trigger] v@[i]).0 == orders@[i] && v@[i].1@ == self.sent()[orders@[i] as int],
                Err(reason) => reason.code == REASON_INVALID_LACK,
            },
    {
        let mut v: Vec<(u64, Vec<u8>)> = Vec::new();
        let mut i: usize = 0;
        while i < orders.len()
            invariant
                i <= orders@.len(),
                v@.len() == i,
                forall|j: int| 0 <= j < i ==> #[trigger] orders@[j] < self.next_order(),
                forall|j: int|
                    0 <= j < i ==> (#[trigger] v@[j]).0 == orders@[j] && v@[j].1@ == self.sent()[orders@[j] as int],
            decreases orders@.len() - i,
        {
            let o = orders[i];
            if o >= self.sent.len() as u64 {
                return Err(Reason { code: REASON_INVALID_LACK });
            }
            let data = self.sent[o as usize].clone();
            assert(data@ =~= self.sent@[o as int]@);
            v.push((o, data));
            i = i + 1;
        }
        Ok(v)
    }
}


pub open spec fn event_views(s: Seq<StreamEvent>) -> Seq<StreamEventView> {
    s.map_values(|e: StreamEvent| e.view())
}

pub open spec fn data_views(s: Seq<(u64, Vec<u8>)>) -> Seq<Seq<u8>> {
    s.map_values(|c: (u64, Vec<u8>)| c.1@)
}

/// What handling one stream event yields: the events to send back, and the
/// data to hand to the consumer, in order.
pub struct StreamStep {
    pub replies: Vec<StreamEvent>,
    pub delivered: Vec<Vec<u8>>,
    /// Whether this event acknowledged the block this side sent.
    pub block_acked: bool,
}

/// One stream: its options, its two directions of chunked transfer, and
/// whether it has ended.
pub struct StreamState {
    options: OpenOptions,
    length: Option<u64>,
    receiver: ChunkReceiver,
    sender: ChunkSender,
    awaiting_block_ack: bool,
    closed: bool,
}

fn one_reply(e: StreamEvent) -> (r: StreamStep)
    ensures
        r.replies@.len() == 1,
        r.replies@[0] == e,
        r.delivered@.len() == 0,
        !r.block_acked,
{
    let mut replies: Vec<StreamEvent> = Vec::new();
    replies.push(e);
    StreamStep { replies, delivered: Vec::new(), block_acked: false }
}

fn no_reply() -> (r: StreamStep)
    ensures
        r.replies@.len() == 0,
        r.delivered@.len() == 0,
        !r.block_acked,
{
    StreamStep { replies: Vec::new(), delivered: Vec::new(), block_acked: false }
}

impl StreamState {
    pub closed spec fn options(&self) -> OpenOptions {
        self.options
    }

    /// The total length announced when the stream was opened, if any.
    pub closed spec fn length(&self) -> Option<u64> {
        self.length
    }

    pub closed spec fn receiver(&self) -> ChunkReceiver {
        self.receiver
    }

    pub closed spec fn sender(&self) -> ChunkSender {
        self.sender
    }

    pub closed spec fn is_closed(&self) -> bool {
        self.closed
    }

    /// Whether a block this side sent still waits for its acknowledgement.
    pub closed spec fn awaiting_block_ack(&self) -> bool {
        self.awaiting_block_ack
    }

    pub closed spec fn wf(&self) -> bool {
        &&& self.receiver.wf()
        &&& self.sender.wf()
        &&& self.receiver.enforce_orderliness() == self.options.enforce_orderliness
        &&& self.receiver.enforce_integrity() == self.options.enforce_integrity
    }

    pub fn new(options: OpenOptions, length: Option<u64>) -> (r: StreamState)
        ensures
            r.wf(),
            r.options() == options,
            r.length() == length,
            !r.is_closed(),
            r.receiver().received() == Set::<u64>::empty(),
            r.sender().next_order() == 0,
            r.sender().sent() == Seq::<Seq<u8>>::empty(),
            !r.sender().paused(),
            !r.awaiting_block_ack(),
    {
        StreamState {
            options,
            length,
            receiver: ChunkReceiver::new(options.enforce_orderliness, options.enforce_integrity),
            sender: ChunkSender::new(),
            awaiting_block_ack: false,
            closed: false,
        }
    }

    /// The block to send; when `ask_response` is set the stream then waits
    /// for its acknowledgement. `None` once the stream has ended.
    pub fn send_block(&mut self, data: Vec<u8>, ask_response: bool) -> (r: Option<StreamEvent>)
        requires
            old(self).wf(),
        ensures
            final(self).wf(),
            old(self).is_closed() ==> r is None && *final(self) == *old(self),
            !old(self).is_closed() ==> r is Some && r.unwrap().view() == (StreamEventView::Block {
                ask_response,
                data: data@,
            }) && final(self).awaiting_block_ack() == (old(self).awaiting_block_ack() || ask_response)
                && final(self).options() == old(self).options() && final(self).receiver() == old(self).receiver() && final(self).sender() == old(self).sender() && !final(self).is_closed(),
    {
        if self.closed {
            return None;
        }
        self.awaiting_block_ack = self.awaiting_block_ack || ask_response;
        Some(StreamEvent::Block(Block { ask_response, data }))
    }

    /// Numbers and records an outgoing chunk; `None` while paused or closed.
    pub fn send_chunk(&mut self, data: Vec<u8>) -> (r: Option<StreamEvent>)
        requires
            old(self).wf(),
        ensures
            final(self).wf(),
            final(self).is_closed() == old(self).is_closed(),
            r is None <==> old(self).is_closed() || old(self).sender().paused() || old(self).sender().next_order() == u64::MAX,
            match r {
                Some(e) => e.view() == (StreamEventView::Chunk {
                    order: old(self).sender().next_order(),
                    data: data@,
                }) && final(self).sender().next_order() == old(self).sender().next_order() + 1
                    && final(self).sender().sent() == old(self).sender().sent().push(data@),
                None => final(self).sender().next_order() == old(self).sender().next_order()
                    && final(self).sender().sent() == old(self).sender().sent(),
            },
    {
        if self.closed {
            return None;
        }
        let ghost d = data@;
        let copy = crate::channel::stream::clone_bytes(&data);
        match self.sender.send(data) {
            Some(o) => Some(StreamEvent::Chunk(Chunk { order: UBig::from_u64(o), data: copy })),
            None => None,
        }
    }

    /// Handles one inbound stream event. Once the stream has ended nothing
    /// more happens.
    pub fn on_event(&mut self, ev: &StreamEvent) -> (r: StreamStep)
        requires
            old(self).wf(),
            ev.wf(),
        ensures
            event_step(*old(self), *final(self), *ev, r),
    {
        if self.closed {
            return no_reply();
        }
        match ev {
            StreamEvent::Clear(_) => {
                self.closed = true;
                no_reply()
            },
            StreamEvent::FlushAck => {
                self.closed = true;
                no_reply()
            },
            StreamEvent::Block(b) => self.on_block(b),
            StreamEvent::Chunk(c) => self.on_chunk_event(c),
            StreamEvent::Flush(f) => self.on_flush_event(&f.length),
            StreamEvent::Lack(l) => self.on_lack_event(&l.orders),
            StreamEvent::Later => {
                self.sender.on_later();
                no_reply()
            },
            StreamEvent::Go => {
                self.sender.on_go();
                no_reply()
            },
            StreamEvent::Reopen => {
                let a = if self.options.allow_reconnect {
                    Acceptable::Accept
                } else {
                    Acceptable::Reject(Reason { code: REASON_RECONNECT_REFUSED })
                };
                let r = one_reply(StreamEvent::ReopenAck(a));
                assert(event_views(r.replies@) =~= seq![StreamEventView::ReopenAck(a)]);
                r
            },
            StreamEvent::ReopenAck(a) => {
                if let Acceptable::Reject(_) = a {
                    self.closed = true;
                }
                no_reply()
            },
            StreamEvent::ChunkAck(c) => {
                proof {
                    self.sender.lemma_next_order_bound();
                }
                if let Some(o) = c.order.to_u64() {
                    let _ = self.sender.on_ack(o);
                }
                no_reply()
            },
            StreamEvent::BlockAck => {
                let mut r = no_reply();
                r.block_acked = self.awaiting_block_ack;
                self.awaiting_block_ack = false;
                r
            },
            _ => no_reply(),
        }
    }

    fn clear_with(&mut self, code: u64) -> (r: StreamStep)
        ensures
            *final(self) == (StreamState { closed: true, ..*old(self) }),
            event_views(r.replies@) == seq![StreamEventView::Clear(Reason { code })],
            r.delivered@.len() == 0,
    {
        self.closed = true;
        let r = one_reply(StreamEvent::Clear(Reason { code }));
        assert(event_views(r.replies@) =~= seq![StreamEventView::Clear(Reason { code })]);
        r
    }

    fn on_block(&mut self, b: &Block) -> (r: StreamStep)
        requires
            old(self).wf(),
            !old(self).is_closed(),
        ensures
            final(self).wf(),
            final(self).options() == old(self).options(),
            block_step(*old(self), *final(self), *b, r),
    {
        if self.length.is_some() {
            return self.clear_with(REASON_INVALID_OPEN);
        }
        let mut r = if b.ask_response {
            let r = one_reply(StreamEvent::BlockAck);
            assert(event_views(r.replies@) =~= seq![StreamEventView::BlockAck]);
            r
        } else {
            let r = no_reply();
            assert(event_views(r.replies@) =~= Seq::<StreamEventView>::empty());
            r
        };
        r.delivered.push(crate::channel::stream::clone_bytes(&b.data));
        r
    }

    fn on_chunk_event(&mut self, c: &Chunk) -> (r: StreamStep)
        requires
            old(self).wf(),
            !old(self).is_closed(),
            c.order.wf(),
        ensures
            final(self).wf(),
            final(self).options() == old(self).options(),
            chunk_step(*old(self), *final(self), *c, r),
    {
        let o = match c.order.to_u64() {
            None => return self.clear_with(REASON_PROTOCOL_VIOLATION),
            Some(o) => o,
        };
        let d = self.receiver.on_chunk(o, crate::channel::stream::clone_bytes(&c.data));
        let mut replies: Vec<StreamEvent> = Vec::new();
        if d.ack {
            replies.push(StreamEvent::ChunkAck(ChunkAck { order: UBig::from_u64(o) }));
        }
        assert(event_views(replies@) =~= if self.options.enforce_integrity {
            seq![StreamEventView::ChunkAck { order: c.order.value() }]
        } else {
            Seq::empty()
        });
        let mut delivered: Vec<Vec<u8>> = Vec::new();
        let surfaced = d.surfaced;
        let mut i: usize = 0;
        while i < surfaced.len()
            invariant
                i <= surfaced@.len(),
                delivered@.len() == i,
                forall|j: int| 0 <= j < i ==> (#[trigger] delivered@[j])@ == surfaced@[j].1@,
            decreases surfaced@.len() - i,
        {
            delivered.push(crate::channel::stream::clone_bytes(&surfaced[i].1));
            i = i + 1;
        }
        assert forall|j: int| 0 <= j < delivered@.len() implies (#[trigger] delivered@[j])@
            == self.receiver.data_of()[self.receiver.surfaced()[old(self).receiver.surfaced().len() + j]] by {
            assert(orders_of(surfaced@)[j] == surfaced@[j].0);
            assert(self.receiver.surfaced()[old(self).receiver.surfaced().len() + j] == orders_of(surfaced@)[j]);
        }
        StreamStep { replies, delivered, block_acked: false }
    }

    fn on_flush_event(&mut self, length: &UBig) -> (r: StreamStep)
        requires
            old(self).wf(),
            !old(self).is_closed(),
            length.wf(),
        ensures
            final(self).wf(),
            final(self).options() == old(self).options(),
            flush_step(*old(self), *final(self), *length, r),
    {
        let len = match length.to_u64() {
            None => return self.clear_with(REASON_PROTOCOL_VIOLATION),
            Some(len) => len,
        };
        match self.receiver.on_flush(len) {
            FlushReply::Ack => {
                if self.options.enforce_integrity {
                    assert forall|o: u64| o < length.value() implies #[trigger] self.receiver.received().contains(o) by {
                        assert(o < len);
                    }
                }
                self.closed = true;
                let r = one_reply(StreamEvent::FlushAck);
                assert(event_views(r.replies@) =~= seq![StreamEventView::FlushAck]);
                r
            },
            FlushReply::Lack(m) => {
                let mut orders: Vec<UBig> = Vec::new();
                let mut i: usize = 0;
                while i < m.len()
                    invariant
                        i <= m@.len(),
                        orders@.len() == i,
                        forall|j: int| 0 <= j < i ==> (#[trigger] orders@[j]).value() == m@[j],
                        *self == *old(self),
                    decreases m@.len() - i,
                {
                    orders.push(UBig::from_u64(m[i]));
                    i = i + 1;
                }
                let ghost orders_view = orders@;
                assert(!self.receiver.received().contains(m@[0]) && m@[0] < length.value());
                assert(self.options.enforce_integrity);
                assert(!(forall|o: u64| o < length.value() ==> #[trigger] self.receiver.received().contains(o)));
                let r = one_reply(StreamEvent::Lack(Lack { orders }));
                assert(r.replies@[0]->Lack_0.orders@ == orders_view);
                assert forall|i: int| 0 <= i < orders_view.len() implies !self.receiver.received().contains(
                    (#[trigger] orders_view[i]).value() as u64,
                ) && orders_view[i].value() < len by {
                    assert(orders_view[i].value() == m@[i]);
                }
                assert forall|o: u64| o < length.value() && !#[trigger] self.receiver.received().contains(o)
                    implies values_of(orders_view).contains(o as nat) by {
                    assert(m@.contains(o));
                    let k = choose|k: int| 0 <= k < m@.len() && m@[k] == o;
                    assert(values_of(orders_view)[k] == o as nat);
                }
                assert(*self == *old(self));
                assert(!old(self).receiver().received().contains(m@[0]));
                assert(!(!old(self).options().enforce_integrity || forall|o: u64|
                    o < length.value() ==> #[trigger] old(self).receiver().received().contains(o)));
                assert(flush_step(*old(self), *self, *length, r));
                r
            },
        }
    }

    fn on_lack_event(&mut self, orders: &Vec<UBig>) -> (r: StreamStep)
        requires
            old(self).wf(),
            !old(self).is_closed(),
            forall|j: int| 0 <= j < orders@.len() ==> (#[trigger] orders@[j]).wf(),
        ensures
            final(self).wf(),
            final(self).options() == old(self).options(),
            lack_step(*old(self), *final(self), orders@, r),
    {
        let mut wanted: Vec<u64> = Vec::new();
        let mut i: usize = 0;
        while i < orders.len()
            invariant
                i <= orders@.len(),
                wanted@.len() == i,
                forall|j: int| 0 <= j < i ==> #[trigger] wanted@[j] == orders@[j].value(),
                forall|j: int| 0 <= j < orders@.len() ==> (#[trigger] orders@[j]).wf(),
                *self == *old(self),
                self.wf(),
                self.sender.wf(),
                !self.closed,
            decreases orders@.len() - i,
        {
            match orders[i].to_u64() {
                Some(o) => wanted.push(o),
                None => {
                    proof {
                        self.sender.lemma_next_order_bound();
                        assert(orders@[i as int].value() >= self.sender.next_order());
                    }
                    return self.clear_with(REASON_INVALID_LACK);
                },
            }
            i = i + 1;
        }
        assert forall|j: int| 0 <= j < orders@.len() implies (#[trigger] orders@[j]).value() >= self.sender.next_order() <==> wanted@[j] >= self.sender.next_order() by {
            assert(wanted@[j] == orders@[j].value());
        }
        match self.sender.on_lack(&wanted) {
            Ok(v) => {
                let mut replies: Vec<StreamEvent> = Vec::new();
                let mut k: usize = 0;
                while k < v.len()
                    invariant
                        k <= v@.len(),
                        replies@.len() == k,
                        forall|j: int|
                            0 <= j < k ==> (#[trigger] replies@[j]).view() == (StreamEventView::Chunk {
                                order: v@[j].0 as nat,
                                data: v@[j].1@,
                            }),
                    decreases v@.len() - k,
                {
                    let (o, data) = (v[k].0, crate::channel::stream::clone_bytes(&v[k].1));
                    replies.push(StreamEvent::Chunk(Chunk { order: UBig::from_u64(o), data }));
                    k = k + 1;
                }
                StreamStep { replies, delivered: Vec::new(), block_acked: false }
            },
            Err(reason) => self.clear_with(reason.code),
        }
    }
}

/// What handling one stream event does: the new state `s1`, and the step.
pub open spec fn event_step(s0: StreamState, s1: StreamState, ev: StreamEvent, r: StreamStep) -> bool {
    &&& s1.wf()
    &&& s1.options() == s0.options()
    &&& s0.is_closed() ==> s1 == s0 && r.replies@.len() == 0 && r.delivered@.len() == 0
        && !r.block_acked
    &&& !s0.is_closed() ==> match ev {
        StreamEvent::Clear(_) => s1.is_closed() && r.replies@.len() == 0,
        StreamEvent::FlushAck => s1.is_closed() && r.replies@.len() == 0,
        StreamEvent::Block(b) => block_step(s0, s1, b, r),
        StreamEvent::Chunk(c) => chunk_step(s0, s1, c, r),
        StreamEvent::Flush(f) => flush_step(s0, s1, f.length, r),
        StreamEvent::Lack(l) => lack_step(s0, s1, l.orders@, r),
        StreamEvent::Later => s1.sender().paused() && !s1.is_closed() && s1.sender().next_order()
            == s0.sender().next_order() && s1.sender().sent() == s0.sender().sent()
            && r.replies@.len() == 0,
        StreamEvent::Go => !s1.sender().paused() && !s1.is_closed() && s1.sender().next_order()
            == s0.sender().next_order() && s1.sender().sent() == s0.sender().sent()
            && r.replies@.len() == 0,
        StreamEvent::Reopen => s1 == s0 && event_views(r.replies@) == seq![
            StreamEventView::ReopenAck(
                if s0.options().allow_reconnect {
                    Acceptable::Accept
                } else {
                    Acceptable::Reject(Reason { code: REASON_RECONNECT_REFUSED })
                },
            ),
        ],
        StreamEvent::ReopenAck(a) => s1.is_closed() == (a is Reject) && r.replies@.len() == 0,
        StreamEvent::ChunkAck(c) => !s1.is_closed() && r.replies@.len() == 0 && s1.sender().sent()
            == s0.sender().sent() && s1.sender().acked() == if c.order.value()
            < s0.sender().next_order() {
            s0.sender().acked().insert(c.order.value() as u64)
        } else {
            s0.sender().acked()
        },
        StreamEvent::BlockAck => !s1.is_closed() && r.replies@.len() == 0 && r.block_acked
            == s0.awaiting_block_ack() && !s1.awaiting_block_ack(),
        _ => !s1.is_closed() && r.replies@.len() == 0,
    }
}

/// A block on a stream opened with a length clears it; otherwise its data is
/// delivered, and acknowledged where the sender asked.
pub open spec fn block_step(s0: StreamState, s1: StreamState, b: Block, r: StreamStep) -> bool {
    if s0.length() is Some {
        s1.is_closed() && event_views(r.replies@) == seq![
            StreamEventView::Clear(Reason { code: REASON_INVALID_OPEN }),
        ]
    } else {
        !s1.is_closed() && r.delivered@.len() == 1 && r.delivered@[0]@ == b.data@
            && event_views(r.replies@) == if b.ask_response {
            seq![StreamEventView::BlockAck]
        } else {
            Seq::empty()
        }
    }
}

/// A chunk is recorded, acknowledged where integrity is enforced, and the
/// data that the receiver surfaces is delivered; an order beyond 64 bits
/// clears the stream.
pub open spec fn chunk_step(s0: StreamState, s1: StreamState, c: Chunk, r: StreamStep) -> bool {
    if c.order.value() > u64_limit() {
        s1.is_closed() && event_views(r.replies@) == seq![
            StreamEventView::Clear(Reason { code: REASON_PROTOCOL_VIOLATION }),
        ]
    } else {
        &&& !s1.is_closed()
        &&& s1.receiver().received() == s0.receiver().received().insert(c.order.value() as u64)
        &&& event_views(r.replies@) == if s0.options().enforce_integrity {
            seq![StreamEventView::ChunkAck { order: c.order.value() }]
        } else {
            Seq::empty()
        }
        &&& s1.receiver().surfaced().len() == s0.receiver().surfaced().len() + r.delivered@.len()
        &&& forall|i: int|
            0 <= i < r.delivered@.len() ==> (#[trigger] r.delivered@[i])@ == s1.receiver().data_of()[s1.receiver().surfaced()[s0.receiver().surfaced().len() + i]]
        &&& s1.options().enforce_orderliness && s1.receiver().surfaced().len() < u64::MAX ==> !s1.receiver().received().contains(
            s1.receiver().surfaced().len() as u64,
        )
        &&& s0.receiver().received().contains(c.order.value() as u64) ==> r.delivered@.len() == 0
        &&& !s0.options().enforce_orderliness && !s0.receiver().received().contains(
            c.order.value() as u64,
        ) ==> r.delivered@.len() == 1 && r.delivered@[0]@ == c.data@
    }
}

/// A flush is acknowledged, ending the stream, when integrity is not
/// enforced or every order below its length was received; otherwise it is
/// answered with a lack of missing orders.
pub open spec fn flush_step(s0: StreamState, s1: StreamState, length: UBig, r: StreamStep) -> bool {
    if length.value() > u64_limit() {
        s1.is_closed() && event_views(r.replies@) == seq![
            StreamEventView::Clear(Reason { code: REASON_PROTOCOL_VIOLATION }),
        ]
    } else if !s0.options().enforce_integrity || forall|o: u64|
        o < length.value() ==> #[trigger] s0.receiver().received().contains(o) {
        s1.is_closed() && event_views(r.replies@) == seq![StreamEventView::FlushAck]
    } else {
        &&& !s1.is_closed()
        &&& r.replies@.len() == 1
        &&& r.replies@[0] is Lack
        &&& r.replies@[0]->Lack_0.orders@.len() > 0
        &&& forall|i: int|
            0 <= i < r.replies@[0]->Lack_0.orders@.len() ==> !s0.receiver().received().contains(
                (#[trigger] r.replies@[0]->Lack_0.orders@[i]).value() as u64,
            ) && r.replies@[0]->Lack_0.orders@[i].value() < length.value()
        &&& forall|o: u64|
            o < length.value() && !#[trigger] s0.receiver().received().contains(o) ==> values_of(
                r.replies@[0]->Lack_0.orders@,
            ).contains(o as nat)
    }
}

/// A lack that names only orders already sent is answered by sending those
/// chunks again, in the order named; any other lack clears the stream.
pub open spec fn lack_step(s0: StreamState, s1: StreamState, orders: Seq<UBig>, r: StreamStep) -> bool {
    if exists|i: int| 0 <= i < orders.len() && #[trigger] orders[i].value() >= s0.sender().next_order() {
        s1.is_closed() && event_views(r.replies@) == seq![
            StreamEventView::Clear(Reason { code: REASON_INVALID_LACK }),
        ]
    } else {
        !s1.is_closed() && s1.sender() == s0.sender() && r.replies@.len() == orders.len() && forall|i: int|
            0 <= i < r.replies@.len() ==> (#[trigger] r.replies@[i]).view() == (StreamEventView::Chunk {
                order: orders[i].value(),
                data: s0.sender().sent()[orders[i].value() as int],
            })
    }
}

} // verus!
