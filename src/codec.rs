//! The packet codec: a `Datagram` to bytes and back, one packet or a batch.
//!
//! A frame is a kind byte, then either one packet or a count and that many
//! length-prefixed packets. A packet is its head byte, its three optional
//! identifiers, then its payload: a payload tag (`PAYLOAD_NONE` for heads
//! without data, else the head itself) and the head's fields.

use vstd::prelude::*;
use crate::channel::{Datagram, DatagramView, Event, EventView, IdSet, IdSetView};
use crate::channel::link::{Event as LinkEvent, Health};
use crate::channel::session::{Event as SessionEvent, OpenOptions as SessionOptions, Ways};
use crate::channel::stream::{
    values_of, Block, Chunk, ChunkAck, Event as StreamEvent, EventView as StreamEventView, Flush,
    Lack, OpenOptions as StreamOptions,
};
use crate::ids::IdPool;
use crate::strategy::Acceptable;
use crate::ubig::UBig;
use crate::wire::{
    enc_bool, enc_bytes, enc_opt_ubig, enc_reason, enc_ubig, parse_bool, parse_bytes,
    parse_opt_ubig, parse_reason, parse_u64, parse_u8, parse_ubig, read_bool, read_bytes, read_u64,
    read_u8, read_ubig, get_id, get_reason, u64_bytes, write_bool, write_bytes, write_opt_ubig,
    write_u64, write_ubig,
};

verus! {

pub const HEAD_SESSION_OPEN: u8 = 1;
pub const HEAD_SESSION_OPEN_ACK: u8 = 2;
pub const HEAD_SESSION_REOPEN: u8 = 3;
pub const HEAD_SESSION_REOPEN_ACK: u8 = 4;
pub const HEAD_SESSION_CLOSE: u8 = 5;
pub const HEAD_SESSION_CLOSE_ACK: u8 = 6;
pub const HEAD_SESSION_DEATH: u8 = 7;
pub const HEAD_STREAM_OPEN: u8 = 8;
pub const HEAD_STREAM_OPEN_ACK: u8 = 9;
pub const HEAD_STREAM_REOPEN: u8 = 10;
pub const HEAD_STREAM_REOPEN_ACK: u8 = 11;
pub const HEAD_STREAM_BLOCK: u8 = 12;
pub const HEAD_STREAM_BLOCK_ACK: u8 = 13;
pub const HEAD_STREAM_CHUNK: u8 = 14;
pub const HEAD_STREAM_CHUNK_ACK: u8 = 15;
pub const HEAD_STREAM_FLUSH: u8 = 16;
pub const HEAD_STREAM_FLUSH_ACK: u8 = 17;
pub const HEAD_STREAM_LACK: u8 = 18;
pub const HEAD_STREAM_LATER: u8 = 19;
pub const HEAD_STREAM_GO: u8 = 20;
pub const HEAD_STREAM_CLEAR: u8 = 21;
pub const HEAD_HEALTH_PING: u8 = 22;
pub const HEAD_HEALTH_PONG: u8 = 23;

/// The payload tag of heads that carry no data.
pub const PAYLOAD_NONE: u8 = 0;

/// The frame kind of a single packet.
pub const FRAME_SINGLE: u8 = 1;

/// The frame kind of a batch of packets.
pub const FRAME_BATCH: u8 = 2;

/// Why a datagram cannot be encoded.
#[derive(Clone, Copy, Debug, PartialEq, Eq, Structural)]
pub enum SerializeError {
    /// A stream identifier is present without a session identifier.
    InvalidSessionId,
    /// No event identifier is left to allocate.
    EventIdsExhausted,
}

// ---------------------------------------------------------------- encoding

pub open spec fn way_code(w: Ways) -> u8 {
    match w {
        Ways::OnlyRead => 0,
        Ways::OnlyWrite => 1,
        Ways::TwoWays => 2,
    }
}

pub open spec fn enc_acceptable(a: Acceptable) -> Seq<u8> {
    match a {
        Acceptable::Accept => seq![0u8],
        Acceptable::Reject(r) => seq![1u8] + enc_reason(r),
    }
}

pub open spec fn enc_orders(s: Seq<UBig>) -> Seq<u8>
    decreases s.len(),
{
    if s.len() == 0 {
        Seq::empty()
    } else {
        enc_ubig(s[0]) + enc_orders(s.drop_first())
    }
}

/// The head byte of an event.
pub open spec fn head_of(e: Event) -> u8 {
    match e {
        Event::Link(LinkEvent::Health(Health::Ping)) => HEAD_HEALTH_PING,
        Event::Link(LinkEvent::Health(Health::Pong)) => HEAD_HEALTH_PONG,
        Event::Session(s) => match s {
            SessionEvent::Open(_) => HEAD_SESSION_OPEN,
            SessionEvent::OpenAck(_) => HEAD_SESSION_OPEN_ACK,
            SessionEvent::Reopen => HEAD_SESSION_REOPEN,
            SessionEvent::ReopenAck(_) => HEAD_SESSION_REOPEN_ACK,
            SessionEvent::Close => HEAD_SESSION_CLOSE,
            SessionEvent::CloseAck(_) => HEAD_SESSION_CLOSE_ACK,
            SessionEvent::Death(_) => HEAD_SESSION_DEATH,
        },
        Event::Stream(s) => match s {
            StreamEvent::Open { .. } => HEAD_STREAM_OPEN,
            StreamEvent::OpenAck(_) => HEAD_STREAM_OPEN_ACK,
            StreamEvent::Reopen => HEAD_STREAM_REOPEN,
            StreamEvent::ReopenAck(_) => HEAD_STREAM_REOPEN_ACK,
            StreamEvent::Block(_) => HEAD_STREAM_BLOCK,
            StreamEvent::BlockAck => HEAD_STREAM_BLOCK_ACK,
            StreamEvent::Chunk(_) => HEAD_STREAM_CHUNK,
            StreamEvent::ChunkAck(_) => HEAD_STREAM_CHUNK_ACK,
            StreamEvent::Flush(_) => HEAD_STREAM_FLUSH,
            StreamEvent::FlushAck => HEAD_STREAM_FLUSH_ACK,
            StreamEvent::Lack(_) => HEAD_STREAM_LACK,
            StreamEvent::Later => HEAD_STREAM_LATER,
            StreamEvent::Go => HEAD_STREAM_GO,
            StreamEvent::Clear(_) => HEAD_STREAM_CLEAR,
        },
    }
}

/// The fields of an event, after its payload tag.
pub open spec fn enc_fields(e: Event) -> Seq<u8> {
    match e {
        Event::Session(SessionEvent::Open(o)) => seq![way_code(o.way)] + enc_bool(o.allow_reconnect),
        Event::Session(SessionEvent::OpenAck(a)) => enc_acceptable(a),
        Event::Session(SessionEvent::ReopenAck(a)) => enc_acceptable(a),
        Event::Session(SessionEvent::CloseAck(a)) => enc_acceptable(a),
        Event::Session(SessionEvent::Death(r)) => enc_reason(r),
        Event::Stream(StreamEvent::Open { options, length }) => enc_bool(options.allow_reconnect)
            + enc_bool(options.enforce_orderliness) + enc_bool(options.enforce_integrity)
            + enc_opt_ubig(length),
        Event::Stream(StreamEvent::OpenAck(a)) => enc_acceptable(a),
        Event::Stream(StreamEvent::ReopenAck(a)) => enc_acceptable(a),
        Event::Stream(StreamEvent::Block(b)) => enc_bool(b.ask_response) + enc_bytes(b.data@),
        Event::Stream(StreamEvent::Chunk(c)) => enc_ubig(c.order) + enc_bytes(c.data@),
        Event::Stream(StreamEvent::ChunkAck(c)) => enc_ubig(c.order),
        Event::Stream(StreamEvent::Flush(f)) => enc_ubig(f.length),
        Event::Stream(StreamEvent::Lack(l)) => u64_bytes(l.orders@.len() as u64) + enc_orders(
            l.orders@,
        ),
        Event::Stream(StreamEvent::Clear(r)) => enc_reason(r),
        _ => Seq::empty(),
    }
}

/// Heads whose payload is the `PAYLOAD_NONE` sentinel.
pub open spec fn is_bare_head(h: u8) -> bool {
    h == HEAD_SESSION_REOPEN || h == HEAD_SESSION_CLOSE || h == HEAD_STREAM_REOPEN || h
        == HEAD_STREAM_BLOCK_ACK || h == HEAD_STREAM_FLUSH_ACK || h == HEAD_STREAM_LATER || h
        == HEAD_STREAM_GO || h == HEAD_HEALTH_PING || h == HEAD_HEALTH_PONG
}

pub open spec fn enc_payload(e: Event) -> Seq<u8> {
    if is_bare_head(head_of(e)) {
        seq![PAYLOAD_NONE]
    } else {
        seq![head_of(e)] + enc_fields(e)
    }
}

pub open spec fn enc_ids(id: IdSet) -> Seq<u8> {
    enc_opt_ubig(id.event) + enc_opt_ubig(id.session) + enc_opt_ubig(id.stream)
}

/// One packet on the wire.
pub open spec fn enc_packet(d: Datagram) -> Seq<u8> {
    seq![head_of(d.event)] + enc_ids(d.id) + enc_payload(d.event)
}

/// A frame holding one packet.
pub open spec fn enc_single(d: Datagram) -> Seq<u8> {
    seq![FRAME_SINGLE] + enc_packet(d)
}

pub open spec fn enc_entries(ds: Seq<Datagram>) -> Seq<u8>
    decreases ds.len(),
{
    if ds.len() == 0 {
        Seq::empty()
    } else {
        enc_bytes(enc_packet(ds[0])) + enc_entries(ds.drop_first())
    }
}

/// A frame holding a batch of packets.
pub open spec fn enc_batch(ds: Seq<Datagram>) -> Seq<u8> {
    seq![FRAME_BATCH] + u64_bytes(ds.len() as u64) + enc_entries(ds)
}

// ---------------------------------------------------------------- decoding

pub open spec fn parse_way(s: Seq<u8>, p: int) -> Option<(Ways, int)> {
    match parse_u8(s, p) {
        Some((b, q)) => if b == 0 {
            Some((Ways::OnlyRead, q))
        } else if b == 1 {
            Some((Ways::OnlyWrite, q))
        } else if b == 2 {
            Some((Ways::TwoWays, q))
        } else {
            None
        },
        None => None,
    }
}

pub open spec fn parse_acceptable(s: Seq<u8>, p: int) -> Option<(Acceptable, int)> {
    match parse_u8(s, p) {
        Some((b, q)) => if b == 0 {
            Some((Acceptable::Accept, q))
        } else if b == 1 {
            match parse_reason(s, q) {
                Some((r, e)) => Some((Acceptable::Reject(r), e)),
                None => None,
            }
        } else {
            None
        },
        None => None,
    }
}

pub open spec fn parse_orders(s: Seq<u8>, p: int, n: nat) -> Option<(Seq<nat>, int)>
    decreases n,
{
    if n == 0 {
        Some((Seq::empty(), p))
    } else {
        match parse_ubig(s, p) {
            Some((v, q)) => match parse_orders(s, q, (n - 1) as nat) {
                Some((rest, e)) => Some((seq![v] + rest, e)),
                None => None,
            },
            None => None,
        }
    }
}

pub open spec fn parse_session_options(s: Seq<u8>, p: int) -> Option<(SessionOptions, int)> {
    match parse_way(s, p) {
        Some((w, q)) => match parse_bool(s, q) {
            Some((a, e)) => Some((SessionOptions { way: w, allow_reconnect: a }, e)),
            None => None,
        },
        None => None,
    }
}

pub open spec fn parse_stream_open(s: Seq<u8>, p: int) -> Option<(StreamEventView, int)> {
    match parse_bool(s, p) {
        Some((a, q1)) => match parse_bool(s, q1) {
            Some((o, q2)) => match parse_bool(s, q2) {
                Some((i, q3)) => match parse_opt_ubig(s, q3) {
                    Some((l, e)) => Some((
                        StreamEventView::Open {
                            options: StreamOptions {
                                allow_reconnect: a,
                                enforce_orderliness: o,
                                enforce_integrity: i,
                            },
                            length: l,
                        },
                        e,
                    )),
                    None => None,
                },
                None => None,
            },
            None => None,
        },
        None => None,
    }
}

pub open spec fn parse_block(s: Seq<u8>, p: int) -> Option<(StreamEventView, int)> {
    match parse_bool(s, p) {
        Some((a, q)) => match parse_bytes(s, q) {
            Some((b, e)) => Some((StreamEventView::Block { ask_response: a, data: b }, e)),
            None => None,
        },
        None => None,
    }
}

pub open spec fn parse_chunk(s: Seq<u8>, p: int) -> Option<(StreamEventView, int)> {
    match parse_ubig(s, p) {
        Some((o, q)) => match parse_bytes(s, q) {
            Some((b, e)) => Some((StreamEventView::Chunk { order: o, data: b }, e)),
            None => None,
        },
        None => None,
    }
}

pub open spec fn parse_lack(s: Seq<u8>, p: int) -> Option<(StreamEventView, int)> {
    match parse_u64(s, p) {
        Some((n, q)) => match parse_orders(s, q, n as nat) {
            Some((os, e)) => Some((StreamEventView::Lack { orders: os }, e)),
            None => None,
        },
        None => None,
    }
}

pub open spec fn wrap_session<T>(r: Option<(T, int)>, f: spec_fn(T) -> SessionEvent) -> Option<
    (EventView, int),
> {
    match r {
        Some((v, e)) => Some((EventView::Session(f(v)), e)),
        None => None,
    }
}

pub open spec fn wrap_stream<T>(r: Option<(T, int)>, f: spec_fn(T) -> StreamEventView) -> Option<
    (EventView, int),
> {
    match r {
        Some((v, e)) => Some((EventView::Stream(f(v)), e)),
        None => None,
    }
}

/// The event of a head without data.
pub open spec fn bare_event(h: u8) -> EventView {
    if h == HEAD_SESSION_REOPEN {
        EventView::Session(SessionEvent::Reopen)
    } else if h == HEAD_SESSION_CLOSE {
        EventView::Session(SessionEvent::Close)
    } else if h == HEAD_STREAM_REOPEN {
        EventView::Stream(StreamEventView::Reopen)
    } else if h == HEAD_STREAM_BLOCK_ACK {
        EventView::Stream(StreamEventView::BlockAck)
    } else if h == HEAD_STREAM_FLUSH_ACK {
        EventView::Stream(StreamEventView::FlushAck)
    } else if h == HEAD_STREAM_LATER {
        EventView::Stream(StreamEventView::Later)
    } else if h == HEAD_STREAM_GO {
        EventView::Stream(StreamEventView::Go)
    } else if h == HEAD_HEALTH_PING {
        EventView::Link(LinkEvent::Health(Health::Ping))
    } else {
        EventView::Link(LinkEvent::Health(Health::Pong))
    }
}

/// The fields of a head that carries data.
pub open spec fn parse_fields(s: Seq<u8>, p: int, h: u8) -> Option<(EventView, int)> {
    if h == HEAD_SESSION_OPEN {
        wrap_session(parse_session_options(s, p), |o| SessionEvent::Open(o))
    } else if h == HEAD_SESSION_OPEN_ACK {
        wrap_session(parse_acceptable(s, p), |a| SessionEvent::OpenAck(a))
    } else if h == HEAD_SESSION_REOPEN_ACK {
        wrap_session(parse_acceptable(s, p), |a| SessionEvent::ReopenAck(a))
    } else if h == HEAD_SESSION_CLOSE_ACK {
        wrap_session(parse_acceptable(s, p), |a| SessionEvent::CloseAck(a))
    } else if h == HEAD_SESSION_DEATH {
        wrap_session(parse_reason(s, p), |r| SessionEvent::Death(r))
    } else if h == HEAD_STREAM_OPEN {
        wrap_stream(parse_stream_open(s, p), |v| v)
    } else if h == HEAD_STREAM_OPEN_ACK {
        wrap_stream(parse_acceptable(s, p), |a| StreamEventView::OpenAck(a))
    } else if h == HEAD_STREAM_REOPEN_ACK {
        wrap_stream(parse_acceptable(s, p), |a| StreamEventView::ReopenAck(a))
    } else if h == HEAD_STREAM_BLOCK {
        wrap_stream(parse_block(s, p), |v| v)
    } else if h == HEAD_STREAM_CHUNK {
        wrap_stream(parse_chunk(s, p), |v| v)
    } else if h == HEAD_STREAM_CHUNK_ACK {
        wrap_stream(parse_ubig(s, p), |o| StreamEventView::ChunkAck { order: o })
    } else if h == HEAD_STREAM_FLUSH {
        wrap_stream(parse_ubig(s, p), |l| StreamEventView::Flush { length: l })
    } else if h == HEAD_STREAM_LACK {
        wrap_stream(parse_lack(s, p), |v| v)
    } else if h == HEAD_STREAM_CLEAR {
        wrap_stream(parse_reason(s, p), |r| StreamEventView::Clear(r))
    } else {
        None
    }
}

/// The payload of head `h`: a tag that must agree with the head, then its fields.
pub open spec fn parse_payload(s: Seq<u8>, p: int, h: u8) -> Option<(EventView, int)> {
    match parse_u8(s, p) {
        Some((t, q)) => if is_bare_head(h) {
            if t == PAYLOAD_NONE {
                Some((bare_event(h), q))
            } else {
                None
            }
        } else if t == h {
            parse_fields(s, q, h)
        } else {
            None
        },
        None => None,
    }
}

pub open spec fn parse_ids(s: Seq<u8>, p: int) -> Option<(IdSetView, int)> {
    match parse_opt_ubig(s, p) {
        Some((ev, q1)) => match parse_opt_ubig(s, q1) {
            Some((se, q2)) => match parse_opt_ubig(s, q2) {
                Some((st, e)) => Some((IdSetView { event: ev, session: se, stream: st }, e)),
                None => None,
            },
            None => None,
        },
        None => None,
    }
}

/// The identifier rules of an encoded packet: an event identifier, and a
/// session identifier wherever there is a stream identifier.
pub open spec fn ids_valid(id: IdSetView) -> bool {
    id.event is Some && (id.stream is Some ==> id.session is Some)
}

pub open spec fn parse_packet(s: Seq<u8>, p: int) -> Option<(DatagramView, int)> {
    match parse_u8(s, p) {
        Some((h, q)) => match parse_ids(s, q) {
            Some((id, r)) => if ids_valid(id) {
                match parse_payload(s, r, h) {
                    Some((ev, e)) => Some((DatagramView { id, event: ev }, e)),
                    None => None,
                }
            } else {
                None
            },
            None => None,
        },
        None => None,
    }
}

/// The packet stored in `s[a..b]`, if it is one; a bad packet is dropped alone.
pub open spec fn packet_in(s: Seq<u8>, a: int, b: int) -> Seq<DatagramView> {
    match parse_packet(s, a) {
        Some((d, e)) => if e == b {
            seq![d]
        } else {
            Seq::empty()
        },
        None => Seq::empty(),
    }
}

pub open spec fn parse_entries(s: Seq<u8>, p: int, n: nat) -> Option<(Seq<DatagramView>, int)>
    decreases n,
{
    if n == 0 {
        Some((Seq::empty(), p))
    } else {
        match parse_u64(s, p) {
            Some((len, q)) => if q + len <= s.len() {
                match parse_entries(s, q + len, (n - 1) as nat) {
                    Some((ds, e)) => Some((packet_in(s, q, q + len) + ds, e)),
                    None => None,
                }
            } else {
                None
            },
            None => None,
        }
    }
}

/// What a received buffer decodes to: one packet, the valid packets of a
/// batch, or nothing when the frame itself is malformed.
pub open spec fn decode_spec(s: Seq<u8>) -> Seq<DatagramView> {
    match parse_u8(s, 0) {
        Some((k, q)) => if k == FRAME_SINGLE {
            packet_in(s, q, s.len() as int)
        } else if k == FRAME_BATCH {
            match parse_u64(s, q) {
                Some((n, r)) => match parse_entries(s, r, n as nat) {
                    Some((ds, e)) => if e == s.len() {
                        ds
                    } else {
                        Seq::empty()
                    },
                    None => Seq::empty(),
                },
                None => Seq::empty(),
            }
        } else {
            Seq::empty()
        },
        None => Seq::empty(),
    }
}

// ---------------------------------------------------------------- encoder


/// `got` is `orig` with an event identifier: the same one where `orig` had
/// one, else one in `lo..hi`.
pub open spec fn filled_from(orig: DatagramView, got: DatagramView, lo: nat, hi: nat) -> bool {
    &&& got.event == orig.event
    &&& got.id.session == orig.id.session
    &&& got.id.stream == orig.id.stream
    &&& match orig.id.event {
        Some(e) => got.id.event == Some(e),
        None => got.id.event is Some && lo <= got.id.event.unwrap() < hi,
    }
}

/// `orig` with its event identifier set to `e` where it had none.
pub open spec fn with_event(orig: DatagramView, e: nat) -> DatagramView {
    match orig.id.event {
        Some(_) => orig,
        None => DatagramView {
            id: IdSetView { event: Some(e), session: orig.id.session, stream: orig.id.stream },
            event: orig.event,
        },
    }
}

/// The identifier rule that encoding enforces: no stream without a session.
pub open spec fn scope_valid(id: IdSet) -> bool {
    id.stream is Some ==> id.session is Some
}

fn head_code(e: &Event) -> (r: u8)
    ensures
        r == head_of(*e),
{
    match e {
        Event::Link(LinkEvent::Health(Health::Ping)) => HEAD_HEALTH_PING,
        Event::Link(LinkEvent::Health(Health::Pong)) => HEAD_HEALTH_PONG,
        Event::Session(s) => match s {
            SessionEvent::Open(_) => HEAD_SESSION_OPEN,
            SessionEvent::OpenAck(_) => HEAD_SESSION_OPEN_ACK,
            SessionEvent::Reopen => HEAD_SESSION_REOPEN,
            SessionEvent::ReopenAck(_) => HEAD_SESSION_REOPEN_ACK,
            SessionEvent::Close => HEAD_SESSION_CLOSE,
            SessionEvent::CloseAck(_) => HEAD_SESSION_CLOSE_ACK,
            SessionEvent::Death(_) => HEAD_SESSION_DEATH,
        },
        Event::Stream(s) => match s {
            StreamEvent::Open { .. } => HEAD_STREAM_OPEN,
            StreamEvent::OpenAck(_) => HEAD_STREAM_OPEN_ACK,
            StreamEvent::Reopen => HEAD_STREAM_REOPEN,
            StreamEvent::ReopenAck(_) => HEAD_STREAM_REOPEN_ACK,
            StreamEvent::Block(_) => HEAD_STREAM_BLOCK,
            StreamEvent::BlockAck => HEAD_STREAM_BLOCK_ACK,
            StreamEvent::Chunk(_) => HEAD_STREAM_CHUNK,
            StreamEvent::ChunkAck(_) => HEAD_STREAM_CHUNK_ACK,
            StreamEvent::Flush(_) => HEAD_STREAM_FLUSH,
            StreamEvent::FlushAck => HEAD_STREAM_FLUSH_ACK,
            StreamEvent::Lack(_) => HEAD_STREAM_LACK,
            StreamEvent::Later => HEAD_STREAM_LATER,
            StreamEvent::Go => HEAD_STREAM_GO,
            StreamEvent::Clear(_) => HEAD_STREAM_CLEAR,
        },
    }
}

fn write_acceptable(out: &mut Vec<u8>, a: Acceptable)
    ensures
        final(out)@ == old(out)@ + enc_acceptable(a),
{
    match a {
        Acceptable::Accept => out.push(0u8),
        Acceptable::Reject(r) => {
            out.push(1u8);
            write_u64(out, r.code);
        },
    }
    assert(out@ =~= old(out)@ + enc_acceptable(a));
}

proof fn lemma_enc_orders_push(s: Seq<UBig>, x: UBig)
    ensures
        enc_orders(s.push(x)) == enc_orders(s) + enc_ubig(x),
    decreases s.len(),
{
    if s.len() == 0 {
        reveal_with_fuel(enc_orders, 2);
        assert(s.push(x).drop_first() =~= Seq::<UBig>::empty());
        assert(s.push(x)[0] == x);
        assert(enc_orders(s.push(x)) =~= enc_orders(s) + enc_ubig(x));
    } else {
        lemma_enc_orders_push(s.drop_first(), x);
        assert(s.push(x).drop_first() =~= s.drop_first().push(x));
        assert(s.push(x)[0] == s[0]);
        assert(enc_orders(s.push(x)) =~= enc_orders(s) + enc_ubig(x));
    }
}

fn write_orders(out: &mut Vec<u8>, orders: &Vec<UBig>)
    ensures
        final(out)@ == old(out)@ + enc_orders(orders@),
{
    let mut i: usize = 0;
    while i < orders.len()
        invariant
            i <= orders@.len(),
            out@ == old(out)@ + enc_orders(orders@.take(i as int)),
        decreases orders@.len() - i,
    {
        proof {
            lemma_enc_orders_push(orders@.take(i as int), orders@[i as int]);
            assert(orders@.take(i as int).push(orders@[i as int]) =~= orders@.take(i + 1));
        }
        write_ubig(out, &orders[i]);
        i = i + 1;
        assert(out@ =~= old(out)@ + enc_orders(orders@.take(i as int)));
    }
    assert(orders@.take(i as int) =~= orders@);
}

fn write_fields(out: &mut Vec<u8>, e: &Event)
    ensures
        final(out)@ == old(out)@ + enc_fields(*e),
{
    match e {
        Event::Session(SessionEvent::Open(o)) => {
            let w: u8 = match o.way {
                Ways::OnlyRead => 0,
                Ways::OnlyWrite => 1,
                Ways::TwoWays => 2,
            };
            out.push(w);
            write_bool(out, o.allow_reconnect);
        },
        Event::Session(SessionEvent::OpenAck(a)) => write_acceptable(out, *a),
        Event::Session(SessionEvent::ReopenAck(a)) => write_acceptable(out, *a),
        Event::Session(SessionEvent::CloseAck(a)) => write_acceptable(out, *a),
        Event::Session(SessionEvent::Death(r)) => write_u64(out, r.code),
        Event::Stream(StreamEvent::Open { options, length }) => {
            write_bool(out, options.allow_reconnect);
            write_bool(out, options.enforce_orderliness);
            write_bool(out, options.enforce_integrity);
            write_opt_ubig(out, length);
        },
        Event::Stream(StreamEvent::OpenAck(a)) => write_acceptable(out, *a),
        Event::Stream(StreamEvent::ReopenAck(a)) => write_acceptable(out, *a),
        Event::Stream(StreamEvent::Block(b)) => {
            write_bool(out, b.ask_response);
            write_bytes(out, b.data.as_slice());
        },
        Event::Stream(StreamEvent::Chunk(c)) => {
            write_ubig(out, &c.order);
            write_bytes(out, c.data.as_slice());
        },
        Event::Stream(StreamEvent::ChunkAck(c)) => write_ubig(out, &c.order),
        Event::Stream(StreamEvent::Flush(f)) => write_ubig(out, &f.length),
        Event::Stream(StreamEvent::Lack(l)) => {
            write_u64(out, l.orders.len() as u64);
            write_orders(out, &l.orders);
        },
        Event::Stream(StreamEvent::Clear(r)) => write_u64(out, r.code),
        _ => {},
    }
    assert(out@ =~= old(out)@ + enc_fields(*e));
}

fn write_payload(out: &mut Vec<u8>, e: &Event)
    ensures
        final(out)@ == old(out)@ + enc_payload(*e),
{
    let h = head_code(e);
    if h == HEAD_SESSION_REOPEN || h == HEAD_SESSION_CLOSE || h == HEAD_STREAM_REOPEN || h
        == HEAD_STREAM_BLOCK_ACK || h == HEAD_STREAM_FLUSH_ACK || h == HEAD_STREAM_LATER || h
        == HEAD_STREAM_GO || h == HEAD_HEALTH_PING || h == HEAD_HEALTH_PONG {
        out.push(PAYLOAD_NONE);
    } else {
        out.push(h);
        write_fields(out, e);
    }
    assert(out@ =~= old(out)@ + enc_payload(*e));
}

/// Appends one packet.
pub fn write_packet(out: &mut Vec<u8>, d: &Datagram)
    ensures
        final(out)@ == old(out)@ + enc_packet(*d),
{
    out.push(head_code(&d.event));
    write_opt_ubig(out, &d.id.event);
    write_opt_ubig(out, &d.id.session);
    write_opt_ubig(out, &d.id.stream);
    write_payload(out, &d.event);
    assert(out@ =~= old(out)@ + enc_packet(*d));
}

/// The next event identifier, where one is left.
pub fn get_event_id(ids: &mut IdPool) -> (r: Option<UBig>)
    requires
        old(ids).wf(),
    ensures
        final(ids).wf(),
        match r {
            Some(u) => u.wf() && u.value() == old(ids).next_fresh() && old(ids).next_fresh() < u64::MAX && final(ids).next_fresh()
                == old(ids).next_fresh() + 1,
            None => old(ids).next_fresh() == u64::MAX && final(ids).next_fresh()
                == old(ids).next_fresh(),
        },
{
    match ids.fresh() {
        Some(k) => Some(UBig::from_u64(k)),
        None => None,
    }
}

/// The datagram with event identifier `n` where it has none.
pub open spec fn fill_event(d: Datagram, n: u64) -> Datagram {
    match d.id.event {
        Some(_) => d,
        None => Datagram {
            id: IdSet { event: Some(UBig::Small(n)), session: d.id.session, stream: d.id.stream },
            event: d.event,
        },
    }
}

proof fn lemma_fill_event(d: Datagram, n: u64)
    requires
        d.wf(),
        scope_valid(d.id),
    ensures
        fill_event(d, n).wf(),
        ids_valid(fill_event(d, n).id.view()),
        fill_event(d, n).view() == with_event(d.view(), n as nat),
{
    assert(fill_event(d, n).view().id =~= with_event(d.view(), n as nat).id);
}

/// Appends one packet: `d`, carrying event identifier `n` where it has none.
fn write_packet_filled(out: &mut Vec<u8>, d: &Datagram, n: u64)
    ensures
        final(out)@ == old(out)@ + enc_packet(fill_event(*d, n)),
{
    out.push(head_code(&d.event));
    match &d.id.event {
        Some(e) => write_ubig(out, e),
        None => write_ubig(out, &UBig::Small(n)),
    }
    write_opt_ubig(out, &d.id.session);
    write_opt_ubig(out, &d.id.stream);
    write_payload(out, &d.event);
    assert(out@ =~= old(out)@ + enc_packet(fill_event(*d, n)));
}

/// The identifier that `d` will carry: its own, or a fresh one from `ids`.
fn event_for(d: &Datagram, ids: &mut IdPool) -> (r: Option<u64>)
    requires
        old(ids).wf(),
    ensures
        final(ids).wf(),
        match r {
            Some(n) => (d.id.event is None ==> n == old(ids).next_fresh()) && final(ids).next_fresh()
                == old(ids).next_fresh() + (if d.id.event is Some {
                0int
            } else {
                1int
            }),
            None => d.id.event is None && old(ids).next_fresh() == u64::MAX && final(ids).next_fresh()
                == old(ids).next_fresh(),
        },
{
    if d.id.event.is_some() {
        Some(0)
    } else {
        ids.fresh()
    }
}

/// The datagrams of a batch with their event identifiers filled in turn,
/// from `lo` on.
pub open spec fn batch_filled(ds: Seq<Datagram>, lo: nat) -> Seq<Datagram> {
    Seq::new(ds.len(), |i: int| fill_event(ds[i], (lo + missing_events(ds.take(i))) as u64))
}

/// How many of the datagrams lack an event identifier.
pub open spec fn missing_events(ds: Seq<Datagram>) -> nat
    decreases ds.len(),
{
    if ds.len() == 0 {
        0
    } else {
        missing_events(ds.drop_last()) + if ds.last().id.event is None {
            1nat
        } else {
            0nat
        }
    }
}

proof fn lemma_enc_entries_push(ds: Seq<Datagram>, d: Datagram)
    ensures
        enc_entries(ds.push(d)) == enc_entries(ds) + enc_bytes(enc_packet(d)),
    decreases ds.len(),
{
    if ds.len() == 0 {
        reveal_with_fuel(enc_entries, 2);
        assert(ds.push(d).drop_first() =~= Seq::<Datagram>::empty());
        assert(ds.push(d)[0] == d);
        assert(enc_entries(ds.push(d)) =~= enc_entries(ds) + enc_bytes(enc_packet(d)));
    } else {
        lemma_enc_entries_push(ds.drop_first(), d);
        assert(ds.push(d).drop_first() =~= ds.drop_first().push(d));
        assert(ds.push(d)[0] == ds[0]);
        assert(enc_entries(ds.push(d)) =~= enc_entries(ds) + enc_bytes(enc_packet(d)));
    }
}

/// Encodes one datagram in a frame of its own, allocating its event
/// identifier from `ids` where it has none.
pub fn serialize_datagram(d: &Datagram, ids: &mut IdPool) -> (r: Result<Vec<u8>, SerializeError>)
    requires
        d.wf(),
        old(ids).wf(),
    ensures
        final(ids).wf(),
        r is Err <==> !scope_valid(d.id) || (d.id.event is None && old(ids).next_fresh()
            == u64::MAX),
        match r {
            Ok(b) => b@ == enc_single(fill_event(*d, old(ids).next_fresh() as u64)) && decode_spec(b@)
                == seq![with_event(d.view(), old(ids).next_fresh())] && final(ids).next_fresh()
                == old(ids).next_fresh() + (if d.id.event is Some {
                0int
            } else {
                1int
            }),
            Err(SerializeError::InvalidSessionId) => !scope_valid(d.id) && final(ids).next_fresh()
                == old(ids).next_fresh(),
            Err(SerializeError::EventIdsExhausted) => scope_valid(d.id) && final(ids).next_fresh()
                == old(ids).next_fresh(),
        },
{
    if d.id.stream.is_some() && d.id.session.is_none() {
        return Err(SerializeError::InvalidSessionId);
    }
    let ghost start = ids.next_fresh();
    proof {
        ids.lemma_fresh_bound();
    }
    let n = match event_for(d, ids) {
        Some(n) => n,
        None => return Err(SerializeError::EventIdsExhausted),
    };
    let mut out: Vec<u8> = Vec::new();
    out.push(FRAME_SINGLE);
    write_packet_filled(&mut out, d, n);
    proof {
        ids.lemma_fresh_bound();
        assert(fill_event(*d, n) == fill_event(*d, start as u64));
        assert(out@ =~= enc_single(fill_event(*d, n)));
        lemma_fill_event(*d, n);
        crate::roundtrip::lemma_single_round_trip(fill_event(*d, n));
    }
    Ok(out)
}

fn scopes_valid(ds: &Vec<Datagram>) -> (r: bool)
    ensures
        r <==> forall|i: int| 0 <= i < ds@.len() ==> scope_valid(#[trigger] ds@[i].id),
{
    let mut k: usize = 0;
    while k < ds.len()
        invariant
            k <= ds@.len(),
            forall|i: int| 0 <= i < k ==> scope_valid(#[trigger] ds@[i].id),
        decreases ds@.len() - k,
    {
        if ds[k].id.stream.is_some() && ds[k].id.session.is_none() {
            assert(!scope_valid(ds@[k as int].id));
            return false;
        }
        k = k + 1;
    }
    true
}

/// Encodes datagrams in one batch frame, allocating in turn an event
/// identifier for each that has none.
#[verifier::rlimit(60)]
pub fn serialize_datagrams(ds: &Vec<Datagram>, ids: &mut IdPool) -> (r: Result<
    Vec<u8>,
    SerializeError,
>)
    requires
        forall|i: int| 0 <= i < ds@.len() ==> (#[trigger] ds@[i]).wf(),
        old(ids).wf(),
    ensures
        final(ids).wf(),
        r == Err::<Vec<u8>, SerializeError>(SerializeError::InvalidSessionId) <==> exists|i: int|
            0 <= i < ds@.len() && !scope_valid(#[trigger] ds@[i].id),
        r == Err::<Vec<u8>, SerializeError>(SerializeError::EventIdsExhausted) <==> (forall|i: int|
            0 <= i < ds@.len() ==> scope_valid(#[trigger] ds@[i].id)) && old(ids).next_fresh()
            + missing_events(ds@) > u64::MAX,
        match r {
            Ok(b) => {
                &&& final(ids).next_fresh() == old(ids).next_fresh() + missing_events(ds@)
                &&& b@ == enc_batch(batch_filled(ds@, old(ids).next_fresh()))
                &&& decode_spec(b@).len() == ds@.len()
                &&& forall|i: int|
                    0 <= i < ds@.len() ==> filled_from(
                        ds@[i].view(),
                        #[trigger] decode_spec(b@)[i],
                        old(ids).next_fresh(),
                        final(ids).next_fresh(),
                    )
                &&& forall|i: int, j: int|
                    0 <= i < j < ds@.len() && ds@[i].id.event is None && ds@[j].id.event is None
                        ==> (#[trigger] decode_spec(b@)[i]).id.event.unwrap()
                        < (#[trigger] decode_spec(b@)[j]).id.event.unwrap()
            },
            Err(_) => true,
        },
{
    if !scopes_valid(ds) {
        return Err(SerializeError::InvalidSessionId);
    }
    let mut out: Vec<u8> = Vec::new();
    out.push(FRAME_BATCH);
    write_u64(&mut out, ds.len() as u64);
    let ghost head = out@;
    let ghost filled: Seq<Datagram> = Seq::empty();
    let ghost lo = ids.next_fresh();
    let mut i: usize = 0;
    while i < ds.len()
        invariant
            i <= ds@.len(),
            forall|j: int| 0 <= j < ds@.len() ==> scope_valid(#[trigger] ds@[j].id),
            forall|j: int| 0 <= j < ds@.len() ==> (#[trigger] ds@[j]).wf(),
            ids.wf(),
            lo == old(ids).next_fresh(),
            ids.next_fresh() == lo + missing_events(ds@.take(i as int)),
            head == seq![FRAME_BATCH] + u64_bytes(ds@.len() as u64),
            out@ == head + enc_entries(filled),
            filled.len() == i,
            forall|j: int|
                0 <= j < i ==> #[trigger] filled[j] == fill_event(
                    ds@[j],
                    (lo + missing_events(ds@.take(j))) as u64,
                ) && enc_packet(filled[j]).len() <= u64::MAX,
        decreases ds@.len() - i,
    {
        proof {
            assert(ds@.take(i + 1).drop_last() =~= ds@.take(i as int));
            assert(ds@.take(i + 1).last() == ds@[i as int]);
            ids.lemma_fresh_bound();
        }
        let n = match event_for(&ds[i], ids) {
            Some(n) => n,
            None => {
                proof {
                    assert(missing_events(ds@.take(i + 1)) == missing_events(ds@.take(i as int)) + 1);
                    lemma_missing_events_bound(ds@, i as int + 1);
                }
                return Err(SerializeError::EventIdsExhausted);
            },
        };
        let mut pk: Vec<u8> = Vec::new();
        write_packet_filled(&mut pk, &ds[i], n);
        let _n = pk.len();
        write_bytes(&mut out, pk.as_slice());
        proof {
            let f = fill_event(ds@[i as int], n);
            assert(f == fill_event(ds@[i as int], (lo + missing_events(ds@.take(i as int))) as u64));
            lemma_enc_entries_push(filled, f);
            assert(pk@ =~= enc_packet(f));
            let old_filled = filled;
            filled = filled.push(f);
            assert(out@ =~= head + enc_entries(filled));
            assert forall|j: int| 0 <= j < i + 1 implies #[trigger] filled[j] == fill_event(
                ds@[j],
                (lo + missing_events(ds@.take(j))) as u64,
            ) && enc_packet(filled[j]).len() <= u64::MAX by {
                if j < i {
                    assert(filled[j] == old_filled[j]);
                }
            }
        }
        i = i + 1;
    }
    proof {
        assert(ds@.take(i as int) =~= ds@);
        ids.lemma_fresh_bound();
        assert(filled =~= batch_filled(ds@, lo));
        assert forall|j: int| 0 <= j < filled.len() implies (#[trigger] filled[j]).wf() && ids_valid(
            filled[j].id.view(),
        ) && enc_packet(filled[j]).len() <= u64::MAX by {
            lemma_fill_event(ds@[j], (lo + missing_events(ds@.take(j))) as u64);
        }
        assert(out@ =~= enc_batch(filled));
        crate::roundtrip::lemma_batch_round_trip(filled);
        assert forall|j: int| 0 <= j < ds@.len() implies #[trigger] decode_spec(out@)[j] == with_event(
            ds@[j].view(),
            lo + missing_events(ds@.take(j)),
        ) && missing_events(ds@.take(j)) + (if ds@[j].id.event is None { 1nat } else { 0nat })
            <= missing_events(ds@) by {
            assert(decode_spec(out@)[j] == filled[j].view());
            lemma_missing_events_bound(ds@, j + 1);
            assert(ds@.take(j + 1).drop_last() =~= ds@.take(j));
            assert(ds@.take(j + 1).last() == ds@[j]);
            lemma_fill_event(ds@[j], (lo + missing_events(ds@.take(j))) as u64);
        }
        assert forall|j: int| 0 <= j < ds@.len() implies filled_from(
            ds@[j].view(),
            #[trigger] decode_spec(out@)[j],
            old(ids).next_fresh(),
            ids.next_fresh(),
        ) by {
            assert(decode_spec(out@)[j] == with_event(ds@[j].view(), lo + missing_events(ds@.take(j))));
            assert(missing_events(ds@.take(j)) + (if ds@[j].id.event is None { 1nat } else { 0nat }) <= missing_events(ds@));
        }
        assert forall|a: int, b: int|
            0 <= a < b < ds@.len() && ds@[a].id.event is None && ds@[b].id.event is None
                implies (#[trigger] decode_spec(out@)[a]).id.event.unwrap()
                < (#[trigger] decode_spec(out@)[b]).id.event.unwrap() by {
            assert(decode_spec(out@)[a] == with_event(ds@[a].view(), lo + missing_events(ds@.take(a))));
            assert(decode_spec(out@)[b] == with_event(ds@[b].view(), lo + missing_events(ds@.take(b))));
            assert(ds@.take(a + 1).drop_last() =~= ds@.take(a));
            assert(ds@.take(a + 1).last() == ds@[a]);
            lemma_missing_events_bound(ds@.take(b), a + 1);
            assert(ds@.take(b).take(a + 1) =~= ds@.take(a + 1));
        }
    }
    Ok(out)
}

proof fn lemma_missing_events_bound(ds: Seq<Datagram>, n: int)
    requires
        0 <= n <= ds.len(),
    ensures
        missing_events(ds.take(n)) <= missing_events(ds),
    decreases ds.len(),
{
    if n < ds.len() {
        assert(ds.drop_last().take(n) =~= ds.take(n));
        lemma_missing_events_bound(ds.drop_last(), n);
    } else {
        assert(ds.take(n) =~= ds);
    }
}


// ---------------------------------------------------------------- decoder

pub open spec fn lift_event(r: Option<(Event, usize)>) -> Option<(EventView, int)> {
    match r {
        Some((e, q)) => Some((e.view(), q as int)),
        None => None,
    }
}

pub open spec fn event_wf(r: Option<(Event, usize)>) -> bool {
    match r {
        Some((e, _)) => e.wf(),
        None => true,
    }
}

fn read_acceptable(buf: &[u8], pos: usize) -> (r: Option<(Acceptable, usize)>)
    ensures
        match r {
            Some((a, q)) => parse_acceptable(buf@, pos as int) == Some((a, q as int)),
            None => parse_acceptable(buf@, pos as int) is None,
        },
{
    match read_u8(buf, pos) {
        Some((b, q)) => if b == 0 {
            Some((Acceptable::Accept, q))
        } else if b == 1 {
            match get_reason(buf, q) {
                Ok((r, e)) => Some((Acceptable::Reject(r), e)),
                Err(_) => None,
            }
        } else {
            None
        },
        None => None,
    }
}

fn read_orders(buf: &[u8], pos: usize, n: u64) -> (r: Option<(Vec<UBig>, usize)>)
    ensures
        match r {
            Some((os, q)) => parse_orders(buf@, pos as int, n as nat) == Some((values_of(os@), q as int))
                && os@.len() == n && os@.len() <= usize::MAX && forall|i: int| 0 <= i < os@.len() ==> (#[trigger] os@[i]).wf(),
            None => parse_orders(buf@, pos as int, n as nat) is None,
        },
{
    let mut os: Vec<UBig> = Vec::new();
    let mut q: usize = pos;
    let mut i: u64 = 0;
    while i < n
        invariant
            i <= n,
            os@.len() == i,
            forall|j: int| 0 <= j < os@.len() ==> (#[trigger] os@[j]).wf(),
            parse_orders(buf@, pos as int, n as nat) == match parse_orders(buf@, q as int, (n - i) as nat) {
                Some((rest, e)) => Some((values_of(os@) + rest, e)),
                None => None,
            },
        decreases n - i,
    {
        match read_ubig(buf, q) {
            Some((v, q2)) => {
                proof {
                    let ghost old_os = os@;
                    assert(values_of(old_os.push(v)) =~= values_of(old_os) + seq![v.value()]);
                    match parse_orders(buf@, q2 as int, (n - i - 1) as nat) {
                        Some((rest, e)) => {
                            assert(values_of(old_os) + (seq![v.value()] + rest) =~= values_of(old_os.push(v)) + rest);
                        },
                        None => {},
                    }
                }
                os.push(v);
                q = q2;
                i = i + 1;
            },
            None => {
                return None;
            },
        }
    }
    assert(values_of(os@) + Seq::<nat>::empty() =~= values_of(os@));
    let _n = os.len();
    Some((os, q))
}

fn read_fields(buf: &[u8], pos: usize, h: u8) -> (r: Option<(Event, usize)>)
    ensures
        lift_event(r) == parse_fields(buf@, pos as int, h),
        event_wf(r),
{
    if h == HEAD_SESSION_OPEN {
        let w = match read_u8(buf, pos) {
            Some((0u8, q)) => (Ways::OnlyRead, q),
            Some((1u8, q)) => (Ways::OnlyWrite, q),
            Some((2u8, q)) => (Ways::TwoWays, q),
            _ => return None,
        };
        match read_bool(buf, w.1) {
            Some((a, e)) => Some((
                Event::Session(SessionEvent::Open(SessionOptions { way: w.0, allow_reconnect: a })),
                e,
            )),
            None => None,
        }
    } else if h == HEAD_SESSION_OPEN_ACK || h == HEAD_SESSION_REOPEN_ACK || h
        == HEAD_SESSION_CLOSE_ACK || h == HEAD_STREAM_OPEN_ACK || h == HEAD_STREAM_REOPEN_ACK {
        match read_acceptable(buf, pos) {
            Some((a, e)) => {
                let ev = if h == HEAD_SESSION_OPEN_ACK {
                    Event::Session(SessionEvent::OpenAck(a))
                } else if h == HEAD_SESSION_REOPEN_ACK {
                    Event::Session(SessionEvent::ReopenAck(a))
                } else if h == HEAD_SESSION_CLOSE_ACK {
                    Event::Session(SessionEvent::CloseAck(a))
                } else if h == HEAD_STREAM_OPEN_ACK {
                    Event::Stream(StreamEvent::OpenAck(a))
                } else {
                    Event::Stream(StreamEvent::ReopenAck(a))
                };
                Some((ev, e))
            },
            None => None,
        }
    } else if h == HEAD_SESSION_DEATH || h == HEAD_STREAM_CLEAR {
        match get_reason(buf, pos) {
            Ok((r, e)) => if h == HEAD_SESSION_DEATH {
                Some((Event::Session(SessionEvent::Death(r)), e))
            } else {
                Some((Event::Stream(StreamEvent::Clear(r)), e))
            },
            Err(_) => None,
        }
    } else if h == HEAD_STREAM_OPEN {
        let (a, q1) = match read_bool(buf, pos) {
            Some(x) => x,
            None => return None,
        };
        let (o, q2) = match read_bool(buf, q1) {
            Some(x) => x,
            None => return None,
        };
        let (i, q3) = match read_bool(buf, q2) {
            Some(x) => x,
            None => return None,
        };
        match get_id(buf, q3) {
            Ok((l, e)) => Some((
                Event::Stream(
                    StreamEvent::Open {
                        options: StreamOptions {
                            allow_reconnect: a,
                            enforce_orderliness: o,
                            enforce_integrity: i,
                        },
                        length: l,
                    },
                ),
                e,
            )),
            Err(_) => None,
        }
    } else if h == HEAD_STREAM_BLOCK {
        let (a, q) = match read_bool(buf, pos) {
            Some(x) => x,
            None => return None,
        };
        match read_bytes(buf, q) {
            Some((b, e)) => Some((Event::Stream(StreamEvent::Block(Block { ask_response: a, data: b })), e)),
            None => None,
        }
    } else if h == HEAD_STREAM_CHUNK {
        let (o, q) = match read_ubig(buf, pos) {
            Some(x) => x,
            None => return None,
        };
        match read_bytes(buf, q) {
            Some((b, e)) => Some((Event::Stream(StreamEvent::Chunk(Chunk { order: o, data: b })), e)),
            None => None,
        }
    } else if h == HEAD_STREAM_CHUNK_ACK || h == HEAD_STREAM_FLUSH {
        match read_ubig(buf, pos) {
            Some((v, e)) => if h == HEAD_STREAM_CHUNK_ACK {
                Some((Event::Stream(StreamEvent::ChunkAck(ChunkAck { order: v })), e))
            } else {
                Some((Event::Stream(StreamEvent::Flush(Flush { length: v })), e))
            },
            None => None,
        }
    } else if h == HEAD_STREAM_LACK {
        let (n, q) = match read_u64(buf, pos) {
            Some(x) => x,
            None => return None,
        };
        match read_orders(buf, q, n) {
            Some((os, e)) => Some((Event::Stream(StreamEvent::Lack(Lack { orders: os })), e)),
            None => None,
        }
    } else {
        None
    }
}

fn read_payload(buf: &[u8], pos: usize, h: u8) -> (r: Option<(Event, usize)>)
    ensures
        lift_event(r) == parse_payload(buf@, pos as int, h),
        event_wf(r),
{
    let (t, q) = match read_u8(buf, pos) {
        Some(x) => x,
        None => return None,
    };
    if h == HEAD_SESSION_REOPEN || h == HEAD_SESSION_CLOSE || h == HEAD_STREAM_REOPEN || h
        == HEAD_STREAM_BLOCK_ACK || h == HEAD_STREAM_FLUSH_ACK || h == HEAD_STREAM_LATER || h
        == HEAD_STREAM_GO || h == HEAD_HEALTH_PING || h == HEAD_HEALTH_PONG {
        if t != PAYLOAD_NONE {
            return None;
        }
        let e = if h == HEAD_SESSION_REOPEN {
            Event::Session(SessionEvent::Reopen)
        } else if h == HEAD_SESSION_CLOSE {
            Event::Session(SessionEvent::Close)
        } else if h == HEAD_STREAM_REOPEN {
            Event::Stream(StreamEvent::Reopen)
        } else if h == HEAD_STREAM_BLOCK_ACK {
            Event::Stream(StreamEvent::BlockAck)
        } else if h == HEAD_STREAM_FLUSH_ACK {
            Event::Stream(StreamEvent::FlushAck)
        } else if h == HEAD_STREAM_LATER {
            Event::Stream(StreamEvent::Later)
        } else if h == HEAD_STREAM_GO {
            Event::Stream(StreamEvent::Go)
        } else if h == HEAD_HEALTH_PING {
            Event::Link(LinkEvent::Health(Health::Ping))
        } else {
            Event::Link(LinkEvent::Health(Health::Pong))
        };
        Some((e, q))
    } else if t == h {
        read_fields(buf, q, h)
    } else {
        None
    }
}

/// Decodes the packet at `pos`: its datagram and the position after it, or
/// `None` where the packet is malformed or breaks the identifier rules.
pub fn handle_flatbuffer(buf: &[u8], pos: usize) -> (r: Option<(Datagram, usize)>)
    ensures
        match r {
            Some((d, q)) => parse_packet(buf@, pos as int) == Some((d.view(), q as int)) && d.wf(),
            None => parse_packet(buf@, pos as int) is None,
        },
{
    let (h, q) = match read_u8(buf, pos) {
        Some(x) => x,
        None => return None,
    };
    let (ev, q1) = match get_id(buf, q) {
        Ok(x) => x,
        Err(_) => return None,
    };
    let (se, q2) = match get_id(buf, q1) {
        Ok(x) => x,
        Err(_) => return None,
    };
    let (st, q3) = match get_id(buf, q2) {
        Ok(x) => x,
        Err(_) => return None,
    };
    if ev.is_none() || (st.is_some() && se.is_none()) {
        return None;
    }
    match read_payload(buf, q3, h) {
        Some((e, end)) => Some((Datagram { id: IdSet { event: ev, session: se, stream: st }, event: e }, end)),
        None => None,
    }
}


pub open spec fn views_of(ds: Seq<Datagram>) -> Seq<DatagramView> {
    ds.map_values(|d: Datagram| d.view())
}

/// Appends the packet stored in `buf[a..b]`, if it is one.
fn push_packet_in(buf: &[u8], a: usize, b: usize, out: &mut Vec<Datagram>)
    requires
        forall|i: int| 0 <= i < old(out)@.len() ==> (#[trigger] old(out)@[i]).wf(),
    ensures
        views_of(final(out)@) == views_of(old(out)@) + packet_in(buf@, a as int, b as int),
        forall|i: int| 0 <= i < final(out)@.len() ==> (#[trigger] final(out)@[i]).wf(),
{
    match handle_flatbuffer(buf, a) {
        Some((d, e)) => if e == b {
            out.push(d);
            assert(views_of(out@) =~= views_of(old(out)@) + packet_in(buf@, a as int, b as int));
        } else {
            assert(views_of(out@) =~= views_of(old(out)@) + packet_in(buf@, a as int, b as int));
        },
        None => {
            assert(views_of(out@) =~= views_of(old(out)@) + packet_in(buf@, a as int, b as int));
        },
    }
}

/// Decodes a received buffer: a single packet, or the valid packets of a
/// batch in order; nothing where the frame is malformed.
#[verifier::rlimit(80)]
pub fn decode(buf: &[u8]) -> (r: Vec<Datagram>)
    ensures
        views_of(r@) == decode_spec(buf@),
        forall|i: int| 0 <= i < r@.len() ==> (#[trigger] r@[i]).wf(),
{
    let mut out: Vec<Datagram> = Vec::new();
    let len = buf.len();
    let (k, q) = match read_u8(buf, 0) {
        Some(x) => x,
        None => {
            assert(views_of(out@) =~= Seq::<DatagramView>::empty());
            return out;
        },
    };
    if k == FRAME_SINGLE {
        assert(views_of(out@) =~= Seq::<DatagramView>::empty());
        push_packet_in(buf, q, len, &mut out);
        assert(views_of(out@) =~= packet_in(buf@, q as int, len as int));
        return out;
    }
    if k != FRAME_BATCH {
        assert(views_of(out@) =~= Seq::<DatagramView>::empty());
        return out;
    }
    let (n, start) = match read_u64(buf, q) {
        Some(x) => x,
        None => {
            assert(views_of(out@) =~= Seq::<DatagramView>::empty());
            return out;
        },
    };
    let mut p: usize = start;
    let mut i: u64 = 0;
    assert(views_of(out@) + Seq::<DatagramView>::empty() =~= Seq::<DatagramView>::empty());
    while i < n
        invariant
            i <= n,
            len == buf@.len(),
            start <= p <= len,
            decode_spec(buf@) == match parse_entries(buf@, start as int, n as nat) {
                Some((ds, e)) => if e == buf@.len() {
                    ds
                } else {
                    Seq::empty()
                },
                None => Seq::empty(),
            },
            forall|j: int| 0 <= j < out@.len() ==> (#[trigger] out@[j]).wf(),
            parse_entries(buf@, start as int, n as nat) == match parse_entries(
                buf@,
                p as int,
                (n - i) as nat,
            ) {
                Some((ds, e)) => Some((views_of(out@) + ds, e)),
                None => None,
            },
        decreases n - i,
    {
        let (l, body) = match read_u64(buf, p) {
            Some(x) => x,
            None => {
                let empty: Vec<Datagram> = Vec::new();
                assert(parse_entries(buf@, p as int, (n - i) as nat) is None);
                assert(views_of(empty@) =~= Seq::<DatagramView>::empty());
                return empty;
            },
        };
        if l > (len - body) as u64 {
            let empty: Vec<Datagram> = Vec::new();
            assert(parse_entries(buf@, p as int, (n - i) as nat) is None);
            assert(views_of(empty@) =~= Seq::<DatagramView>::empty());
            return empty;
        }
        let end = body + l as usize;
        let ghost before = views_of(out@);
        push_packet_in(buf, body, end, &mut out);
        proof {
            let pk = packet_in(buf@, body as int, end as int);
            match parse_entries(buf@, end as int, (n - i - 1) as nat) {
                Some((ds, e)) => {
                    assert(before + (pk + ds) =~= (before + pk) + ds);
                },
                None => {},
            }
        }
        p = end;
        i = i + 1;
    }
    if p == len {
        assert(views_of(out@) + Seq::<DatagramView>::empty() =~= views_of(out@));
        out
    } else {
        let empty: Vec<Datagram> = Vec::new();
        assert(views_of(empty@) =~= Seq::<DatagramView>::empty());
        empty
    }
}

} // verus!
