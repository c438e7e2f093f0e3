//! What the codec guarantees: decoding an encoded datagram or batch gives it
//! back, identifiers keep their compact form, and nothing decoded breaks the
//! identifier rules.

use vstd::prelude::*;
use crate::channel::{Datagram, DatagramView, Event};
use crate::channel::link::{Event as LinkEvent, Health};
use crate::channel::session::Event as SessionEvent;
use crate::channel::stream::{values_of, Event as StreamEvent};
use crate::codec::{
    decode_spec, enc_acceptable, enc_batch, enc_entries, enc_fields, enc_orders,
    enc_packet, enc_payload, enc_single, head_of, ids_valid, is_bare_head, packet_in,
    parse_acceptable, parse_entries, parse_fields, parse_ids, parse_orders, parse_packet,
    parse_payload, way_code, FRAME_BATCH,
};
use crate::strategy::Acceptable;
use crate::ubig::{lemma_long_is_large, u64_limit, UBig};
use crate::wire::{
    enc_bool, enc_bytes, enc_opt_ubig, enc_reason, enc_ubig, holds_at, lemma_holds_split,
    lemma_parse_bool, lemma_parse_bytes, lemma_parse_opt_ubig, lemma_parse_reason,
    lemma_parse_u64, lemma_parse_ubig, lemma_u64_round_trip, u64_bytes, TAG_BYTES, TAG_UINT64,
};

verus! {

proof fn lemma_byte_at(s: Seq<u8>, p: int, e: Seq<u8>)
    requires
        holds_at(s, p, e),
        e.len() > 0,
    ensures
        s[p] == e[0],
{
    assert(s[p] == s.subrange(p, p + e.len())[0]);
}

proof fn lemma_parse_acceptable(s: Seq<u8>, p: int, a: Acceptable)
    requires
        holds_at(s, p, enc_acceptable(a)),
    ensures
        parse_acceptable(s, p) == Some((a, p + enc_acceptable(a).len())),
{
    lemma_byte_at(s, p, enc_acceptable(a));
    match a {
        Acceptable::Accept => {},
        Acceptable::Reject(r) => {
            lemma_holds_split(s, p, seq![1u8], enc_reason(r));
            lemma_parse_reason(s, p + 1, r);
        },
    }
}

proof fn lemma_parse_orders(s: Seq<u8>, p: int, os: Seq<UBig>)
    requires
        holds_at(s, p, enc_orders(os)),
        forall|i: int| 0 <= i < os.len() ==> (#[trigger] os[i]).wf(),
    ensures
        parse_orders(s, p, os.len()) == Some((values_of(os), p + enc_orders(os).len())),
    decreases os.len(),
{
    if os.len() == 0 {
        assert(values_of(os) =~= Seq::<nat>::empty());
    } else {
        let rest = os.drop_first();
        lemma_holds_split(s, p, enc_ubig(os[0]), enc_orders(rest));
        lemma_parse_ubig(s, p, os[0]);
        assert forall|i: int| 0 <= i < rest.len() implies (#[trigger] rest[i]).wf() by {
            assert(rest[i] == os[i + 1]);
        }
        lemma_parse_orders(s, p + enc_ubig(os[0]).len(), rest);
        assert(values_of(os) =~= seq![os[0].value()] + values_of(rest));
    }
}

#[verifier::rlimit(80)]
proof fn lemma_parse_fields(s: Seq<u8>, p: int, e: Event)
    requires
        e.wf(),
        !is_bare_head(head_of(e)),
        holds_at(s, p, enc_fields(e)),
    ensures
        parse_fields(s, p, head_of(e)) == Some((e.view(), p + enc_fields(e).len())),
{
    match e {
        Event::Link(LinkEvent::Health(_)) => {},
        Event::Session(se) => match se {
            SessionEvent::Open(o) => {
                lemma_holds_split(s, p, seq![way_code(o.way)], enc_bool(o.allow_reconnect));
                lemma_byte_at(s, p, seq![way_code(o.way)]);
                lemma_parse_bool(s, p + 1, o.allow_reconnect);
            },
            SessionEvent::OpenAck(a) => lemma_parse_acceptable(s, p, a),
            SessionEvent::ReopenAck(a) => lemma_parse_acceptable(s, p, a),
            SessionEvent::CloseAck(a) => lemma_parse_acceptable(s, p, a),
            SessionEvent::Death(r) => lemma_parse_reason(s, p, r),
            _ => {},
        },
        Event::Stream(st) => match st {
            StreamEvent::Open { options, length } => {
                let a = enc_bool(options.allow_reconnect);
                let o = enc_bool(options.enforce_orderliness);
                let i = enc_bool(options.enforce_integrity);
                let l = enc_opt_ubig(length);
                lemma_holds_split(s, p, a + o + i, l);
                lemma_holds_split(s, p, a + o, i);
                lemma_holds_split(s, p, a, o);
                lemma_parse_bool(s, p, options.allow_reconnect);
                lemma_parse_bool(s, p + 1, options.enforce_orderliness);
                lemma_parse_bool(s, p + 2, options.enforce_integrity);
                lemma_parse_opt_ubig(s, p + 3, length);
            },
            StreamEvent::OpenAck(a) => lemma_parse_acceptable(s, p, a),
            StreamEvent::ReopenAck(a) => lemma_parse_acceptable(s, p, a),
            StreamEvent::Block(b) => {
                lemma_holds_split(s, p, enc_bool(b.ask_response), enc_bytes(b.data@));
                lemma_parse_bool(s, p, b.ask_response);
                lemma_parse_bytes(s, p + 1, b.data@);
            },
            StreamEvent::Chunk(c) => {
                lemma_holds_split(s, p, enc_ubig(c.order), enc_bytes(c.data@));
                lemma_parse_ubig(s, p, c.order);
                lemma_parse_bytes(s, p + enc_ubig(c.order).len(), c.data@);
            },
            StreamEvent::ChunkAck(c) => lemma_parse_ubig(s, p, c.order),
            StreamEvent::Flush(f) => lemma_parse_ubig(s, p, f.length),
            StreamEvent::Lack(l) => {
                lemma_holds_split(s, p, u64_bytes(l.orders@.len() as u64), enc_orders(l.orders@));
                lemma_parse_u64(s, p, l.orders@.len() as u64);
                lemma_u64_round_trip(l.orders@.len() as u64);
                lemma_parse_orders(s, p + 8, l.orders@);
            },
            StreamEvent::Clear(r) => lemma_parse_reason(s, p, r),
            _ => {},
        },
    }
}

proof fn lemma_parse_payload(s: Seq<u8>, p: int, e: Event)
    requires
        e.wf(),
        holds_at(s, p, enc_payload(e)),
    ensures
        parse_payload(s, p, head_of(e)) == Some((e.view(), p + enc_payload(e).len())),
{
    lemma_byte_at(s, p, enc_payload(e));
    if !is_bare_head(head_of(e)) {
        lemma_holds_split(s, p, seq![head_of(e)], enc_fields(e));
        lemma_parse_fields(s, p + 1, e);
    }
}

#[verifier::rlimit(80)]
proof fn lemma_parse_packet(s: Seq<u8>, p: int, d: Datagram)
    requires
        d.wf(),
        ids_valid(d.id.view()),
        holds_at(s, p, enc_packet(d)),
    ensures
        parse_packet(s, p) == Some((d.view(), p + enc_packet(d).len())),
{
    let h = seq![head_of(d.event)];
    let ev = enc_opt_ubig(d.id.event);
    let se = enc_opt_ubig(d.id.session);
    let st = enc_opt_ubig(d.id.stream);
    assert(enc_packet(d) == h + (ev + se + st) + enc_payload(d.event));
    lemma_holds_split(s, p, h + (ev + se + st), enc_payload(d.event));
    lemma_holds_split(s, p, h, ev + se + st);
    lemma_holds_split(s, p + 1, ev + se, st);
    lemma_holds_split(s, p + 1, ev, se);
    lemma_byte_at(s, p, h);
    lemma_parse_opt_ubig(s, p + 1, d.id.event);
    lemma_parse_opt_ubig(s, p + 1 + ev.len(), d.id.session);
    lemma_parse_opt_ubig(s, p + 1 + ev.len() + se.len(), d.id.stream);
    lemma_parse_payload(s, p + 1 + ev.len() + se.len() + st.len(), d.event);
    assert(parse_ids(s, p + 1) == Some((d.id.view(), p + 1 + ev.len() + se.len() + st.len())));
}

/// A datagram that carries an event identifier and no stream identifier
/// without a session identifier decodes, alone in its frame, to itself.
pub proof fn lemma_single_round_trip(d: Datagram)
    requires
        d.wf(),
        ids_valid(d.id.view()),
    ensures
        decode_spec(enc_single(d)) == seq![d.view()],
        parse_packet(enc_single(d), 1) == Some((d.view(), enc_single(d).len() as int)),
{
    let s = enc_single(d);
    assert(s.subrange(1, 1 + enc_packet(d).len() as int) =~= enc_packet(d));
    lemma_parse_packet(s, 1, d);
}

#[verifier::rlimit(80)]
proof fn lemma_parse_entries(s: Seq<u8>, p: int, ds: Seq<Datagram>)
    requires
        holds_at(s, p, enc_entries(ds)),
        forall|i: int|
            0 <= i < ds.len() ==> (#[trigger] ds[i]).wf() && ids_valid(ds[i].id.view())
                && enc_packet(ds[i]).len() <= u64::MAX,
    ensures
        parse_entries(s, p, ds.len()) == Some((
            ds.map_values(|d: Datagram| d.view()),
            p + enc_entries(ds).len(),
        )),
    decreases ds.len(),
{
    if ds.len() == 0 {
        assert(ds.map_values(|d: Datagram| d.view()) =~= Seq::<DatagramView>::empty());
    } else {
        let d = ds[0];
        let rest = ds.drop_first();
        let pk = enc_packet(d);
        lemma_holds_split(s, p, enc_bytes(pk), enc_entries(rest));
        lemma_holds_split(s, p, u64_bytes(pk.len() as u64), pk);
        lemma_parse_u64(s, p, pk.len() as u64);
        lemma_parse_packet(s, p + 8, d);
        assert forall|i: int|
            0 <= i < rest.len() implies (#[trigger] rest[i]).wf() && ids_valid(rest[i].id.view())
            && enc_packet(rest[i]).len() <= u64::MAX by {
            assert(rest[i] == ds[i + 1]);
        }
        lemma_parse_entries(s, p + 8 + pk.len(), rest);
        assert(packet_in(s, p + 8, p + 8 + pk.len()) == seq![d.view()]);
        assert(ds.map_values(|d: Datagram| d.view()) =~= seq![d.view()] + rest.map_values(
            |d: Datagram| d.view(),
        ));
    }
}

/// A batch of datagrams, each carrying an event identifier and no stream
/// identifier without a session identifier, decodes to the same datagrams in
/// the same order.
pub proof fn lemma_batch_round_trip(ds: Seq<Datagram>)
    requires
        ds.len() <= u64::MAX,
        forall|i: int|
            0 <= i < ds.len() ==> (#[trigger] ds[i]).wf() && ids_valid(ds[i].id.view())
                && enc_packet(ds[i]).len() <= u64::MAX,
    ensures
        decode_spec(enc_batch(ds)) == ds.map_values(|d: Datagram| d.view()),
{
    let s = enc_batch(ds);
    let n = u64_bytes(ds.len() as u64);
    assert(s =~= seq![FRAME_BATCH] + (n + enc_entries(ds)));
    assert(s.subrange(0, s.len() as int) =~= s);
    lemma_holds_split(s, 0, seq![FRAME_BATCH], n + enc_entries(ds));
    lemma_holds_split(s, 1, n, enc_entries(ds));
    lemma_parse_u64(s, 1, ds.len() as u64);
    lemma_parse_entries(s, 9, ds);
    assert(s[0] == FRAME_BATCH);
}

/// Identifiers up to 2^64 - 1 go on the wire in the 64-bit form, larger ones
/// as bytes; the decoder reads either form back to the same number.
pub proof fn lemma_ubig_compact(u: UBig)
    requires
        u.wf(),
    ensures
        enc_ubig(u)[0] == TAG_UINT64 <==> u.value() <= u64_limit(),
        enc_ubig(u)[0] == TAG_BYTES <==> u.value() > u64_limit(),
        crate::wire::parse_ubig(enc_ubig(u), 0) == Some((u.value(), enc_ubig(u).len() as int)),
{
    match u {
        UBig::Small(_) => {},
        UBig::Large(b) => lemma_long_is_large(b@),
    }
    assert(enc_ubig(u).subrange(0, enc_ubig(u).len() as int) =~= enc_ubig(u));
    lemma_parse_ubig(enc_ubig(u), 0, u);
}

/// Every decoded packet has an event identifier, and a session identifier
/// wherever it has a stream identifier.
pub proof fn lemma_decoded_ids_valid(s: Seq<u8>)
    ensures
        forall|i: int| 0 <= i < decode_spec(s).len() ==> ids_valid(#[trigger] decode_spec(s)[i].id),
{
    match crate::wire::parse_u8(s, 0) {
        Some((k, q)) => {
            if k == FRAME_BATCH {
                match crate::wire::parse_u64(s, q) {
                    Some((n, r)) => lemma_entries_ids_valid(s, r, n as nat),
                    None => {},
                }
            }
        },
        None => {},
    }
}

proof fn lemma_entries_ids_valid(s: Seq<u8>, p: int, n: nat)
    ensures
        match parse_entries(s, p, n) {
            Some((ds, _)) => forall|i: int| 0 <= i < ds.len() ==> ids_valid(#[trigger] ds[i].id),
            None => true,
        },
    decreases n,
{
    if n > 0 {
        match crate::wire::parse_u64(s, p) {
            Some((len, q)) => {
                lemma_entries_ids_valid(s, q + len, (n - 1) as nat);
                match parse_entries(s, p, n) {
                    Some((ds, _)) => {
                        let head = packet_in(s, q, q + len);
                        let (rest, _) = parse_entries(s, q + len, (n - 1) as nat).unwrap();
                        assert(ds == head + rest);
                        assert forall|i: int| 0 <= i < ds.len() implies ids_valid(#[trigger] ds[i].id) by {
                            if i < head.len() {
                                assert(ds[i] == head[i]);
                            } else {
                                assert(ds[i] == rest[i - head.len()]);
                            }
                        }
                    },
                    None => {},
                }
            },
            None => {},
        }
    }
}

} // verus!

verus! {

/// The two wire forms of an identifier decode to the same number: the
/// 64-bit form of `v`, and any non-empty big-endian bytes denoting `v`.
pub proof fn lemma_ubig_forms_agree(v: u64, b: Seq<u8>)
    requires
        0 < b.len() <= crate::ubig::MAX_ID_BYTES,
        crate::ubig::be_value(crate::ubig::strip_zeros(b)) == v,
    ensures
        crate::wire::parse_ubig(seq![TAG_UINT64] + u64_bytes(v), 0) == Some((v as nat, 9int)),
        crate::wire::parse_ubig(seq![TAG_BYTES] + enc_bytes(b), 0) == Some((v as nat, 9 + b.len() as int)),
{
    let s1 = seq![TAG_UINT64] + u64_bytes(v);
    lemma_u64_round_trip(v);
    assert(s1.subrange(1, 9) =~= u64_bytes(v));
    lemma_parse_u64(s1, 1, v);
    let s2 = seq![TAG_BYTES] + enc_bytes(b);
    assert(s2.subrange(1, s2.len() as int) =~= enc_bytes(b));
    lemma_parse_bytes(s2, 1, b);
}

} // verus!
