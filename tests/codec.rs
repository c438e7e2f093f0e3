use linkmux::channel::link::{Event as LinkEvent, Health};
use linkmux::channel::session::{Event as SessionEvent, OpenOptions as SessionOptions, Ways};
use linkmux::channel::stream::{
    Block, Chunk, ChunkAck, Event as StreamEvent, Flush, Lack, OpenOptions as StreamOptions,
};
use linkmux::channel::{Datagram, Event, IdSet, Reason};
use linkmux::codec::{
    decode, handle_flatbuffer, serialize_datagram, serialize_datagrams, SerializeError, FRAME_BATCH,
    FRAME_SINGLE,
};
use linkmux::ids::IdPool;
use linkmux::strategy::Acceptable;
use linkmux::ubig::UBig;
use linkmux::wire::{get_id, get_reason, get_ubig, ConvertError, TAG_BYTES, TAG_UINT64};

fn small(v: u64) -> Option<UBig> {
    Some(UBig::from_u64(v))
}

fn value(u: &Option<UBig>) -> Option<u64> {
    u.as_ref().map(|x| x.to_u64().expect("fits"))
}

fn datagram(event: Option<u64>, session: Option<u64>, stream: Option<u64>, e: Event) -> Datagram {
    Datagram {
        id: IdSet {
            event: event.map(UBig::from_u64),
            session: session.map(UBig::from_u64),
            stream: stream.map(UBig::from_u64),
        },
        event: e,
    }
}

fn round_trip(d: &Datagram) -> Datagram {
    let mut ids = IdPool::new();
    let bytes = serialize_datagram(d, &mut ids).expect("encodes");
    let mut out = decode(&bytes);
    assert_eq!(out.len(), 1);
    out.remove(0)
}

fn same_ids(a: &Datagram, b: &Datagram) {
    assert_eq!(value(&a.id.event), value(&b.id.event));
    assert_eq!(value(&a.id.session), value(&b.id.session));
    assert_eq!(value(&a.id.stream), value(&b.id.stream));
}

#[test]
fn session_open_round_trip() {
    let d = datagram(
        Some(1),
        None,
        None,
        Event::Session(SessionEvent::Open(SessionOptions { way: Ways::OnlyWrite, allow_reconnect: false })),
    );
    let back = round_trip(&d);
    same_ids(&d, &back);
    match back.event {
        Event::Session(SessionEvent::Open(o)) => {
            assert_eq!(o.way, Ways::OnlyWrite);
            assert!(!o.allow_reconnect);
        },
        _ => panic!("wrong event"),
    }
}

#[test]
fn every_session_event_round_trips() {
    let events = vec![
        SessionEvent::OpenAck(Acceptable::Accept),
        SessionEvent::OpenAck(Acceptable::Reject(Reason { code: 401 })),
        SessionEvent::Reopen,
        SessionEvent::ReopenAck(Acceptable::Accept),
        SessionEvent::Close,
        SessionEvent::CloseAck(Acceptable::Reject(Reason { code: 9 })),
        SessionEvent::Death(Reason { code: u64::MAX }),
    ];
    for e in events {
        let d = datagram(Some(3), Some(42), None, Event::Session(e));
        let back = round_trip(&d);
        same_ids(&d, &back);
        match back.event {
            Event::Session(b) => assert_eq!(b, e),
            _ => panic!("wrong scope"),
        }
    }
}

#[test]
fn stream_events_round_trip() {
    let d = datagram(
        Some(5),
        Some(42),
        Some(7),
        Event::Stream(StreamEvent::Block(Block { ask_response: true, data: vec![0xDE, 0xAD] })),
    );
    match round_trip(&d).event {
        Event::Stream(StreamEvent::Block(b)) => {
            assert!(b.ask_response);
            assert_eq!(b.data, vec![0xDE, 0xAD]);
        },
        _ => panic!("wrong event"),
    }
    let d = datagram(
        Some(5),
        Some(42),
        Some(7),
        Event::Stream(StreamEvent::Chunk(Chunk { order: UBig::from_u64(3), data: vec![1, 2, 3] })),
    );
    match round_trip(&d).event {
        Event::Stream(StreamEvent::Chunk(c)) => {
            assert_eq!(c.order.to_u64(), Some(3));
            assert_eq!(c.data, vec![1, 2, 3]);
        },
        _ => panic!("wrong event"),
    }
    let d = datagram(
        Some(5),
        Some(42),
        Some(7),
        Event::Stream(StreamEvent::Lack(Lack { orders: vec![UBig::from_u64(2), UBig::from_u64(9)] })),
    );
    match round_trip(&d).event {
        Event::Stream(StreamEvent::Lack(l)) => {
            let got: Vec<u64> = l.orders.iter().map(|o| o.to_u64().unwrap()).collect();
            assert_eq!(got, vec![2, 9]);
        },
        _ => panic!("wrong event"),
    }
    let d = datagram(
        Some(5),
        Some(42),
        Some(7),
        Event::Stream(StreamEvent::Open {
            options: StreamOptions { allow_reconnect: false, enforce_orderliness: true, enforce_integrity: true },
            length: small(4096),
        }),
    );
    match round_trip(&d).event {
        Event::Stream(StreamEvent::Open { options, length }) => {
            assert!(!options.allow_reconnect);
            assert!(options.enforce_orderliness);
            assert_eq!(value(&length), Some(4096));
        },
        _ => panic!("wrong event"),
    }
    for e in vec![
        StreamEvent::BlockAck,
        StreamEvent::FlushAck,
        StreamEvent::Later,
        StreamEvent::Go,
        StreamEvent::Reopen,
        StreamEvent::ChunkAck(ChunkAck { order: UBig::from_u64(1) }),
        StreamEvent::Flush(Flush { length: UBig::from_u64(4) }),
        StreamEvent::Clear(Reason { code: 12 }),
        StreamEvent::ReopenAck(Acceptable::Accept),
    ] {
        let d = datagram(Some(8), Some(1), Some(2), Event::Stream(e));
        let back = round_trip(&d);
        same_ids(&d, &back);
    }
}

#[test]
fn health_round_trip_and_event_allocation() {
    let mut ids = IdPool::new();
    let ping = datagram(None, None, None, Event::Link(LinkEvent::Health(Health::Ping)));
    let first = decode(&serialize_datagram(&ping, &mut ids).unwrap());
    let second = decode(&serialize_datagram(&ping, &mut ids).unwrap());
    assert_eq!(value(&first[0].id.event), Some(0));
    assert_eq!(value(&second[0].id.event), Some(1));
    assert!(matches!(first[0].event, Event::Link(LinkEvent::Health(Health::Ping))));
}

#[test]
fn batch_round_trip_keeps_order() {
    let mut ids = IdPool::new();
    let ds = vec![
        datagram(Some(10), Some(1), None, Event::Session(SessionEvent::Close)),
        datagram(None, None, None, Event::Link(LinkEvent::Health(Health::Pong))),
        datagram(Some(11), Some(1), Some(2), Event::Stream(StreamEvent::Go)),
    ];
    let bytes = serialize_datagrams(&ds, &mut ids).unwrap();
    assert_eq!(bytes[0], FRAME_BATCH);
    let back = decode(&bytes);
    assert_eq!(back.len(), 3);
    assert_eq!(value(&back[0].id.event), Some(10));
    assert_eq!(value(&back[1].id.event), Some(0));
    assert_eq!(value(&back[2].id.event), Some(11));
    assert!(matches!(back[0].event, Event::Session(SessionEvent::Close)));
    assert!(matches!(back[1].event, Event::Link(LinkEvent::Health(Health::Pong))));
    assert!(matches!(back[2].event, Event::Stream(StreamEvent::Go)));
}

#[test]
fn empty_batch_decodes_to_nothing() {
    let mut ids = IdPool::new();
    let bytes = serialize_datagrams(&vec![], &mut ids).unwrap();
    assert_eq!(bytes.len(), 9);
    assert!(decode(&bytes).is_empty());
}

#[test]
fn stream_without_session_is_refused() {
    let mut ids = IdPool::new();
    let d = datagram(Some(1), None, Some(7), Event::Stream(StreamEvent::Go));
    assert_eq!(serialize_datagram(&d, &mut ids).err(), Some(SerializeError::InvalidSessionId));
    let ds = vec![datagram(Some(1), Some(2), None, Event::Session(SessionEvent::Close)), d];
    assert_eq!(serialize_datagrams(&ds, &mut ids).err(), Some(SerializeError::InvalidSessionId));
}

#[test]
fn encoded_single_frame_layout() {
    let mut ids = IdPool::new();
    let d = datagram(Some(1), None, None, Event::Link(LinkEvent::Health(Health::Ping)));
    let bytes = serialize_datagram(&d, &mut ids).unwrap();
    // kind, head, event id (tag + 8 bytes), session, stream, payload tag
    assert_eq!(bytes, vec![FRAME_SINGLE, 22, 1, 0, 0, 0, 0, 0, 0, 0, 1, 0, 0, 0]);
}

#[test]
fn malformed_input_decodes_to_nothing() {
    assert!(decode(&[]).is_empty());
    assert!(decode(&[7, 1, 2]).is_empty());
    assert!(decode(&[FRAME_SINGLE, 22]).is_empty());
    // a packet without an event identifier
    assert!(decode(&[FRAME_SINGLE, 22, 0, 0, 0, 0]).is_empty());
    // a bare head with a data payload tag
    assert!(decode(&[FRAME_SINGLE, 22, 1, 0, 0, 0, 0, 0, 0, 0, 1, 0, 0, 22]).is_empty());
}

#[test]
fn bad_packet_in_batch_is_dropped_alone() {
    let mut ids = IdPool::new();
    let good = datagram(Some(4), None, None, Event::Link(LinkEvent::Health(Health::Ping)));
    let mut one = Vec::new();
    linkmux::codec::write_packet(&mut one, &good);
    let mut bytes = vec![FRAME_BATCH, 0, 0, 0, 0, 0, 0, 0, 2];
    let bad = vec![22u8, 0, 0, 0, 0];
    bytes.extend_from_slice(&(bad.len() as u64).to_be_bytes());
    bytes.extend_from_slice(&bad);
    bytes.extend_from_slice(&(one.len() as u64).to_be_bytes());
    bytes.extend_from_slice(&one);
    let back = decode(&bytes);
    assert_eq!(back.len(), 1);
    assert_eq!(value(&back[0].id.event), Some(4));
    let _ = &mut ids;
}

#[test]
fn ubig_forms_on_the_wire() {
    // up to 2^64 - 1: the 64-bit form
    let mut out = Vec::new();
    linkmux::wire::write_ubig(&mut out, &UBig::from_u64(u64::MAX));
    assert_eq!(out[0], TAG_UINT64);
    assert_eq!(out.len(), 9);
    // above: big-endian bytes
    let big = UBig::from_be_bytes(&[1, 0, 0, 0, 0, 0, 0, 0, 0]);
    assert!(big.to_u64().is_none());
    let mut out = Vec::new();
    linkmux::wire::write_ubig(&mut out, &big);
    assert_eq!(out[0], TAG_BYTES);
    assert_eq!(out.len(), 1 + 8 + 9);
    let (back, end) = get_ubig(&out, 0).unwrap();
    assert_eq!(end, out.len());
    assert!(back.unwrap().to_u64().is_none());
}

#[test]
fn decoder_accepts_bytes_form_for_small_values() {
    // bytes form with leading zeros for 5
    let buf = vec![TAG_BYTES, 0, 0, 0, 0, 0, 0, 0, 3, 0, 0, 5];
    let (v, end) = get_ubig(&buf, 0).unwrap();
    assert_eq!(end, buf.len());
    assert_eq!(v.unwrap().to_u64(), Some(5));
    // empty bytes: absent
    let buf = vec![TAG_BYTES, 0, 0, 0, 0, 0, 0, 0, 0];
    assert!(get_ubig(&buf, 0).unwrap().0.is_none());
    // the absent tag
    assert!(get_id(&[0], 0).unwrap().0.is_none());
    assert_eq!(get_id(&[9], 0).err(), Some(ConvertError::Malformed));
}

#[test]
fn from_be_bytes_strips_leading_zeros() {
    let v = UBig::from_be_bytes(&[0, 0, 0, 0, 0, 0, 0, 0, 0, 0, 1, 2]);
    assert_eq!(v.to_u64(), Some(0x0102));
    let v = UBig::from_be_bytes(&[0, 0, 0]);
    assert_eq!(v.to_u64(), Some(0));
    match UBig::from_be_bytes(&[0, 2, 0, 0, 0, 0, 0, 0, 0, 1]) {
        UBig::Large(b) => assert_eq!(b, vec![2, 0, 0, 0, 0, 0, 0, 0, 1]),
        UBig::Small(_) => panic!("too large for 64 bits"),
    }
}

#[test]
fn reason_reader() {
    let buf = vec![0, 0, 0, 0, 0, 0, 1, 0x91];
    let (r, end) = get_reason(&buf, 0).unwrap();
    assert_eq!(r.code, 401);
    assert_eq!(end, 8);
    assert_eq!(get_reason(&buf, 1).err(), Some(ConvertError::Malformed));
}

#[test]
fn handle_flatbuffer_reads_one_packet() {
    let d = datagram(Some(1), Some(42), None, Event::Session(SessionEvent::OpenAck(Acceptable::Accept)));
    let mut buf = Vec::new();
    linkmux::codec::write_packet(&mut buf, &d);
    let (back, end) = handle_flatbuffer(&buf, 0).unwrap();
    assert_eq!(end, buf.len());
    same_ids(&d, &back);
}

#[test]
fn libuv_v() {
    // Smoke test: a health ping encodes and prints as a single frame.
    let mut ids = IdPool::new();
    let ping = datagram(None, None, None, Event::Link(LinkEvent::Health(Health::Ping)));
    let bytes = serialize_datagram(&ping, &mut ids).unwrap();
    println!("Ping frame: {:#?}", bytes);
    assert_eq!(bytes[0], FRAME_SINGLE);
}

#[test]
fn well_formedness_checks() {
    let ok = datagram(Some(1), Some(2), Some(3), Event::Stream(StreamEvent::Go));
    assert!(ok.is_wf());
    let bad = Datagram {
        id: IdSet { event: Some(UBig::Large(vec![0, 1, 2, 3, 4, 5, 6, 7, 8])), session: None, stream: None },
        event: Event::Link(LinkEvent::Health(Health::Ping)),
    };
    assert!(!bad.is_wf());
    let lack = datagram(
        Some(1),
        Some(2),
        Some(3),
        Event::Stream(StreamEvent::Lack(Lack { orders: vec![UBig::from_u64(1), UBig::Large(vec![1, 2])] })),
    );
    assert!(!lack.is_wf());
}

#[test]
fn batch_event_ids_increase() {
    let mut ids = IdPool::new();
    let ping = || datagram(None, None, None, Event::Link(LinkEvent::Health(Health::Ping)));
    let ds = vec![ping(), datagram(Some(100), None, None, Event::Link(LinkEvent::Health(Health::Pong))), ping(), ping()];
    let back = decode(&serialize_datagrams(&ds, &mut ids).unwrap());
    let got: Vec<Option<u64>> = back.iter().map(|d| value(&d.id.event)).collect();
    assert_eq!(got, vec![Some(0), Some(100), Some(1), Some(2)]);
}

#[test]
fn identifier_wire_forms_in_a_packet() {
    let mut ids = IdPool::new();
    let big = UBig::from_be_bytes(&[1, 0, 0, 0, 0, 0, 0, 0, 0]);
    let d = Datagram {
        id: IdSet { event: small(u64::MAX), session: Some(big), stream: None },
        event: Event::Link(LinkEvent::Health(Health::Ping)),
    };
    let bytes = serialize_datagram(&d, &mut ids).unwrap();
    let mut expected = vec![FRAME_SINGLE, 22, TAG_UINT64];
    expected.extend_from_slice(&u64::MAX.to_be_bytes());
    expected.push(TAG_BYTES);
    expected.extend_from_slice(&9u64.to_be_bytes());
    expected.extend_from_slice(&[1, 0, 0, 0, 0, 0, 0, 0, 0]);
    expected.push(0);
    expected.push(0);
    assert_eq!(bytes, expected);
    let (back, end) = handle_flatbuffer(&bytes, 1).unwrap();
    assert_eq!(end, bytes.len());
    assert!(back.id.session.unwrap().to_u64().is_none());
}
