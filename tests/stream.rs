use linkmux::channel::stream::{
    Block, Chunk, ChunkAck, Event as StreamEvent, Flush, Lack, OpenOptions,
};
use linkmux::channel::Reason;
use linkmux::strategy::Acceptable;
use linkmux::stream::{
    ChunkReceiver, ChunkSender, FlushReply, StreamState, REASON_INVALID_LACK, REASON_INVALID_OPEN,
    REASON_PROTOCOL_VIOLATION, REASON_RECONNECT_REFUSED,
};
use linkmux::ubig::UBig;

fn chunk(order: u64, data: Vec<u8>) -> StreamEvent {
    StreamEvent::Chunk(Chunk { order: UBig::from_u64(order), data })
}

fn options(orderliness: bool, integrity: bool) -> OpenOptions {
    OpenOptions { allow_reconnect: true, enforce_orderliness: orderliness, enforce_integrity: integrity }
}

#[test]
fn default_stream_options() {
    let o = OpenOptions::default();
    assert!(o.allow_reconnect);
    assert!(!o.enforce_orderliness);
    assert!(o.enforce_integrity);
}

#[test]
fn ordered_receiver_holds_until_gap_filled() {
    let mut r = ChunkReceiver::new(true, true);
    let d = r.on_chunk(1, vec![11]);
    assert!(d.ack);
    assert!(d.surfaced.is_empty());
    let d = r.on_chunk(2, vec![22]);
    assert!(d.surfaced.is_empty());
    let d = r.on_chunk(0, vec![0]);
    let orders: Vec<u64> = d.surfaced.iter().map(|c| c.0).collect();
    assert_eq!(orders, vec![0, 1, 2]);
    assert_eq!(d.surfaced[1].1, vec![11]);
    let d = r.on_chunk(3, vec![33]);
    assert_eq!(d.surfaced.len(), 1);
    assert_eq!(d.surfaced[0].0, 3);
}

#[test]
fn unordered_receiver_surfaces_on_arrival() {
    let mut r = ChunkReceiver::new(false, false);
    let d = r.on_chunk(5, vec![5]);
    assert!(!d.ack);
    assert_eq!(d.surfaced.len(), 1);
    assert_eq!(d.surfaced[0].0, 5);
    let d = r.on_chunk(1, vec![1]);
    assert_eq!(d.surfaced[0].0, 1);
}

#[test]
fn duplicate_chunk_is_idempotent_but_acked() {
    let mut r = ChunkReceiver::new(false, true);
    assert_eq!(r.on_chunk(0, vec![1]).surfaced.len(), 1);
    let d = r.on_chunk(0, vec![9]);
    assert!(d.ack);
    assert!(d.surfaced.is_empty());
    assert!(r.contains(0));
}

#[test]
fn chunked_with_gap_lack_then_flush_ack() {
    // sender emits 0, 1, 3, 4, then a flush of length 4
    let mut s = StreamState::new(options(false, true), Some(4));
    for o in [0u64, 1, 3, 4] {
        let step = s.on_event(&chunk(o, vec![o as u8]));
        assert_eq!(step.replies.len(), 1);
        assert!(matches!(&step.replies[0], StreamEvent::ChunkAck(a) if a.order.to_u64() == Some(o)));
    }
    let step = s.on_event(&StreamEvent::Flush(Flush { length: UBig::from_u64(4) }));
    assert_eq!(step.replies.len(), 1);
    match &step.replies[0] {
        StreamEvent::Lack(l) => {
            let got: Vec<u64> = l.orders.iter().map(|o| o.to_u64().unwrap()).collect();
            assert_eq!(got, vec![2]);
        },
        _ => panic!("expected a lack"),
    }
    // the sender resends order 2
    let step = s.on_event(&chunk(2, vec![2]));
    assert_eq!(step.delivered, vec![vec![2u8]]);
    let step = s.on_event(&StreamEvent::Flush(Flush { length: UBig::from_u64(4) }));
    assert!(matches!(step.replies[0], StreamEvent::FlushAck));
    // closed: nothing more happens
    let step = s.on_event(&chunk(9, vec![9]));
    assert!(step.replies.is_empty());
    assert!(step.delivered.is_empty());
}

#[test]
fn flush_without_chunks_is_acked() {
    let r = ChunkReceiver::new(false, true);
    assert!(matches!(r.on_flush(0), FlushReply::Ack));
}

#[test]
fn flush_without_integrity_is_acked() {
    let r = ChunkReceiver::new(false, false);
    assert!(matches!(r.on_flush(10), FlushReply::Ack));
}

#[test]
fn flush_lack_lists_lowest_missing_in_order() {
    let mut r = ChunkReceiver::new(false, true);
    r.on_chunk(1, vec![]);
    r.on_chunk(4, vec![]);
    match r.on_flush(6) {
        FlushReply::Lack(m) => assert_eq!(m, vec![0, 2, 3, 5]),
        FlushReply::Ack => panic!("orders are missing"),
    }
}

#[test]
fn later_and_go() {
    let mut s = ChunkSender::new();
    assert_eq!(s.send(vec![0]), Some(0));
    assert_eq!(s.send(vec![1]), Some(1));
    s.on_later();
    assert_eq!(s.send(vec![2]), None);
    s.on_later();
    assert_eq!(s.send(vec![2]), None);
    s.on_go();
    assert_eq!(s.send(vec![2]), Some(2));
    s.on_go();
    assert_eq!(s.send(vec![3]), Some(3));
}

#[test]
fn later_go_through_stream_state() {
    let mut s = StreamState::new(OpenOptions::default(), None);
    assert!(s.send_chunk(vec![1]).is_some());
    s.on_event(&StreamEvent::Later);
    assert!(s.send_chunk(vec![2]).is_none());
    s.on_event(&StreamEvent::Go);
    match s.send_chunk(vec![2]) {
        Some(StreamEvent::Chunk(c)) => assert_eq!(c.order.to_u64(), Some(1)),
        _ => panic!("expected the next unsent order"),
    }
}

#[test]
fn lack_resends_and_invalid_lack_clears() {
    let mut s = ChunkSender::new();
    s.send(vec![10]);
    s.send(vec![11]);
    let again = s.on_lack(&vec![1, 0]).unwrap();
    assert_eq!(again, vec![(1, vec![11]), (0, vec![10])]);
    assert_eq!(s.on_lack(&vec![2]).err().map(|r| r.code), Some(REASON_INVALID_LACK));

    let mut st = StreamState::new(OpenOptions::default(), None);
    st.send_chunk(vec![7]);
    let step = st.on_event(&StreamEvent::Lack(Lack { orders: vec![UBig::from_u64(0)] }));
    assert!(matches!(&step.replies[0], StreamEvent::Chunk(c) if c.data == vec![7]));
    let step = st.on_event(&StreamEvent::Lack(Lack { orders: vec![UBig::from_u64(5)] }));
    assert!(matches!(step.replies[0], StreamEvent::Clear(Reason { code: REASON_INVALID_LACK })));
}

#[test]
fn acks_of_unsent_orders_are_refused() {
    let mut s = ChunkSender::new();
    s.send(vec![]);
    assert!(s.on_ack(0));
    assert!(!s.on_ack(1));
}

#[test]
fn block_round_and_block_on_length_stream() {
    let mut s = StreamState::new(OpenOptions::default(), None);
    let step = s.on_event(&StreamEvent::Block(Block { ask_response: true, data: vec![0xDE, 0xAD] }));
    assert_eq!(step.delivered, vec![vec![0xDE, 0xAD]]);
    assert!(matches!(step.replies[0], StreamEvent::BlockAck));
    let step = s.on_event(&StreamEvent::Block(Block { ask_response: false, data: vec![] }));
    assert!(step.replies.is_empty());

    let mut s = StreamState::new(OpenOptions::default(), Some(10));
    let step = s.on_event(&StreamEvent::Block(Block { ask_response: true, data: vec![1] }));
    assert!(matches!(step.replies[0], StreamEvent::Clear(Reason { code: REASON_INVALID_OPEN })));
}

#[test]
fn huge_order_is_a_violation() {
    let mut s = StreamState::new(OpenOptions::default(), None);
    let big = UBig::from_be_bytes(&[1, 0, 0, 0, 0, 0, 0, 0, 0]);
    let step = s.on_event(&StreamEvent::Chunk(Chunk { order: big, data: vec![] }));
    assert!(matches!(step.replies[0], StreamEvent::Clear(Reason { code: REASON_PROTOCOL_VIOLATION })));
}

#[test]
fn stream_reopen_answers() {
    let mut s = StreamState::new(OpenOptions::default(), None);
    let step = s.on_event(&StreamEvent::Reopen);
    assert!(matches!(step.replies[0], StreamEvent::ReopenAck(Acceptable::Accept)));
    let mut s = StreamState::new(OpenOptions { allow_reconnect: false, ..OpenOptions::default() }, None);
    let step = s.on_event(&StreamEvent::Reopen);
    assert!(matches!(
        step.replies[0],
        StreamEvent::ReopenAck(Acceptable::Reject(Reason { code: REASON_RECONNECT_REFUSED }))
    ));
    let step = s.on_event(&StreamEvent::ChunkAck(ChunkAck { order: UBig::from_u64(0) }));
    assert!(step.replies.is_empty());
}

#[test]
fn block_ack_completes_a_sent_block() {
    let mut s = StreamState::new(OpenOptions::default(), None);
    match s.send_block(vec![0xDE, 0xAD], true) {
        Some(StreamEvent::Block(b)) => {
            assert!(b.ask_response);
            assert_eq!(b.data, vec![0xDE, 0xAD]);
        },
        _ => panic!("expected a block"),
    }
    assert!(s.on_event(&StreamEvent::BlockAck).block_acked);
    // a second acknowledgement completes nothing
    assert!(!s.on_event(&StreamEvent::BlockAck).block_acked);
}

#[test]
fn chunk_acks_through_stream_state() {
    let mut s = StreamState::new(OpenOptions::default(), None);
    s.send_chunk(vec![1]);
    let step = s.on_event(&StreamEvent::ChunkAck(ChunkAck { order: UBig::from_u64(0) }));
    assert!(step.replies.is_empty());
    assert!(!step.block_acked);
}

#[test]
fn flush_lack_lists_every_missing_order() {
    let mut r = ChunkReceiver::new(false, true);
    r.on_chunk(0, vec![]);
    match r.on_flush(2000) {
        FlushReply::Lack(m) => {
            assert_eq!(m.len(), 1999);
            assert_eq!(m[0], 1);
            assert_eq!(m[1998], 1999);
        },
        FlushReply::Ack => panic!("orders are missing"),
    }
}

#[test]
fn resent_chunk_carries_its_first_data() {
    let mut s = StreamState::new(OpenOptions::default(), None);
    s.send_chunk(vec![10]);
    s.send_chunk(vec![11]);
    s.send_chunk(vec![12]);
    let step = s.on_event(&StreamEvent::Lack(Lack { orders: vec![UBig::from_u64(2)] }));
    assert_eq!(step.replies.len(), 1);
    match &step.replies[0] {
        StreamEvent::Chunk(c) => {
            assert_eq!(c.order.to_u64(), Some(2));
            assert_eq!(c.data, vec![12]);
        },
        _ => panic!("expected the chunk again"),
    }
}
