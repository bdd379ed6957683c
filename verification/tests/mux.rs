use poststation_sdk::header::{write_header, VarHeader, VarKey, VarSeq};
use poststation_sdk::mux::{FrameOutcome, Mux, Phase, RecvOutcome, StartError};

const PING_KEY: u64 = 0x1111_2222_3333_4444;
const ERROR_KEY: u64 = 0x0BAD_0BAD_1BAD_2BAD;
const RESP_KEY: u64 = 0x0123_4567_89AB_CDEF;
const TOPIC_KEY: u64 = 0x9999_AAAA_BBBB_CCCC;

fn frame(key: u64, seq: u32, body: &[u8]) -> Vec<u8> {
    let h = VarHeader { key: VarKey::Key8(key), seq_no: VarSeq::Seq4(seq) };
    let mut f = write_header(&h);
    f.extend_from_slice(body);
    f
}

/// A mux whose ping handshake has round-tripped.
fn open_mux() -> Mux {
    let mut m = Mux::new(42, ERROR_KEY);
    let seq = m.start_ping(PING_KEY).unwrap();
    match m.on_frame(&frame(PING_KEY, seq, &[42, 0, 0, 0])) {
        FrameOutcome::Response { .. } => {}
        _ => panic!("ping response not correlated"),
    }
    assert!(m.on_ping_response(42));
    m
}

#[test]
fn ping_gate_blocks_user_requests() {
    let mut m = Mux::new(42, ERROR_KEY);
    assert_eq!(m.start_request(RESP_KEY), Err(StartError::NotOpen));
    let m = open_mux();
    assert_eq!(m.phase, Phase::Open);
}

#[test]
fn ping_mismatch_closes() {
    let mut m = Mux::new(42, ERROR_KEY);
    m.start_ping(PING_KEY).unwrap();
    assert!(!m.on_ping_response(7));
    assert_eq!(m.phase, Phase::Closed);
    assert_eq!(m.start_request(RESP_KEY), Err(StartError::NotOpen));
}

#[test]
fn responses_correlate_by_sequence() {
    let mut m = open_mux();
    let a = m.start_request(RESP_KEY).unwrap();
    let b = m.start_request(RESP_KEY).unwrap();
    assert_ne!(a, b);
    match m.on_frame(&frame(RESP_KEY, b, b"second")) {
        FrameOutcome::Response { seq, body, wire_error } => {
            assert_eq!(seq, b);
            assert_eq!(body, b"second".to_vec());
            assert!(!wire_error);
        }
        _ => panic!("expected a response"),
    }
    // the other slot is still pending: a late frame for it still lands
    match m.on_frame(&frame(RESP_KEY, a, b"first")) {
        FrameOutcome::Response { seq, .. } => assert_eq!(seq, a),
        _ => panic!("expected a response"),
    }
}

#[test]
fn wire_error_key_always_fulfills() {
    let mut m = open_mux();
    let seq = m.start_request(RESP_KEY).unwrap();
    match m.on_frame(&frame(ERROR_KEY, seq, &[4])) {
        FrameOutcome::Response { wire_error, body, .. } => {
            assert!(wire_error);
            assert_eq!(body, vec![4]);
        }
        _ => panic!("wire error must fulfill the slot"),
    }
    // the slot is gone: a second frame for it is not a response
    match m.on_frame(&frame(RESP_KEY, seq, &[5])) {
        FrameOutcome::Discarded => {}
        _ => panic!("slot should have been removed"),
    }
}

#[test]
fn one_wire_error_spares_siblings() {
    let mut m = open_mux();
    let bad = m.start_request(RESP_KEY).unwrap();
    let good = m.start_request(RESP_KEY).unwrap();
    match m.on_frame(&frame(ERROR_KEY, bad, &[4])) {
        FrameOutcome::Response { wire_error, .. } => assert!(wire_error),
        _ => panic!(),
    }
    match m.on_frame(&frame(RESP_KEY, good, b"fine")) {
        FrameOutcome::Response { wire_error, body, .. } => {
            assert!(!wire_error);
            assert_eq!(body, b"fine".to_vec());
        }
        _ => panic!(),
    }
}

#[test]
fn cancel_leaves_no_entry() {
    let mut m = open_mux();
    let seq = m.start_request(RESP_KEY).unwrap();
    m.cancel_request(seq);
    match m.on_frame(&frame(RESP_KEY, seq, b"late")) {
        FrameOutcome::Discarded => {}
        _ => panic!("cancelled slot must not receive"),
    }
}

#[test]
fn fanout_preserves_order_for_each_subscriber() {
    let mut m = open_mux();
    let s1 = m.subscribe(TOPIC_KEY).unwrap();
    let s2 = m.subscribe(TOPIC_KEY).unwrap();
    for i in 0..10u8 {
        match m.on_frame(&frame(TOPIC_KEY, 1000 + i as u32, &[i])) {
            FrameOutcome::Topic { .. } => {}
            _ => panic!("expected a topic frame"),
        }
    }
    for s in [s1, s2] {
        for i in 0..10u8 {
            match m.sub_recv(s) {
                RecvOutcome::Message(body) => assert_eq!(body, vec![i]),
                _ => panic!("expected message {i}"),
            }
        }
        match m.sub_recv(s) {
            RecvOutcome::Pending => {}
            _ => panic!("queue should be drained"),
        }
    }
}

#[test]
fn slow_subscriber_lags_without_hurting_others() {
    let mut m = open_mux();
    let slow = m.subscribe(TOPIC_KEY).unwrap();
    let fast = m.subscribe(TOPIC_KEY).unwrap();
    for i in 0..1000u32 {
        m.on_frame(&frame(TOPIC_KEY, i, &i.to_le_bytes()));
        // the fast one keeps up
        match m.sub_recv(fast) {
            RecvOutcome::Message(body) => assert_eq!(body, i.to_le_bytes().to_vec()),
            _ => panic!("fast subscriber fell behind"),
        }
    }
    // the slow one sees the loss first, then resumes with the message
    // right after the last dropped one
    match m.sub_recv(slow) {
        RecvOutcome::Lagged(n) => assert_eq!(n, 936),
        _ => panic!("expected a lag report"),
    }
    for i in 936..1000u32 {
        match m.sub_recv(slow) {
            RecvOutcome::Message(body) => assert_eq!(body, i.to_le_bytes().to_vec()),
            _ => panic!("expected message {i}"),
        }
    }
    match m.sub_recv(slow) {
        RecvOutcome::Pending => {}
        _ => panic!("queue should be drained"),
    }
}

#[test]
fn unsubscribe_stops_delivery() {
    let mut m = open_mux();
    let s = m.subscribe(TOPIC_KEY).unwrap();
    m.unsubscribe(s);
    match m.on_frame(&frame(TOPIC_KEY, 1, &[1])) {
        FrameOutcome::Discarded => {}
        _ => panic!("no subscriber should remain"),
    }
    match m.sub_recv(s) {
        RecvOutcome::IoClosed => {}
        _ => panic!("unknown handle reads as closed"),
    }
}

#[test]
fn close_fails_pending_and_ends_streams() {
    let mut m = open_mux();
    let _seq = m.start_request(RESP_KEY).unwrap();
    let s = m.subscribe(TOPIC_KEY).unwrap();
    m.on_frame(&frame(TOPIC_KEY, 1, b"last"));
    m.close();
    assert_eq!(m.phase, Phase::Closed);
    assert_eq!(m.pending.len(), 0);
    assert_eq!(m.start_request(RESP_KEY), Err(StartError::NotOpen));
    // the buffered message still drains, then the stream ends
    match m.sub_recv(s) {
        RecvOutcome::Message(body) => assert_eq!(body, b"last".to_vec()),
        _ => panic!(),
    }
    match m.sub_recv(s) {
        RecvOutcome::IoClosed => {}
        _ => panic!("drained subscriber must see end of stream"),
    }
    // closing again changes nothing
    m.close();
    assert_eq!(m.phase, Phase::Closed);
}

#[test]
fn unknown_frames_are_discarded() {
    let mut m = open_mux();
    match m.on_frame(&frame(0xDEAD, 7, &[1])) {
        FrameOutcome::Discarded => {}
        _ => panic!(),
    }
    // garbage that is not even a header
    match m.on_frame(&vec![0x0F]) {
        FrameOutcome::Discarded => {}
        _ => panic!(),
    }
}

#[test]
fn narrow_key_widths_still_route() {
    // a server may answer with a narrower key: the 4-byte fold of the
    // response key still correlates
    let mut m = open_mux();
    let seq = m.start_request(RESP_KEY).unwrap();
    let folded = poststation_sdk::header::key8_fold4(RESP_KEY);
    let h = VarHeader { key: VarKey::Key4(folded), seq_no: VarSeq::Seq4(seq) };
    let mut f = write_header(&h);
    f.extend_from_slice(b"narrow");
    match m.on_frame(&f) {
        FrameOutcome::Response { body, wire_error, .. } => {
            assert_eq!(body, b"narrow".to_vec());
            assert!(!wire_error);
        }
        _ => panic!("folded key must still match"),
    }
}
