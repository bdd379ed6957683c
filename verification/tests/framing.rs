use poststation_sdk::accumulator::FrameAccumulator;
use poststation_sdk::framing::{cobs_decode, cobs_encode};

fn wire_frame(payload: &[u8]) -> Vec<u8> {
    let mut w = cobs_encode(&payload.to_vec());
    w.push(0);
    w
}

#[test]
fn encode_simple() {
    assert_eq!(cobs_encode(&vec![1, 2, 3]), vec![4, 1, 2, 3]);
}

#[test]
fn encode_empty() {
    assert_eq!(cobs_encode(&vec![]), vec![1]);
}

#[test]
fn encode_zeros() {
    assert_eq!(cobs_encode(&vec![0]), vec![1, 1]);
    assert_eq!(cobs_encode(&vec![1, 0]), vec![2, 1, 1]);
    assert_eq!(cobs_encode(&vec![0, 0]), vec![1, 1, 1]);
    assert_eq!(cobs_encode(&vec![11, 22, 0, 33]), vec![3, 11, 22, 2, 33]);
}

#[test]
fn encode_long_run() {
    // a block ending exactly at the end of the input closes the frame
    let data: Vec<u8> = (0..254u32).map(|i| (i % 255) as u8 + 1).collect();
    let enc = cobs_encode(&data);
    assert_eq!(enc.len(), 255);
    assert_eq!(enc[0], 0xFF);
    assert_eq!(cobs_decode(&enc), Some(data));
    // one byte more and a second block follows
    let data2: Vec<u8> = (0..255u32).map(|i| (i % 255) as u8 + 1).collect();
    let enc2 = cobs_encode(&data2);
    assert_eq!(enc2.len(), 257);
    assert_eq!(enc2[255], 0x02);
    assert_eq!(cobs_decode(&enc2), Some(data2));
}

#[test]
fn round_trip_various() {
    let cases: Vec<Vec<u8>> = vec![
        vec![],
        vec![0],
        vec![1],
        vec![0, 0, 0],
        vec![1, 2, 3, 0, 4, 5],
        (0..1000u32).map(|i| (i % 256) as u8).collect(),
        (0..300u32).map(|i| (i % 254) as u8 + 1).collect(),
    ];
    for c in cases {
        let enc = cobs_encode(&c);
        assert!(enc.iter().all(|b| *b != 0));
        assert_eq!(cobs_decode(&enc), Some(c));
    }
}

#[test]
fn encode_matches_reference_implementation() {
    let cases: Vec<Vec<u8>> = vec![
        vec![],
        vec![0],
        vec![1, 2, 3],
        vec![1, 0, 2, 0, 3],
        (0..254u32).map(|i| (i % 200) as u8 + 1).collect(),
        (0..255u32).map(|i| (i % 200) as u8 + 1).collect(),
        (0..600u32).map(|i| (i % 256) as u8).collect(),
    ];
    for c in cases {
        assert_eq!(cobs_encode(&c), cobs::encode_vec(&c));
        let enc = cobs_encode(&c);
        assert_eq!(cobs_decode(&enc).unwrap(), cobs::decode_vec(&enc).unwrap());
    }
}

#[test]
fn decode_rejects_malformed() {
    assert_eq!(cobs_decode(&vec![]), None);
    // truncated block: code says 5 bytes follow, only 2 do
    assert_eq!(cobs_decode(&vec![5, 1, 2]), None);
    // a code byte of zero is never valid
    assert_eq!(cobs_decode(&vec![0]), None);
    // an interior zero is never produced by the encoder
    assert_eq!(cobs_decode(&vec![3, 0, 1]), None);
}

#[test]
fn accumulator_whole_frames() {
    let mut acc = FrameAccumulator::new();
    let mut wire = wire_frame(b"hello");
    wire.extend_from_slice(&wire_frame(b"world"));
    let (frames, overflow) = acc.feed(&wire);
    assert!(!overflow);
    assert_eq!(frames, vec![b"hello".to_vec(), b"world".to_vec()]);
}

#[test]
fn accumulator_byte_by_byte() {
    // the streaming equivalence, exercised: any chunking yields the
    // same frames
    let payloads: Vec<Vec<u8>> = vec![b"alpha".to_vec(), vec![0, 1, 0, 2], vec![9; 300]];
    let mut wire = Vec::new();
    for p in &payloads {
        wire.extend_from_slice(&wire_frame(p));
    }
    let mut acc = FrameAccumulator::new();
    let mut got: Vec<Vec<u8>> = Vec::new();
    for b in wire {
        let (frames, overflow) = acc.feed(&vec![b]);
        assert!(!overflow);
        got.extend(frames);
    }
    assert_eq!(got, payloads);
}

#[test]
fn accumulator_discards_bad_frame() {
    let mut acc = FrameAccumulator::new();
    // a frame whose code byte overruns its data fails to decode and is
    // dropped; the next frame still comes through
    let mut wire = vec![9, 1, 1, 0];
    wire.extend_from_slice(&wire_frame(b"ok"));
    let (frames, overflow) = acc.feed(&wire);
    assert!(!overflow);
    assert_eq!(frames, vec![b"ok".to_vec()]);
}

#[test]
fn accumulator_overflow_then_recovers() {
    let mut acc = FrameAccumulator::new();
    // more than 1 MiB without a terminator overflows exactly once
    let chunk = vec![0xAA_u8; 1048577];
    let (frames, overflow) = acc.feed(&chunk);
    assert!(frames.is_empty());
    assert!(overflow);
    // the tail of the oversized frame, up to its terminator, fails to
    // decode and is discarded; framing then resumes cleanly
    let mut wire = vec![0xAA_u8, 0xAA, 0];
    wire.extend_from_slice(&wire_frame(b"fresh"));
    let (frames, overflow) = acc.feed(&wire);
    assert!(!overflow);
    assert_eq!(frames, vec![b"fresh".to_vec()]);
}

#[test]
fn accumulator_keeps_partial_frame() {
    let mut acc = FrameAccumulator::new();
    let wire = wire_frame(b"split");
    let (frames, overflow) = acc.feed(&wire[..3].to_vec());
    assert!(frames.is_empty());
    assert!(!overflow);
    let (frames, overflow) = acc.feed(&wire[3..].to_vec());
    assert!(!overflow);
    assert_eq!(frames, vec![b"split".to_vec()]);
}
