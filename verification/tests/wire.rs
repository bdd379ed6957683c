use postcard_rpc::header::{VarHeader as RpcHeader, VarKey as RpcKey, VarSeq as RpcSeq};
use poststation_sdk::header::{
    key8_fold4, key4_fold2, key2_fold1, take_header, write_header, VarHeader, VarKey, VarSeq,
};
use poststation_sdk::icd::{
    dec_string, wire_error_message, AlphaUnsigned, Device, DeviceCommands, FrameTooLong,
    FrameTooShort, Key, Rgb8, WireError,
};
use poststation_sdk::varint::{varint_push_u64, varint_push_u128, zigzag_i64, unzigzag_i64};

#[test]
fn varint_images_match_postcard() {
    for n in [0u64, 1, 127, 128, 300, 16383, 16384, u32::MAX as u64, u64::MAX] {
        let mut mine = Vec::new();
        varint_push_u64(&mut mine, n);
        assert_eq!(mine, postcard::to_stdvec(&n).unwrap());
    }
    let mut mine = Vec::new();
    varint_push_u128(&mut mine, u128::MAX);
    assert_eq!(mine, postcard::to_stdvec(&u128::MAX).unwrap());
}

#[test]
fn zigzag_matches_postcard() {
    for n in [0i64, -1, 1, -2, 63, -64, 1000, -1000, i64::MIN, i64::MAX] {
        let mut mine = Vec::new();
        varint_push_u64(&mut mine, zigzag_i64(n));
        assert_eq!(mine, postcard::to_stdvec(&n).unwrap());
        assert_eq!(unzigzag_i64(zigzag_i64(n)), n);
    }
}

#[test]
fn header_bytes_match_reference() {
    let key = postcard_rpc::Key::for_path::<u32>("postcard-rpc/ping");
    let key_num = u64::from_le_bytes(key.to_bytes());
    let mut buf = [0u8; 32];
    let theirs = RpcHeader { key: RpcKey::Key8(key), seq_no: RpcSeq::Seq4(0xDEAD_BEEF) }
        .write_to_slice(&mut buf)
        .unwrap()
        .0
        .to_vec();
    let mine = write_header(&VarHeader {
        key: VarKey::Key8(key_num),
        seq_no: VarSeq::Seq4(0xDEAD_BEEF),
    });
    assert_eq!(mine, theirs);
}

#[test]
fn header_round_trip_all_widths() {
    let keys = [
        VarKey::Key1(0xAB),
        VarKey::Key2(0x1234),
        VarKey::Key4(0xDEAD_BEEF),
        VarKey::Key8(0x0123_4567_89AB_CDEF),
    ];
    let seqs = [VarSeq::Seq1(7), VarSeq::Seq2(0x4242), VarSeq::Seq4(0xFFFF_FFFF)];
    for key in keys {
        for seq_no in seqs {
            let h = VarHeader { key, seq_no };
            let mut bytes = write_header(&h);
            bytes.extend_from_slice(b"tail");
            let (parsed, used) = take_header(&bytes).unwrap();
            assert_eq!(parsed, h);
            assert_eq!(used, bytes.len() - 4);
        }
    }
}

#[test]
fn header_parse_matches_reference() {
    let key = postcard_rpc::Key::for_path::<u64>("some/endpoint");
    let mut buf = [0u8; 32];
    let theirs = RpcHeader { key: RpcKey::Key8(key), seq_no: RpcSeq::Seq2(99) }
        .write_to_slice(&mut buf)
        .unwrap()
        .0
        .to_vec();
    let (mine, used) = take_header(&theirs).unwrap();
    assert_eq!(used, theirs.len());
    assert_eq!(mine.key, VarKey::Key8(u64::from_le_bytes(key.to_bytes())));
    assert_eq!(mine.seq_no, VarSeq::Seq2(99));
}

#[test]
fn header_rejects_bad_version_and_width() {
    // low four bits must be zero
    assert!(take_header(&vec![0x01, 0xAA, 0x01]).is_none());
    // sequence width bits 0b11 are invalid
    assert!(take_header(&vec![0x30, 0xAA, 0x01, 0x01]).is_none());
    // too short for the announced widths
    assert!(take_header(&vec![0xC0, 0xAA]).is_none());
}

#[test]
fn key_folding_matches_reference() {
    let key = postcard_rpc::Key::for_path::<u32>("simulator/temperature");
    let key_num = u64::from_le_bytes(key.to_bytes());
    let theirs4 = postcard_rpc::Key4::from_key8(key).to_bytes();
    assert_eq!(key8_fold4(key_num).to_le_bytes(), theirs4);
    let theirs2 = postcard_rpc::Key2::from_key8(key).to_bytes();
    assert_eq!(key4_fold2(key8_fold4(key_num)).to_le_bytes(), theirs2);
    let theirs1 = postcard_rpc::Key1::from_key8(key).to_bytes();
    assert_eq!(key2_fold1(key4_fold2(key8_fold4(key_num))), theirs1);
}

#[test]
fn key_hex_round_trip() {
    let k = Key::from_wire(0xE8ED_EF24_F26C_7C91);
    assert_eq!(k.0, "E8EDEF24F26C7C91");
    assert_eq!(k.to_wire(), Some(0xE8ED_EF24_F26C_7C91));
    assert_eq!(Key::from_wire(0).0, "0000000000000000");
    assert_eq!(Key::from_wire(0).to_wire(), Some(0));
}

#[test]
fn key_hex_parses_lowercase_and_short() {
    assert_eq!(Key(String::from("ff")).to_wire(), Some(0xFF));
    assert_eq!(Key(String::from("00000000000000000001")).to_wire(), Some(1));
    assert_eq!(Key(String::from("")).to_wire(), None);
    assert_eq!(Key(String::from("XYZ")).to_wire(), None);
    assert_eq!(Key(String::from("10000000000000000")).to_wire(), None);
}

#[test]
fn decimal_rendering() {
    assert_eq!(dec_string(0), "0");
    assert_eq!(dec_string(7), "7");
    assert_eq!(dec_string(1234567890), "1234567890");
    assert_eq!(dec_string(u64::MAX), "18446744073709551615");
}

#[test]
fn wire_error_texts() {
    assert_eq!(wire_error_message(&WireError::UnknownKey), "UnknownKey");
    assert_eq!(wire_error_message(&WireError::DeserFailed), "DeserFailed");
    assert_eq!(
        wire_error_message(&WireError::FrameTooLong(FrameTooLong { len: 5, max: 3 })),
        "FrameTooLong { len: 5, max: 3 }"
    );
    assert_eq!(
        wire_error_message(&WireError::FrameTooShort(FrameTooShort { len: 2 })),
        "FrameTooShort { len: 2 }"
    );
}

#[test]
fn interface_types_hold_plain_values() {
    let led = Rgb8 { r: 1, g: 2, b: 3 };
    assert_eq!(led, Rgb8 { r: 1, g: 2, b: 3 });
    let a = AlphaUnsigned { a: 1, b: 2, c: 3, d: 4, e: 5 };
    assert_eq!(a.e, 5);
    let cmd = Device {
        serial: Some(String::from("XRAY")),
        command: DeviceCommands::Logs { count: Some(8) },
    };
    match cmd.command {
        DeviceCommands::Logs { count } => assert_eq!(count, Some(8)),
        _ => panic!(),
    }
}
