use poststation_sdk::client::{
    classify_proxy_response, classify_publish_response, classify_stream_start, decode_topic_msgs,
    find_endpoint_by_path, find_endpoint_typed, find_topic_out, fuzzy_find, guess_serial,
    parse_topic_stream_msg, str_contains, stream_filter, FuzzyError,
};
use poststation_sdk::icd::{
    ClientError, DeviceData, EndpointReport, Key, OwnedDataModelType, OwnedNamedType,
    ProxyResponse, PublishResponse, SchemaReport, TopicMsg, TopicReport, TopicStreamMsg,
    TopicStreamResult, Uuidv7, WireError,
};
use poststation_sdk::value::Value;

fn nt(name: &str, ty: OwnedDataModelType) -> OwnedNamedType {
    OwnedNamedType { name: String::from(name), ty }
}

fn report() -> SchemaReport {
    SchemaReport {
        types: vec![],
        topics_in: vec![TopicReport {
            path: String::from("simulator/led"),
            key: Key::from_wire(0x10),
            ty: nt("u8", OwnedDataModelType::U8),
        }],
        topics_out: vec![
            TopicReport {
                path: String::from("simulator/temperature"),
                key: Key::from_wire(0x20),
                ty: nt("u32", OwnedDataModelType::U32),
            },
            TopicReport {
                path: String::from("simulator/humidity"),
                key: Key::from_wire(0x21),
                ty: nt("u8", OwnedDataModelType::U8),
            },
        ],
        endpoints: vec![
            EndpointReport {
                path: String::from("poststation/unique_id/get"),
                req_key: Key::from_wire(0x30),
                req_ty: nt("unit", OwnedDataModelType::Unit),
                resp_key: Key::from_wire(0x31),
                resp_ty: nt("u64", OwnedDataModelType::U64),
            },
            EndpointReport {
                path: String::from("simulator/convert/u8i8"),
                req_key: Key::from_wire(0x40),
                req_ty: nt("u8", OwnedDataModelType::U8),
                resp_key: Key::from_wire(0x41),
                resp_ty: nt("i8", OwnedDataModelType::I8),
            },
        ],
    }
}

#[test]
fn topic_and_endpoint_resolution() {
    let r = report();
    assert_eq!(find_topic_out(&r, &String::from("simulator/humidity")), Some(1));
    assert_eq!(find_topic_out(&r, &String::from("nope")), None);
    assert_eq!(find_endpoint_by_path(&r, &String::from("simulator/convert/u8i8")), Some(1));
    assert_eq!(
        find_endpoint_typed(
            &r,
            &String::from("simulator/convert/u8i8"),
            &Key::from_wire(0x40),
            &Key::from_wire(0x41)
        ),
        Some(1)
    );
    // a key mismatch keeps a typed call from resolving
    assert_eq!(
        find_endpoint_typed(
            &r,
            &String::from("simulator/convert/u8i8"),
            &Key::from_wire(0x40),
            &Key::from_wire(0x99)
        ),
        None
    );
}

#[test]
fn proxy_classification() {
    match classify_proxy_response(ProxyResponse::Success {
        resp_key: Key::from_wire(1),
        seq_no: 7,
        body: vec![1, 2],
    }) {
        Ok(body) => assert_eq!(body, vec![1, 2]),
        Err(_) => panic!(),
    }
    match classify_proxy_response(ProxyResponse::WireErr {
        resp_key: Key::from_wire(1),
        seq_no: 7,
        body: WireError::UnknownKey,
    }) {
        Err(ClientError::Remote(m)) => assert_eq!(m, "WireErr: UnknownKey"),
        _ => panic!(),
    }
    match classify_proxy_response(ProxyResponse::OtherErr(String::from("boom"))) {
        Err(ClientError::Remote(m)) => assert_eq!(m, "Other Server Err: 'boom'"),
        _ => panic!(),
    }
}

#[test]
fn publish_and_stream_classification() {
    assert!(classify_publish_response(PublishResponse::Sent).is_ok());
    match classify_publish_response(PublishResponse::OtherErr(String::from("no"))) {
        Err(ClientError::Server(m)) => assert_eq!(m, "no"),
        _ => panic!(),
    }
    match classify_stream_start(TopicStreamResult::Started(Uuidv7(9))) {
        Ok(id) => assert_eq!(id, Uuidv7(9)),
        _ => panic!(),
    }
    match classify_stream_start(TopicStreamResult::NoSuchTopic) {
        Err(ClientError::Server(m)) => assert_eq!(m, "No Such Topic"),
        _ => panic!(),
    }
}

#[test]
fn stream_filter_skips_other_streams() {
    let mine = Uuidv7(77);
    let msg = TopicStreamMsg { stream_id: Uuidv7(77), msg: vec![1] };
    assert_eq!(stream_filter(mine, msg), Some(vec![1]));
    let other = TopicStreamMsg { stream_id: Uuidv7(78), msg: vec![2] };
    assert_eq!(stream_filter(mine, other), None);
}

#[test]
fn stream_msg_parses() {
    // sixteen id bytes, then a length-prefixed message
    let mut body = vec![0u8; 16];
    body[0] = 0x2A;
    body.extend_from_slice(&[3, 9, 8, 7]);
    body.extend_from_slice(&[0xFF]); // trailing bytes are ignored
    let m = parse_topic_stream_msg(&body).unwrap();
    assert_eq!(m.stream_id, Uuidv7(0x2A));
    assert_eq!(m.msg, vec![9, 8, 7]);
    assert!(parse_topic_stream_msg(&vec![1, 2, 3]).is_none());
    assert!(parse_topic_stream_msg(&{
        let mut b = vec![0u8; 16];
        b.push(9);
        b.push(1);
        b
    })
    .is_none());
}

#[test]
fn fuzzy_path_lookup() {
    let paths = vec![
        String::from("poststation/unique_id/get"),
        String::from("simulator/convert/u8i8"),
        String::from("simulator/convert/u16i16"),
    ];
    assert_eq!(fuzzy_find(&paths, &String::from("unique")), Ok(0));
    assert_eq!(fuzzy_find(&paths, &String::from("u8i8")), Ok(1));
    assert_eq!(fuzzy_find(&paths, &String::from("convert")), Err(FuzzyError::Ambiguous));
    assert_eq!(fuzzy_find(&paths, &String::from("nope")), Err(FuzzyError::NoMatch));
}

#[test]
fn contains_works() {
    assert!(str_contains(&String::from("simulator/temperature"), &String::from("temp")));
    assert!(str_contains(&String::from("abc"), &String::from("")));
    assert!(!str_contains(&String::from("abc"), &String::from("abcd")));
    assert!(!str_contains(&String::from("abc"), &String::from("ac")));
}

fn devices() -> Vec<DeviceData> {
    vec![
        DeviceData {
            serial: String::from("3836363937050630"),
            name: String::from("XRAY-013"),
            is_connected: true,
            manufacturer: None,
            product: None,
        },
        DeviceData {
            serial: String::from("6E43B25479AC185C"),
            name: String::from("YACHTY-312"),
            is_connected: true,
            manufacturer: None,
            product: None,
        },
    ]
}

#[test]
fn guess_serial_direct_hex() {
    let r = guess_serial(&String::from("6e43b25479ac185c"), &devices());
    assert_eq!(r, Ok(0x6E43_B254_79AC_185C));
}

#[test]
fn guess_serial_by_name() {
    let r = guess_serial(&String::from("xray"), &devices());
    assert_eq!(r, Ok(0x3836_3639_3705_0630));
}

#[test]
fn guess_serial_by_fragment() {
    let r = guess_serial(&String::from("79ac"), &devices());
    assert_eq!(r, Ok(0x6E43_B254_79AC_185C));
}

#[test]
fn guess_serial_no_match() {
    let r = guess_serial(&String::from("zebra"), &devices());
    assert_eq!(r, Err(String::from("Failed to find device matching 'ZEBRA'")));
}

#[test]
fn guess_serial_ambiguous() {
    let mut devs = devices();
    devs[1].name = String::from("XRAY-444");
    let r = guess_serial(&String::from("xray"), &devs);
    assert_eq!(r, Err(String::from("Too many matches, be more specific!")));
}

#[test]
fn topic_msgs_decode_in_order() {
    let ty = nt("u32", OwnedDataModelType::U32);
    let raws = vec![
        TopicMsg { uuidv7: Uuidv7(1), msg: postcard::to_stdvec(&7u32).unwrap() },
        TopicMsg { uuidv7: Uuidv7(2), msg: postcard::to_stdvec(&70000u32).unwrap() },
    ];
    let out = decode_topic_msgs(&ty, raws).unwrap();
    assert_eq!(out.len(), 2);
    assert_eq!(out[0].0, Uuidv7(1));
    match &out[0].1 {
        Value::U32(v) => assert_eq!(*v, 7),
        _ => panic!(),
    }
    match &out[1].1 {
        Value::U32(v) => assert_eq!(*v, 70000),
        _ => panic!(),
    }
    // one malformed message fails the whole batch
    let bad = vec![TopicMsg { uuidv7: Uuidv7(3), msg: vec![0x80] }];
    match decode_topic_msgs(&ty, bad) {
        Err(ClientError::Encoding) => {}
        _ => panic!(),
    }
}
