use poststation_sdk::dyncodec::{from_slice_dyn, to_stdvec_dyn};
use poststation_sdk::icd::{
    OwnedDataModelType, OwnedDataModelVariant, OwnedNamedType, OwnedNamedValue, OwnedNamedVariant,
};
use poststation_sdk::value::Value;
use postcard_schema::schema::owned as pso;

fn nt(name: &str, ty: OwnedDataModelType) -> OwnedNamedType {
    OwnedNamedType { name: String::from(name), ty }
}

fn enc(ty: OwnedDataModelType, v: &Value) -> Vec<u8> {
    to_stdvec_dyn(&nt("t", ty), v).expect("encode should succeed")
}

fn dec(ty: OwnedDataModelType, bytes: &[u8]) -> Value {
    from_slice_dyn(&nt("t", ty), &bytes.to_vec()).expect("decode should succeed")
}

#[test]
fn primitives_match_postcard() {
    assert_eq!(enc(OwnedDataModelType::Bool, &Value::Bool(true)), postcard::to_stdvec(&true).unwrap());
    assert_eq!(enc(OwnedDataModelType::U8, &Value::U8(0x80)), postcard::to_stdvec(&0x80u8).unwrap());
    assert_eq!(enc(OwnedDataModelType::I8, &Value::I8(-5)), postcard::to_stdvec(&-5i8).unwrap());
    assert_eq!(
        enc(OwnedDataModelType::U32, &Value::U32(70000)),
        postcard::to_stdvec(&70000u32).unwrap()
    );
    assert_eq!(
        enc(OwnedDataModelType::I32, &Value::I32(-12345)),
        postcard::to_stdvec(&-12345i32).unwrap()
    );
    assert_eq!(
        enc(OwnedDataModelType::U128, &Value::U128(u128::MAX)),
        postcard::to_stdvec(&u128::MAX).unwrap()
    );
    assert_eq!(
        enc(OwnedDataModelType::F64, &Value::F64Bits(4.0f64.to_bits())),
        postcard::to_stdvec(&4.0f64).unwrap()
    );
    assert_eq!(
        enc(OwnedDataModelType::F32, &Value::F32Bits(1.5f32.to_bits())),
        postcard::to_stdvec(&1.5f32).unwrap()
    );
    assert_eq!(
        enc(OwnedDataModelType::Char, &Value::Ch('\u{e9}')),
        postcard::to_stdvec(&'\u{e9}').unwrap()
    );
    assert_eq!(
        enc(OwnedDataModelType::String, &Value::Text(String::from("hello"))),
        postcard::to_stdvec(&"hello").unwrap()
    );
}

#[test]
fn containers_match_postcard() {
    assert_eq!(
        enc(
            OwnedDataModelType::Option(Box::new(nt("u8", OwnedDataModelType::U8))),
            &Value::Opt(Some(Box::new(Value::U8(7))))
        ),
        postcard::to_stdvec(&Some(7u8)).unwrap()
    );
    assert_eq!(
        enc(OwnedDataModelType::Option(Box::new(nt("u8", OwnedDataModelType::U8))), &Value::Opt(None)),
        postcard::to_stdvec(&None::<u8>).unwrap()
    );
    assert_eq!(
        enc(
            OwnedDataModelType::Sequence(Box::new(nt("u16", OwnedDataModelType::U16))),
            &Value::SeqVal(vec![Value::U16(1), Value::U16(300)])
        ),
        postcard::to_stdvec(&vec![1u16, 300]).unwrap()
    );
    assert_eq!(
        enc(
            OwnedDataModelType::Tuple(vec![
                nt("u8", OwnedDataModelType::U8),
                nt("bool", OwnedDataModelType::Bool)
            ]),
            &Value::TupleVal(vec![Value::U8(8), Value::Bool(false)])
        ),
        postcard::to_stdvec(&(8u8, false)).unwrap()
    );
    let mut map = std::collections::BTreeMap::new();
    map.insert(String::from("a"), 1u8);
    map.insert(String::from("b"), 2u8);
    assert_eq!(
        enc(
            OwnedDataModelType::Mapping {
                key: Box::new(nt("string", OwnedDataModelType::String)),
                val: Box::new(nt("u8", OwnedDataModelType::U8)),
            },
            &Value::MapVal(vec![
                (Value::Text(String::from("a")), Value::U8(1)),
                (Value::Text(String::from("b")), Value::U8(2)),
            ])
        ),
        postcard::to_stdvec(&map).unwrap()
    );
}

#[test]
fn struct_matches_postcard_dyn() {
    let real_schema = pso::OwnedNamedType {
        name: "S".to_string(),
        ty: pso::OwnedDataModelType::Struct(vec![
            pso::OwnedNamedValue {
                name: "x".to_string(),
                ty: pso::OwnedNamedType { name: "bool".to_string(), ty: pso::OwnedDataModelType::Bool },
            },
            pso::OwnedNamedValue {
                name: "y".to_string(),
                ty: pso::OwnedNamedType { name: "u16".to_string(), ty: pso::OwnedDataModelType::U16 },
            },
        ]),
    };
    let mut obj = serde_json::Map::new();
    obj.insert("x".to_string(), serde_json::Value::Bool(false));
    obj.insert("y".to_string(), serde_json::Value::from(1000u64));
    let theirs = postcard_dyn::to_stdvec_dyn(&real_schema, &serde_json::Value::Object(obj)).unwrap();

    let schema = OwnedDataModelType::Struct(vec![
        OwnedNamedValue { name: String::from("x"), ty: nt("bool", OwnedDataModelType::Bool) },
        OwnedNamedValue { name: String::from("y"), ty: nt("u16", OwnedDataModelType::U16) },
    ]);
    let mine = enc(
        schema,
        &Value::StructVal(vec![
            (String::from("x"), Value::Bool(false)),
            (String::from("y"), Value::U16(1000)),
        ]),
    );
    assert_eq!(mine, theirs);
}

fn example_enum_schema() -> OwnedDataModelType {
    OwnedDataModelType::Enum(vec![
        OwnedNamedVariant { name: String::from("Alpha"), ty: OwnedDataModelVariant::UnitVariant },
        OwnedNamedVariant {
            name: String::from("Beta"),
            ty: OwnedDataModelVariant::NewtypeVariant(Box::new(nt("u8", OwnedDataModelType::U8))),
        },
        OwnedNamedVariant {
            name: String::from("Gamma"),
            ty: OwnedDataModelVariant::TupleVariant(vec![
                nt("u8", OwnedDataModelType::U8),
                nt("bool", OwnedDataModelType::Bool),
            ]),
        },
    ])
}

#[test]
fn enums_encode_as_index_and_payload() {
    assert_eq!(
        enc(example_enum_schema(), &Value::EnumVal(String::from("Alpha"), Box::new(Value::UnitVal))),
        vec![0]
    );
    assert_eq!(
        enc(example_enum_schema(), &Value::EnumVal(String::from("Beta"), Box::new(Value::U8(4)))),
        vec![1, 4]
    );
    assert_eq!(
        enc(
            example_enum_schema(),
            &Value::EnumVal(
                String::from("Gamma"),
                Box::new(Value::TupleVal(vec![Value::U8(8), Value::Bool(true)]))
            )
        ),
        vec![2, 8, 1]
    );
}

#[test]
fn decode_round_trips() {
    let cases: Vec<(OwnedDataModelType, Value)> = vec![
        (OwnedDataModelType::Bool, Value::Bool(true)),
        (OwnedDataModelType::I8, Value::I8(-128)),
        (OwnedDataModelType::U64, Value::U64(u64::MAX)),
        (OwnedDataModelType::I64, Value::I64(i64::MIN)),
        (OwnedDataModelType::String, Value::Text(String::from("caf\u{e9}"))),
        (OwnedDataModelType::ByteArray, Value::Bytes(vec![0, 1, 2, 255])),
        (
            OwnedDataModelType::Option(Box::new(nt("u8", OwnedDataModelType::U8))),
            Value::Opt(Some(Box::new(Value::U8(9)))),
        ),
        (OwnedDataModelType::Unit, Value::UnitVal),
        (
            OwnedDataModelType::NewtypeStruct(Box::new(nt("u8", OwnedDataModelType::U8))),
            Value::NewtypeVal(Box::new(Value::U8(3))),
        ),
        (
            OwnedDataModelType::Sequence(Box::new(nt("u8", OwnedDataModelType::U8))),
            Value::SeqVal(vec![Value::U8(1), Value::U8(2)]),
        ),
        (OwnedDataModelType::F64, Value::F64Bits(2.5f64.to_bits())),
        (OwnedDataModelType::Char, Value::Ch('Z')),
    ];
    for (ty, v) in cases {
        let bytes = to_stdvec_dyn(&nt("t", clone_ty(&ty)), &v).expect("encode");
        let back = from_slice_dyn(&nt("t", ty), &bytes).expect("decode");
        assert!(values_equal(&back, &v), "round trip changed the value");
    }
}

/// Structural equality for test values.
fn values_equal(a: &Value, b: &Value) -> bool {
    match (a, b) {
        (Value::Bool(x), Value::Bool(y)) => x == y,
        (Value::I8(x), Value::I8(y)) => x == y,
        (Value::U8(x), Value::U8(y)) => x == y,
        (Value::U64(x), Value::U64(y)) => x == y,
        (Value::I64(x), Value::I64(y)) => x == y,
        (Value::U16(x), Value::U16(y)) => x == y,
        (Value::F64Bits(x), Value::F64Bits(y)) => x == y,
        (Value::Ch(x), Value::Ch(y)) => x == y,
        (Value::Text(x), Value::Text(y)) => x == y,
        (Value::Bytes(x), Value::Bytes(y)) => x == y,
        (Value::Opt(None), Value::Opt(None)) => true,
        (Value::Opt(Some(x)), Value::Opt(Some(y))) => values_equal(x, y),
        (Value::UnitVal, Value::UnitVal) => true,
        (Value::NewtypeVal(x), Value::NewtypeVal(y)) => values_equal(x, y),
        (Value::SeqVal(xs), Value::SeqVal(ys)) => {
            xs.len() == ys.len() && xs.iter().zip(ys.iter()).all(|(x, y)| values_equal(x, y))
        }
        _ => false,
    }
}

fn clone_ty(this: &OwnedDataModelType) -> OwnedDataModelType {
    {
        match this {
            OwnedDataModelType::Bool => OwnedDataModelType::Bool,
            OwnedDataModelType::I8 => OwnedDataModelType::I8,
            OwnedDataModelType::U8 => OwnedDataModelType::U8,
            OwnedDataModelType::U16 => OwnedDataModelType::U16,
            OwnedDataModelType::U64 => OwnedDataModelType::U64,
            OwnedDataModelType::I64 => OwnedDataModelType::I64,
            OwnedDataModelType::F64 => OwnedDataModelType::F64,
            OwnedDataModelType::Char => OwnedDataModelType::Char,
            OwnedDataModelType::String => OwnedDataModelType::String,
            OwnedDataModelType::ByteArray => OwnedDataModelType::ByteArray,
            OwnedDataModelType::Unit => OwnedDataModelType::Unit,
            OwnedDataModelType::Option(x) => {
                OwnedDataModelType::Option(Box::new(OwnedNamedType {
                    name: x.name.clone(),
                    ty: clone_ty(&x.ty),
                }))
            }
            OwnedDataModelType::NewtypeStruct(x) => {
                OwnedDataModelType::NewtypeStruct(Box::new(OwnedNamedType {
                    name: x.name.clone(),
                    ty: clone_ty(&x.ty),
                }))
            }
            OwnedDataModelType::Sequence(x) => {
                OwnedDataModelType::Sequence(Box::new(OwnedNamedType {
                    name: x.name.clone(),
                    ty: clone_ty(&x.ty),
                }))
            }
            _ => panic!("not needed in these tests"),
        }
    }
}

#[test]
fn shape_mismatch_is_rejected() {
    assert!(to_stdvec_dyn(&nt("t", OwnedDataModelType::Bool), &Value::U8(1)).is_none());
    assert!(to_stdvec_dyn(&nt("t", OwnedDataModelType::Schema), &Value::UnitVal).is_none());
    // bool on the wire must be 0 or 1
    assert!(from_slice_dyn(&nt("t", OwnedDataModelType::Bool), &vec![2]).is_none());
    // truncated varint
    assert!(from_slice_dyn(&nt("t", OwnedDataModelType::U32), &vec![0x80]).is_none());
    // string bytes must be valid text
    assert!(from_slice_dyn(&nt("t", OwnedDataModelType::String), &vec![2, 0xFF, 0xFE]).is_none());
    // unknown enum variant name
    assert!(
        to_stdvec_dyn(
            &nt("t", example_enum_schema()),
            &Value::EnumVal(String::from("Delta"), Box::new(Value::UnitVal))
        )
        .is_none()
    );
    // variant index beyond the schema
    assert!(from_slice_dyn(&nt("t", example_enum_schema()), &vec![9]).is_none());
}

#[test]
fn unsigned_to_signed_conversion_story() {
    // a device that converts u8 to i8 reinterprets the byte: 0x80 reads
    // back as -128 under the response schema
    let req = enc(OwnedDataModelType::U8, &Value::U8(0x80));
    assert_eq!(req, vec![0x80]);
    match dec(OwnedDataModelType::I8, &req) {
        Value::I8(v) => assert_eq!(v, -128),
        _ => panic!("expected a signed value"),
    }
}
