//! The schema-directed codec between dynamic values and wire bytes.
//!
//! Encoding walks a schema tree and a [`Value`] together and fails
//! exactly when their shapes disagree; decoding walks the schema tree
//! and the bytes. Integers wider than one byte travel as varints
//! (zig-zag for the signed ones), floats as their little-endian bit
//! patterns, strings and byte arrays length-prefixed, options with a
//! presence byte, sequences and maps length-prefixed, tuples and
//! structs as their parts in order, and an enum as the variant index
//! followed by its payload.

use vstd::prelude::*;
use vstd::utf8::{encode_utf8, decode_utf8, valid_utf8};
use crate::icd::{OwnedDataModelType, OwnedDataModelVariant, OwnedNamedType, OwnedNamedValue,
    OwnedNamedVariant};
use crate::value::{SpecValue, Value};
use crate::varint::{varint_spec, varint_parse, varint_push_u128, zigzag_spec, unzigzag_spec,
    zigzag_i64, zigzag_i128};
use crate::header::{le_bytes, from_le};

verus! {

/// How a value is stuffed against a schema node; `None` when the
/// value's shape does not match the schema.
pub open spec fn encode_spec(ty: OwnedDataModelType, v: Value) -> Option<Seq<u8>>
    decreases v, 0nat,
{
    match (ty, v) {
        (OwnedDataModelType::Bool, Value::Bool(b)) => Some(
            seq![
                if b {
                    1u8
                } else {
                    0u8
                },
            ],
        ),
        (OwnedDataModelType::I8, Value::I8(n)) => Some(seq![n as u8]),
        (OwnedDataModelType::U8, Value::U8(n)) => Some(seq![n]),
        (OwnedDataModelType::I16, Value::I16(n)) => Some(varint_spec(zigzag_spec(n as int))),
        (OwnedDataModelType::I32, Value::I32(n)) => Some(varint_spec(zigzag_spec(n as int))),
        (OwnedDataModelType::I64, Value::I64(n)) => Some(varint_spec(zigzag_spec(n as int))),
        (OwnedDataModelType::I128, Value::I128(n)) => Some(varint_spec(zigzag_spec(n as int))),
        (OwnedDataModelType::Isize, Value::I64(n)) => Some(varint_spec(zigzag_spec(n as int))),
        (OwnedDataModelType::U16, Value::U16(n)) => Some(varint_spec(n as nat)),
        (OwnedDataModelType::U32, Value::U32(n)) => Some(varint_spec(n as nat)),
        (OwnedDataModelType::U64, Value::U64(n)) => Some(varint_spec(n as nat)),
        (OwnedDataModelType::U128, Value::U128(n)) => Some(varint_spec(n as nat)),
        (OwnedDataModelType::Usize, Value::U64(n)) => Some(varint_spec(n as nat)),
        (OwnedDataModelType::F32, Value::F32Bits(bits)) => Some(le_bytes(bits as nat, 4)),
        (OwnedDataModelType::F64, Value::F64Bits(bits)) => Some(le_bytes(bits as nat, 8)),
        (OwnedDataModelType::Char, Value::Ch(c)) => {
            let utf = encode_utf8(seq![c]);
            Some(varint_spec(utf.len()) + utf)
        },
        (OwnedDataModelType::String, Value::Text(s)) => {
            let utf = encode_utf8(s@);
            Some(varint_spec(utf.len()) + utf)
        },
        (OwnedDataModelType::ByteArray, Value::Bytes(b)) => Some(varint_spec(b@.len()) + b@),
        (OwnedDataModelType::Option(nt), Value::Opt(o)) => match o {
            None => Some(seq![0u8]),
            Some(inner) => match encode_spec(nt.ty, *inner) {
                Some(e) => Some(seq![1u8] + e),
                None => None,
            },
        },
        (OwnedDataModelType::Unit, Value::UnitVal) => Some(Seq::empty()),
        (OwnedDataModelType::UnitStruct, Value::UnitStructVal) => Some(Seq::empty()),
        (OwnedDataModelType::NewtypeStruct(nt), Value::NewtypeVal(inner)) => encode_spec(
            nt.ty,
            *inner,
        ),
        (OwnedDataModelType::Sequence(nt), Value::SeqVal(vs)) => {
            match encode_elems_spec(*nt, vs@) {
                Some(e) => Some(varint_spec(vs@.len()) + e),
                None => None,
            }
        },
        (OwnedDataModelType::Tuple(tys), Value::TupleVal(vs)) => encode_list_spec(tys@, vs@),
        (OwnedDataModelType::TupleStruct(tys), Value::TupleStructVal(vs)) => encode_list_spec(
            tys@,
            vs@,
        ),
        (OwnedDataModelType::Mapping { key, val }, Value::MapVal(ps)) => {
            match encode_pairs_spec(*key, *val, ps@) {
                Some(e) => Some(varint_spec(ps@.len()) + e),
                None => None,
            }
        },
        (OwnedDataModelType::Struct(fields), Value::StructVal(vals)) => encode_fields_spec(
            fields@,
            vals@,
        ),
        (OwnedDataModelType::Enum(vars), Value::EnumVal(name, payload)) => {
            let idx = variant_index(vars@, name@);
            if idx < 0 {
                None
            } else {
                match encode_variant_spec(vars@[idx].ty, *payload) {
                    Some(e) => Some(varint_spec(idx as nat) + e),
                    None => None,
                }
            }
        },
        _ => None,
    }
}

/// The payload of an enum value against its variant's kind.
pub open spec fn encode_variant_spec(kind: OwnedDataModelVariant, payload: Value) -> Option<
    Seq<u8>,
>
    decreases payload, 1nat,
{
    match (kind, payload) {
        (OwnedDataModelVariant::UnitVariant, Value::UnitVal) => Some(Seq::empty()),
        (OwnedDataModelVariant::NewtypeVariant(nt), p) => encode_spec(nt.ty, p),
        (OwnedDataModelVariant::TupleVariant(tys), Value::TupleVal(vs)) => encode_list_spec(
            tys@,
            vs@,
        ),
        (OwnedDataModelVariant::StructVariant(fs), Value::StructVal(vals)) => encode_fields_spec(
            fs@,
            vals@,
        ),
        _ => None,
    }
}

/// Elements of a sequence, all against one schema, concatenated.
pub open spec fn encode_elems_spec(t: OwnedNamedType, vs: Seq<Value>) -> Option<Seq<u8>>
    decreases vs, 0nat,
{
    if vs.len() == 0 {
        Some(Seq::empty())
    } else {
        match encode_spec(t.ty, vs[0]) {
            Some(e) => match encode_elems_spec(t, vs.skip(1)) {
                Some(rest) => Some(e + rest),
                None => None,
            },
            None => None,
        }
    }
}

/// Tuple parts, each against its own schema, concatenated; arity must
/// agree.
pub open spec fn encode_list_spec(tys: Seq<OwnedNamedType>, vs: Seq<Value>) -> Option<Seq<u8>>
    decreases vs, 0nat,
{
    if tys.len() != vs.len() {
        None
    } else if vs.len() == 0 {
        Some(Seq::empty())
    } else {
        match encode_spec(tys[0].ty, vs[0]) {
            Some(e) => match encode_list_spec(tys.skip(1), vs.skip(1)) {
                Some(rest) => Some(e + rest),
                None => None,
            },
            None => None,
        }
    }
}

/// Map entries: each key against the key schema, each value against
/// the value schema, in order.
pub open spec fn encode_pairs_spec(kt: OwnedNamedType, vt: OwnedNamedType, ps: Seq<(Value, Value)>)
    -> Option<Seq<u8>>
    decreases ps, 0nat,
{
    if ps.len() == 0 {
        Some(Seq::empty())
    } else {
        match encode_spec(kt.ty, ps[0].0) {
            Some(ek) => match encode_spec(vt.ty, ps[0].1) {
                Some(ev) => match encode_pairs_spec(kt, vt, ps.skip(1)) {
                    Some(rest) => Some(ek + ev + rest),
                    None => None,
                },
                None => None,
            },
            None => None,
        }
    }
}

/// Struct fields: names must agree positionally with the schema, each
/// value encoded against its field's schema.
pub open spec fn encode_fields_spec(fs: Seq<OwnedNamedValue>, vals: Seq<(String, Value)>) -> Option<
    Seq<u8>,
>
    decreases vals, 0nat,
{
    if fs.len() != vals.len() {
        None
    } else if vals.len() == 0 {
        Some(Seq::empty())
    } else if fs[0].name@ != vals[0].0@ {
        None
    } else {
        match encode_spec(fs[0].ty.ty, vals[0].1) {
            Some(e) => match encode_fields_spec(fs.skip(1), vals.skip(1)) {
                Some(rest) => Some(e + rest),
                None => None,
            },
            None => None,
        }
    }
}

/// Encode `v` against schema node `ty`, appending to `out`. Returns
/// `true` and appends exactly the spec's bytes when the shapes agree;
/// returns `false` (leaving `out` in an unspecified state, to be
/// discarded) when they do not.
pub fn encode_value(ty: &OwnedDataModelType, v: &Value, out: &mut Vec<u8>) -> (ok: bool)
    ensures
        ok == (encode_spec(*ty, *v) is Some),
        ok ==> final(out)@ == old(out)@ + encode_spec(*ty, *v).unwrap(),
    decreases *v, 0nat,
{
    let ghost out0 = out@;
    match (ty, v) {
        (OwnedDataModelType::Bool, Value::Bool(b)) => {
            out.push(if *b { 1 } else { 0 });
            proof { assert(out@ =~= out0 + encode_spec(*ty, *v).unwrap()); }
            true
        },
        (OwnedDataModelType::I8, Value::I8(n)) => {
            out.push(*n as u8);
            proof { assert(out@ =~= out0 + encode_spec(*ty, *v).unwrap()); }
            true
        },
        (OwnedDataModelType::U8, Value::U8(n)) => {
            out.push(*n);
            proof { assert(out@ =~= out0 + encode_spec(*ty, *v).unwrap()); }
            true
        },
        (OwnedDataModelType::I16, Value::I16(n)) => {
            varint_push_u128(out, zigzag_i64(*n as i64) as u128);
            true
        },
        (OwnedDataModelType::I32, Value::I32(n)) => {
            varint_push_u128(out, zigzag_i64(*n as i64) as u128);
            true
        },
        (OwnedDataModelType::I64, Value::I64(n)) => {
            varint_push_u128(out, zigzag_i64(*n) as u128);
            true
        },
        (OwnedDataModelType::Isize, Value::I64(n)) => {
            varint_push_u128(out, zigzag_i64(*n) as u128);
            true
        },
        (OwnedDataModelType::I128, Value::I128(n)) => {
            varint_push_u128(out, zigzag_i128(*n));
            true
        },
        (OwnedDataModelType::U16, Value::U16(n)) => {
            varint_push_u128(out, *n as u128);
            true
        },
        (OwnedDataModelType::U32, Value::U32(n)) => {
            varint_push_u128(out, *n as u128);
            true
        },
        (OwnedDataModelType::U64, Value::U64(n)) => {
            varint_push_u128(out, *n as u128);
            true
        },
        (OwnedDataModelType::Usize, Value::U64(n)) => {
            varint_push_u128(out, *n as u128);
            true
        },
        (OwnedDataModelType::U128, Value::U128(n)) => {
            varint_push_u128(out, *n);
            true
        },
        (OwnedDataModelType::F32, Value::F32Bits(bits)) => {
            proof {
                crate::header::lemma_pow256_values();
            }
            crate::header::push_le(out, *bits as u64, 4);
            true
        },
        (OwnedDataModelType::F64, Value::F64Bits(bits)) => {
            proof {
                crate::header::lemma_pow256_values();
            }
            crate::header::push_le(out, *bits, 8);
            true
        },
        (OwnedDataModelType::Char, Value::Ch(c)) => {
            let utf = char_utf8(*c);
            varint_push_u128(out, utf.len() as u128);
            out.extend_from_slice(utf.as_slice());
            proof { assert(out@ =~= out0 + encode_spec(*ty, *v).unwrap()); }
            true
        },
        (OwnedDataModelType::String, Value::Text(s)) => {
            let utf = s.as_str().as_bytes_vec();
            varint_push_u128(out, utf.len() as u128);
            out.extend_from_slice(utf.as_slice());
            proof { assert(out@ =~= out0 + encode_spec(*ty, *v).unwrap()); }
            true
        },
        (OwnedDataModelType::ByteArray, Value::Bytes(b)) => {
            varint_push_u128(out, b.len() as u128);
            out.extend_from_slice(b.as_slice());
            proof { assert(out@ =~= out0 + encode_spec(*ty, *v).unwrap()); }
            true
        },
        (OwnedDataModelType::Option(nt), Value::Opt(o)) => {
            match o {
                None => {
                    out.push(0);
                    proof { assert(out@ =~= out0 + encode_spec(*ty, *v).unwrap()); }
                    true
                },
                Some(inner) => {
                    out.push(1);
                    let ok = encode_value(&nt.ty, inner, out);
                    proof {
                        if ok {
                            assert(out@ =~= out0 + (seq![1u8] + encode_spec(nt.ty, **inner).unwrap()));
                        }
                    }
                    ok
                },
            }
        },
        (OwnedDataModelType::Unit, Value::UnitVal) => {
            proof { assert(out@ =~= out0 + Seq::<u8>::empty()); }
            true
        },
        (OwnedDataModelType::UnitStruct, Value::UnitStructVal) => {
            proof { assert(out@ =~= out0 + Seq::<u8>::empty()); }
            true
        },
        (OwnedDataModelType::NewtypeStruct(nt), Value::NewtypeVal(inner)) => encode_value(
            &nt.ty,
            inner,
            out,
        ),
        (OwnedDataModelType::Sequence(nt), Value::SeqVal(vs)) => {
            varint_push_u128(out, vs.len() as u128);
            let ok = encode_elems(nt, vs, out);
            proof {
                if ok {
                    assert(out@ =~= out0 + (varint_spec(vs@.len()) + encode_elems_spec(
                        **nt,
                        vs@,
                    ).unwrap()));
                }
            }
            ok
        },
        (OwnedDataModelType::Tuple(tys), Value::TupleVal(vs)) => encode_list(tys, vs, out),
        (OwnedDataModelType::TupleStruct(tys), Value::TupleStructVal(vs)) => encode_list(
            tys,
            vs,
            out,
        ),
        (OwnedDataModelType::Mapping { key, val }, Value::MapVal(ps)) => {
            varint_push_u128(out, ps.len() as u128);
            let ok = encode_pairs(key, val, ps, out);
            proof {
                if ok {
                    assert(out@ =~= out0 + (varint_spec(ps@.len()) + encode_pairs_spec(
                        **key,
                        **val,
                        ps@,
                    ).unwrap()));
                }
            }
            ok
        },
        (OwnedDataModelType::Struct(fields), Value::StructVal(vals)) => encode_fields(
            fields,
            vals,
            out,
        ),
        (OwnedDataModelType::Enum(vars), Value::EnumVal(name, payload)) => {
            let idx = match find_variant(vars, name) {
                Some(i) => i,
                None => {
                    return false;
                },
            };
            varint_push_u128(out, idx as u128);
            let ok = encode_variant(&vars[idx].ty, payload, out);
            proof {
                if ok {
                    assert(out@ =~= out0 + (varint_spec(idx as nat) + encode_variant_spec(
                        vars@[idx as int].ty,
                        **payload,
                    ).unwrap()));
                }
            }
            ok
        },
        _ => {
            proof {
                assert(encode_spec(*ty, *v) is None);
            }
            false
        },
    }
}

/// Encode an enum payload against its variant's kind.
fn encode_variant(kind: &OwnedDataModelVariant, payload: &Value, out: &mut Vec<u8>) -> (ok: bool)
    ensures
        ok == (encode_variant_spec(*kind, *payload) is Some),
        ok ==> final(out)@ == old(out)@ + encode_variant_spec(*kind, *payload).unwrap(),
    decreases *payload, 1nat,
{
    let ghost out0 = out@;
    match (kind, payload) {
        (OwnedDataModelVariant::UnitVariant, Value::UnitVal) => {
            proof {
                assert(out@ =~= out0 + Seq::<u8>::empty());
            }
            true
        },
        (OwnedDataModelVariant::NewtypeVariant(nt), p) => encode_value(&nt.ty, p, out),
        (OwnedDataModelVariant::TupleVariant(tys), Value::TupleVal(vs)) => encode_list(
            tys,
            vs,
            out,
        ),
        (OwnedDataModelVariant::StructVariant(fs), Value::StructVal(vals)) => encode_fields(
            fs,
            vals,
            out,
        ),
        _ => {
            proof {
                assert(encode_variant_spec(*kind, *payload) is None);
            }
            false
        },
    }
}

/// Encode the elements of a sequence, all against one schema.
fn encode_elems(t: &OwnedNamedType, vs: &Vec<Value>, out: &mut Vec<u8>) -> (ok: bool)
    ensures
        ok == (encode_elems_spec(*t, vs@) is Some),
        ok ==> final(out)@ == old(out)@ + encode_elems_spec(*t, vs@).unwrap(),
    decreases vs@, 2nat,
{
    let ghost out0 = out@;
    let mut i: usize = 0;
    let ghost mut done: Seq<u8> = Seq::empty();
    proof {
        assert(out@ =~= out0 + done);
        assert(vs@.skip(0) =~= vs@);
    }
    loop
        invariant
            i <= vs@.len(),
            out0 == old(out)@,
            out@ == out0 + done,
            encode_elems_spec(*t, vs@) == match encode_elems_spec(*t, vs@.skip(i as int)) {
                Some(rest) => Some(done + rest),
                None => None::<Seq<u8>>,
            },
        decreases vs@.len() - i,
    {
        if i == vs.len() {
            proof {
                assert(encode_elems_spec(*t, vs@.skip(i as int)) == Some(Seq::<u8>::empty()));
                assert(done + Seq::<u8>::empty() =~= done);
                assert(out@ =~= out0 + encode_elems_spec(*t, vs@).unwrap());
            }
            return true;
        }
        let ghost rem = vs@.skip(i as int);
        proof {
            assert(rem[0] == vs@[i as int]);
            assert(rem.skip(1) =~= vs@.skip(i + 1));
            assert(decreases_to!(vs@ => vs@[i as int]));
        }
        let ok = encode_value(&t.ty, &vs[i], out);
        if !ok {
            return false;
        }
        proof {
            let e = encode_spec(t.ty, vs@[i as int]).unwrap();
            assert forall|rest: Seq<u8>| true implies done + (e + rest) =~= (done + e) + rest by {}
            done = done + e;
        }
        i = i + 1;
    }
}

/// Encode map entries in order, keys and values each against their
/// schema.
fn encode_pairs(kt: &OwnedNamedType, vt: &OwnedNamedType, ps: &Vec<(Value, Value)>, out: &mut Vec<
    u8,
>) -> (ok: bool)
    ensures
        ok == (encode_pairs_spec(*kt, *vt, ps@) is Some),
        ok ==> final(out)@ == old(out)@ + encode_pairs_spec(*kt, *vt, ps@).unwrap(),
    decreases ps@, 2nat,
{
    let ghost out0 = out@;
    let mut i: usize = 0;
    let ghost mut done: Seq<u8> = Seq::empty();
    proof {
        assert(out@ =~= out0 + done);
        assert(ps@.skip(0) =~= ps@);
    }
    loop
        invariant
            i <= ps@.len(),
            out0 == old(out)@,
            out@ == out0 + done,
            encode_pairs_spec(*kt, *vt, ps@) == match encode_pairs_spec(
                *kt,
                *vt,
                ps@.skip(i as int),
            ) {
                Some(rest) => Some(done + rest),
                None => None::<Seq<u8>>,
            },
        decreases ps@.len() - i,
    {
        if i == ps.len() {
            proof {
                assert(encode_pairs_spec(*kt, *vt, ps@.skip(i as int)) == Some(
                    Seq::<u8>::empty(),
                ));
                assert(done + Seq::<u8>::empty() =~= done);
                assert(out@ =~= out0 + encode_pairs_spec(*kt, *vt, ps@).unwrap());
            }
            return true;
        }
        let ghost rem = ps@.skip(i as int);
        proof {
            assert(rem[0] == ps@[i as int]);
            assert(rem.skip(1) =~= ps@.skip(i + 1));
            assert(decreases_to!(ps@ => ps@[i as int]));
            assert(decreases_to!(ps@[i as int] => ps@[i as int].0));
            assert(decreases_to!(ps@[i as int] => ps@[i as int].1));
        }
        let ok = encode_value(&kt.ty, &ps[i].0, out);
        if !ok {
            return false;
        }
        let ok2 = encode_value(&vt.ty, &ps[i].1, out);
        if !ok2 {
            return false;
        }
        proof {
            let ek = encode_spec(kt.ty, ps@[i as int].0).unwrap();
            let ev = encode_spec(vt.ty, ps@[i as int].1).unwrap();
            assert(out@ =~= out0 + (done + (ek + ev)));
            assert forall|rest: Seq<u8>| true implies done + (ek + ev + rest) =~= (done + (ek
                + ev)) + rest by {}
            done = done + (ek + ev);
        }
        i = i + 1;
    }
}

/// Encode tuple parts in order; arity must agree.
fn encode_list(tys: &Vec<OwnedNamedType>, vs: &Vec<Value>, out: &mut Vec<u8>) -> (ok: bool)
    ensures
        ok == (encode_list_spec(tys@, vs@) is Some),
        ok ==> final(out)@ == old(out)@ + encode_list_spec(tys@, vs@).unwrap(),
    decreases vs@, 2nat,
{
    let ghost out0 = out@;
    if tys.len() != vs.len() {
        return false;
    }
    let mut i: usize = 0;
    let ghost mut done: Seq<u8> = Seq::empty();
    proof {
        assert(out@ =~= out0 + done);
        assert(tys@.skip(0) =~= tys@);
        assert(vs@.skip(0) =~= vs@);
    }
    loop
        invariant
            i <= vs@.len(),
            tys@.len() == vs@.len(),
            out0 == old(out)@,
            out@ == out0 + done,
            encode_list_spec(tys@, vs@) == match encode_list_spec(
                tys@.skip(i as int),
                vs@.skip(i as int),
            ) {
                Some(rest) => Some(done + rest),
                None => None::<Seq<u8>>,
            },
        decreases vs@.len() - i,
    {
        if i == vs.len() {
            proof {
                assert(encode_list_spec(tys@.skip(i as int), vs@.skip(i as int)) == Some(
                    Seq::<u8>::empty(),
                ));
                assert(done + Seq::<u8>::empty() =~= done);
                assert(out@ =~= out0 + encode_list_spec(tys@, vs@).unwrap());
            }
            return true;
        }
        let ghost remt = tys@.skip(i as int);
        let ghost remv = vs@.skip(i as int);
        proof {
            assert(remt[0] == tys@[i as int]);
            assert(remv[0] == vs@[i as int]);
            assert(remt.skip(1) =~= tys@.skip(i + 1));
            assert(remv.skip(1) =~= vs@.skip(i + 1));
        }
        proof {
            assert(decreases_to!(vs@ => vs@[i as int]));
        }
        let ok = encode_value(&tys[i].ty, &vs[i], out);
        if !ok {
            return false;
        }
        proof {
            let e = encode_spec(tys@[i as int].ty, vs@[i as int]).unwrap();
            assert forall|rest: Seq<u8>| true implies done + (e + rest) =~= (done + e) + rest by {}
            done = done + e;
        }
        i = i + 1;
    }
}

/// Encode struct fields in order; names must agree positionally.
fn encode_fields(fs: &Vec<OwnedNamedValue>, vals: &Vec<(String, Value)>, out: &mut Vec<u8>) -> (ok:
    bool)
    ensures
        ok == (encode_fields_spec(fs@, vals@) is Some),
        ok ==> final(out)@ == old(out)@ + encode_fields_spec(fs@, vals@).unwrap(),
    decreases vals@, 2nat,
{
    let ghost out0 = out@;
    if fs.len() != vals.len() {
        return false;
    }
    let mut i: usize = 0;
    let ghost mut done: Seq<u8> = Seq::empty();
    proof {
        assert(out@ =~= out0 + done);
        assert(fs@.skip(0) =~= fs@);
        assert(vals@.skip(0) =~= vals@);
    }
    loop
        invariant
            i <= vals@.len(),
            fs@.len() == vals@.len(),
            out0 == old(out)@,
            out@ == out0 + done,
            encode_fields_spec(fs@, vals@) == match encode_fields_spec(
                fs@.skip(i as int),
                vals@.skip(i as int),
            ) {
                Some(rest) => Some(done + rest),
                None => None::<Seq<u8>>,
            },
        decreases vals@.len() - i,
    {
        if i == vals.len() {
            proof {
                assert(encode_fields_spec(fs@.skip(i as int), vals@.skip(i as int)) == Some(
                    Seq::<u8>::empty(),
                ));
                assert(done + Seq::<u8>::empty() =~= done);
                assert(out@ =~= out0 + encode_fields_spec(fs@, vals@).unwrap());
            }
            return true;
        }
        let ghost remf = fs@.skip(i as int);
        let ghost remv = vals@.skip(i as int);
        proof {
            assert(remf[0] == fs@[i as int]);
            assert(remv[0] == vals@[i as int]);
            assert(remf.skip(1) =~= fs@.skip(i + 1));
            assert(remv.skip(1) =~= vals@.skip(i + 1));
        }
        if !fs[i].name.eq(&vals[i].0) {
            return false;
        }
        proof {
            assert(decreases_to!(vals@ => vals@[i as int]));
            assert(decreases_to!(vals@[i as int] => vals@[i as int].1));
        }
        let ok = encode_value(&fs[i].ty.ty, &vals[i].1, out);
        if !ok {
            return false;
        }
        proof {
            let e = encode_spec(fs@[i as int].ty.ty, vals@[i as int].1).unwrap();
            assert forall|rest: Seq<u8>| true implies done + (e + rest) =~= (done + e) + rest by {}
            done = done + e;
        }
        i = i + 1;
    }
}

/// The index of the first variant named `name`, if any.
fn find_variant(vars: &Vec<OwnedNamedVariant>, name: &String) -> (r: Option<usize>)
    ensures
        match r {
            Some(i) => i < vars@.len() && variant_index(vars@, name@) == i as int,
            None => variant_index(vars@, name@) < 0,
        },
{
    let mut i: usize = 0;
    while i < vars.len()
        invariant
            i <= vars@.len(),
            forall|j: int| 0 <= j < i ==> (#[trigger] vars@[j]).name@ != name@,
        decreases vars@.len() - i,
    {
        if vars[i].name.eq(name) {
            proof {
                lemma_variant_index_first(vars@, name@, i as int);
            }
            return Some(i);
        }
        i = i + 1;
    }
    proof {
        lemma_variant_index_none(vars@, name@);
    }
    None
}

proof fn lemma_variant_index_first(vars: Seq<OwnedNamedVariant>, name: Seq<char>, i: int)
    requires
        0 <= i < vars.len(),
        vars[i].name@ == name,
        forall|j: int| 0 <= j < i ==> (#[trigger] vars[j]).name@ != name,
    ensures
        variant_index(vars, name) == i,
    decreases i,
{
    if i > 0 {
        assert(vars.skip(1)[i - 1] == vars[i]);
        assert forall|j: int| 0 <= j < i - 1 implies (#[trigger] vars.skip(1)[j]).name@ != name by {
            assert(vars.skip(1)[j] == vars[j + 1]);
        }
        lemma_variant_index_first(vars.skip(1), name, i - 1);
    }
}

proof fn lemma_variant_index_none(vars: Seq<OwnedNamedVariant>, name: Seq<char>)
    requires
        forall|j: int| 0 <= j < vars.len() ==> (#[trigger] vars[j]).name@ != name,
    ensures
        variant_index(vars, name) < 0,
    decreases vars.len(),
{
    if vars.len() > 0 {
        assert forall|j: int| 0 <= j < vars.skip(1).len() implies (#[trigger] vars.skip(
            1,
        )[j]).name@ != name by {
            assert(vars.skip(1)[j] == vars[j + 1]);
        }
        lemma_variant_index_none(vars.skip(1), name);
    }
}

/// The node count of a schema, the codec's recursion measure.
pub open spec fn size_ty(ty: OwnedDataModelType) -> nat
    decreases ty,
{
    match ty {
        OwnedDataModelType::Option(nt) => 1 + size_named(*nt),
        OwnedDataModelType::NewtypeStruct(nt) => 1 + size_named(*nt),
        OwnedDataModelType::Sequence(nt) => 1 + size_named(*nt),
        OwnedDataModelType::Tuple(tys) => 1 + size_list(tys@),
        OwnedDataModelType::TupleStruct(tys) => 1 + size_list(tys@),
        OwnedDataModelType::Mapping { key, val } => 1 + size_named(*key) + size_named(*val),
        OwnedDataModelType::Struct(fs) => 1 + size_fields(fs@),
        OwnedDataModelType::Enum(vars) => 1 + size_variants(vars@),
        _ => 1,
    }
}

/// The node count of a named schema.
pub open spec fn size_named(t: OwnedNamedType) -> nat
    decreases t,
{
    1 + size_ty(t.ty)
}

/// The node count of a list of named schemas.
pub open spec fn size_list(tys: Seq<OwnedNamedType>) -> nat
    decreases tys,
{
    if tys.len() == 0 {
        1
    } else {
        size_named(tys[0]) + size_list(tys.skip(1))
    }
}

/// The node count of a list of named fields.
pub open spec fn size_fields(fs: Seq<OwnedNamedValue>) -> nat
    decreases fs,
{
    if fs.len() == 0 {
        1
    } else {
        1 + size_named(fs[0].ty) + size_fields(fs.skip(1))
    }
}

/// The node count of a list of variants.
pub open spec fn size_variants(vars: Seq<OwnedNamedVariant>) -> nat
    decreases vars,
{
    if vars.len() == 0 {
        1
    } else {
        size_variant(vars[0]) + size_variants(vars.skip(1))
    }
}

/// The node count of one variant.
pub open spec fn size_variant(v: OwnedNamedVariant) -> nat
    decreases v,
{
    1 + match v.ty {
        OwnedDataModelVariant::UnitVariant => 0,
        OwnedDataModelVariant::NewtypeVariant(nt) => size_named(*nt),
        OwnedDataModelVariant::TupleVariant(tys) => size_list(tys@),
        OwnedDataModelVariant::StructVariant(fs) => size_fields(fs@),
    }
}

proof fn lemma_size_list_elem(tys: Seq<OwnedNamedType>, i: int)
    requires
        0 <= i < tys.len(),
    ensures
        size_named(tys[i]) < size_list(tys),
    decreases i,
{
    if i == 0 {
        lemma_size_list_pos(tys.skip(1));
    } else {
        lemma_size_list_elem(tys.skip(1), i - 1);
        assert(tys.skip(1)[i - 1] == tys[i]);
    }
}

proof fn lemma_size_list_pos(tys: Seq<OwnedNamedType>)
    ensures
        size_list(tys) >= 1,
    decreases tys,
{
    if tys.len() > 0 {
        lemma_size_list_pos(tys.skip(1));
    }
}

proof fn lemma_size_fields_elem(fs: Seq<OwnedNamedValue>, i: int)
    requires
        0 <= i < fs.len(),
    ensures
        size_named(fs[i].ty) < size_fields(fs),
    decreases i,
{
    if i == 0 {
        lemma_size_fields_pos(fs.skip(1));
    } else {
        lemma_size_fields_elem(fs.skip(1), i - 1);
        assert(fs.skip(1)[i - 1] == fs[i]);
    }
}

proof fn lemma_size_fields_pos(fs: Seq<OwnedNamedValue>)
    ensures
        size_fields(fs) >= 1,
    decreases fs,
{
    if fs.len() > 0 {
        lemma_size_fields_pos(fs.skip(1));
    }
}

proof fn lemma_size_variants_elem(vars: Seq<OwnedNamedVariant>, i: int)
    requires
        0 <= i < vars.len(),
    ensures
        size_variant(vars[i]) < size_variants(vars) + 1,
        size_variant(vars[i]) <= size_variants(vars),
    decreases i,
{
    if i == 0 {
        lemma_size_variants_pos(vars.skip(1));
    } else {
        lemma_size_variants_elem(vars.skip(1), i - 1);
        assert(vars.skip(1)[i - 1] == vars[i]);
        lemma_size_variant_pos(vars[0]);
    }
}

proof fn lemma_size_variants_pos(vars: Seq<OwnedNamedVariant>)
    ensures
        size_variants(vars) >= 1,
    decreases vars,
{
    if vars.len() > 0 {
        lemma_size_variants_pos(vars.skip(1));
        lemma_size_variant_pos(vars[0]);
    }
}

proof fn lemma_size_variant_pos(v: OwnedNamedVariant)
    ensures
        size_variant(v) >= 1,
{
}

/// How bytes are unstuffed against a schema node: the decoded value and
/// the count of bytes consumed, or `None` when the bytes do not fit the
/// schema.
pub open spec fn decode_spec(ty: OwnedDataModelType, data: Seq<u8>) -> Option<(SpecValue, int)>
    decreases size_ty(ty), 0nat,
    via decode_spec_decreases
{
    match ty {
        OwnedDataModelType::Bool => if data.len() < 1 {
            None
        } else if data[0] == 0 {
            Some((SpecValue::Bool(false), 1))
        } else if data[0] == 1 {
            Some((SpecValue::Bool(true), 1))
        } else {
            None
        },
        OwnedDataModelType::I8 => if data.len() < 1 {
            None
        } else {
            Some((SpecValue::I8(data[0] as i8), 1))
        },
        OwnedDataModelType::U8 => if data.len() < 1 {
            None
        } else {
            Some((SpecValue::U8(data[0]), 1))
        },
        OwnedDataModelType::I16 => match varint_parse(data, 3, 0x03) {
            Some((v, c)) => Some((SpecValue::I16(unzigzag_spec(v) as i16), c)),
            None => None,
        },
        OwnedDataModelType::I32 => match varint_parse(data, 5, 0x0F) {
            Some((v, c)) => Some((SpecValue::I32(unzigzag_spec(v) as i32), c)),
            None => None,
        },
        OwnedDataModelType::I64 => match varint_parse(data, 10, 0x01) {
            Some((v, c)) => Some((SpecValue::I64(unzigzag_spec(v) as i64), c)),
            None => None,
        },
        OwnedDataModelType::Isize => match varint_parse(data, 10, 0x01) {
            Some((v, c)) => Some((SpecValue::I64(unzigzag_spec(v) as i64), c)),
            None => None,
        },
        OwnedDataModelType::I128 => match varint_parse(data, 19, 0x03) {
            Some((v, c)) => Some((SpecValue::I128(unzigzag_spec(v) as i128), c)),
            None => None,
        },
        OwnedDataModelType::U16 => match varint_parse(data, 3, 0x03) {
            Some((v, c)) => Some((SpecValue::U16(v as u16), c)),
            None => None,
        },
        OwnedDataModelType::U32 => match varint_parse(data, 5, 0x0F) {
            Some((v, c)) => Some((SpecValue::U32(v as u32), c)),
            None => None,
        },
        OwnedDataModelType::U64 => match varint_parse(data, 10, 0x01) {
            Some((v, c)) => Some((SpecValue::U64(v as u64), c)),
            None => None,
        },
        OwnedDataModelType::Usize => match varint_parse(data, 10, 0x01) {
            Some((v, c)) => Some((SpecValue::U64(v as u64), c)),
            None => None,
        },
        OwnedDataModelType::U128 => match varint_parse(data, 19, 0x03) {
            Some((v, c)) => Some((SpecValue::U128(v as u128), c)),
            None => None,
        },
        OwnedDataModelType::F32 => if data.len() < 4 {
            None
        } else {
            Some((SpecValue::F32Bits(from_le(data.take(4)) as u32), 4))
        },
        OwnedDataModelType::F64 => if data.len() < 8 {
            None
        } else {
            Some((SpecValue::F64Bits(from_le(data.take(8)) as u64), 8))
        },
        OwnedDataModelType::Char => match varint_parse(data, 10, 0x01) {
            Some((len, c)) => if data.len() < c + len {
                None
            } else {
                let bytes = data.subrange(c, c + len as int);
                if valid_utf8(bytes) && decode_utf8(bytes).len() == 1 {
                    Some((SpecValue::Ch(decode_utf8(bytes)[0]), c + len))
                } else {
                    None
                }
            },
            None => None,
        },
        OwnedDataModelType::String => match varint_parse(data, 10, 0x01) {
            Some((len, c)) => if data.len() < c + len {
                None
            } else {
                let bytes = data.subrange(c, c + len as int);
                if valid_utf8(bytes) {
                    Some((SpecValue::Text(decode_utf8(bytes)), c + len))
                } else {
                    None
                }
            },
            None => None,
        },
        OwnedDataModelType::ByteArray => match varint_parse(data, 10, 0x01) {
            Some((len, c)) => if data.len() < c + len {
                None
            } else {
                Some((SpecValue::Bytes(data.subrange(c, c + len as int)), c + len))
            },
            None => None,
        },
        OwnedDataModelType::Option(nt) => if data.len() < 1 {
            None
        } else if data[0] == 0 {
            Some((SpecValue::Opt(None), 1))
        } else if data[0] == 1 {
            match decode_spec(nt.ty, data.skip(1)) {
                Some((sv, c)) => Some((SpecValue::Opt(Some(Box::new(sv))), 1 + c)),
                None => None,
            }
        } else {
            None
        },
        OwnedDataModelType::Unit => Some((SpecValue::UnitVal, 0)),
        OwnedDataModelType::UnitStruct => Some((SpecValue::UnitStructVal, 0)),
        OwnedDataModelType::NewtypeStruct(nt) => match decode_spec(nt.ty, data) {
            Some((sv, c)) => Some((SpecValue::NewtypeVal(Box::new(sv)), c)),
            None => None,
        },
        OwnedDataModelType::Sequence(nt) => match varint_parse(data, 10, 0x01) {
            Some((n, c)) => match decode_elems_spec(*nt, n, data.skip(c)) {
                Some((elems, c2)) => Some((SpecValue::SeqVal(elems), c + c2)),
                None => None,
            },
            None => None,
        },
        OwnedDataModelType::Tuple(tys) => match decode_list_spec(tys@, data) {
            Some((parts, c)) => Some((SpecValue::TupleVal(parts), c)),
            None => None,
        },
        OwnedDataModelType::TupleStruct(tys) => match decode_list_spec(tys@, data) {
            Some((parts, c)) => Some((SpecValue::TupleStructVal(parts), c)),
            None => None,
        },
        OwnedDataModelType::Mapping { key, val } => match varint_parse(data, 10, 0x01) {
            Some((n, c)) => match decode_pairs_spec(*key, *val, n, data.skip(c)) {
                Some((pairs, c2)) => Some((SpecValue::MapVal(pairs), c + c2)),
                None => None,
            },
            None => None,
        },
        OwnedDataModelType::Struct(fs) => match decode_fields_spec(fs@, data) {
            Some((fields, c)) => Some((SpecValue::StructVal(fields), c)),
            None => None,
        },
        OwnedDataModelType::Enum(vars) => match varint_parse(data, 5, 0x0F) {
            Some((idx, c)) => if idx >= vars@.len() {
                None
            } else {
                let name = vars@[idx as int].name@;
                match vars@[idx as int].ty {
                    OwnedDataModelVariant::UnitVariant => Some(
                        (SpecValue::EnumVal(name, Box::new(SpecValue::UnitVal)), c),
                    ),
                    OwnedDataModelVariant::NewtypeVariant(nt) => match decode_spec(
                        nt.ty,
                        data.skip(c),
                    ) {
                        Some((sv, c2)) => Some(
                            (SpecValue::EnumVal(name, Box::new(sv)), c + c2),
                        ),
                        None => None,
                    },
                    OwnedDataModelVariant::TupleVariant(tys) => match decode_list_spec(
                        tys@,
                        data.skip(c),
                    ) {
                        Some((parts, c2)) => Some(
                            (
                                SpecValue::EnumVal(name, Box::new(SpecValue::TupleVal(parts))),
                                c + c2,
                            ),
                        ),
                        None => None,
                    },
                    OwnedDataModelVariant::StructVariant(fs) => match decode_fields_spec(
                        fs@,
                        data.skip(c),
                    ) {
                        Some((fields, c2)) => Some(
                            (
                                SpecValue::EnumVal(name, Box::new(SpecValue::StructVal(fields))),
                                c + c2,
                            ),
                        ),
                        None => None,
                    },
                }
            },
            None => None,
        },
        OwnedDataModelType::Schema => None,
    }
}

#[via_fn]
proof fn decode_spec_decreases(ty: OwnedDataModelType, data: Seq<u8>) {
    match ty {
        OwnedDataModelType::Tuple(tys) => {
            lemma_size_list_pos(tys@);
        },
        OwnedDataModelType::TupleStruct(tys) => {
            lemma_size_list_pos(tys@);
        },
        OwnedDataModelType::Struct(fs) => {
            lemma_size_fields_pos(fs@);
        },
        OwnedDataModelType::Enum(vars) => {
            match varint_parse(data, 5, 0x0F) {
                Some((idx, c)) => {
                    if idx < vars@.len() {
                        lemma_size_variants_elem(vars@, idx as int);
                    }
                },
                None => {},
            }
        },
        _ => {},
    }
}

/// `n` sequence elements, one after another.
pub open spec fn decode_elems_spec(t: OwnedNamedType, n: nat, data: Seq<u8>) -> Option<
    (Seq<SpecValue>, int),
>
    decreases size_named(t), n,
{
    if n == 0 {
        Some((Seq::empty(), 0))
    } else {
        match decode_spec(t.ty, data) {
            Some((sv, c)) => match decode_elems_spec(t, (n - 1) as nat, data.skip(c)) {
                Some((rest, c2)) => Some((seq![sv] + rest, c + c2)),
                None => None,
            },
            None => None,
        }
    }
}

/// Tuple parts, each against its own schema, one after another.
pub open spec fn decode_list_spec(tys: Seq<OwnedNamedType>, data: Seq<u8>) -> Option<
    (Seq<SpecValue>, int),
>
    decreases size_list(tys), 0nat,
    via decode_list_spec_decreases
{
    if tys.len() == 0 {
        Some((Seq::empty(), 0))
    } else {
        match decode_spec(tys[0].ty, data) {
            Some((sv, c)) => match decode_list_spec(tys.skip(1), data.skip(c)) {
                Some((rest, c2)) => Some((seq![sv] + rest, c + c2)),
                None => None,
            },
            None => None,
        }
    }
}

#[via_fn]
proof fn decode_list_spec_decreases(tys: Seq<OwnedNamedType>, data: Seq<u8>) {
    if tys.len() > 0 {
        lemma_size_list_elem(tys, 0);
        lemma_size_list_pos(tys.skip(1));
    }
}

/// Struct fields in schema order, named after the schema.
pub open spec fn decode_fields_spec(fs: Seq<OwnedNamedValue>, data: Seq<u8>) -> Option<
    (Seq<(Seq<char>, SpecValue)>, int),
>
    decreases size_fields(fs), 0nat,
    via decode_fields_spec_decreases
{
    if fs.len() == 0 {
        Some((Seq::empty(), 0))
    } else {
        match decode_spec(fs[0].ty.ty, data) {
            Some((sv, c)) => match decode_fields_spec(fs.skip(1), data.skip(c)) {
                Some((rest, c2)) => Some((seq![(fs[0].name@, sv)] + rest, c + c2)),
                None => None,
            },
            None => None,
        }
    }
}

#[via_fn]
proof fn decode_fields_spec_decreases(fs: Seq<OwnedNamedValue>, data: Seq<u8>) {
    if fs.len() > 0 {
        lemma_size_fields_elem(fs, 0);
        lemma_size_fields_pos(fs.skip(1));
    }
}

/// `n` map entries, keys and values alternating.
pub open spec fn decode_pairs_spec(kt: OwnedNamedType, vt: OwnedNamedType, n: nat, data: Seq<u8>)
    -> Option<(Seq<(SpecValue, SpecValue)>, int)>
    decreases size_named(kt) + size_named(vt), n,
{
    if n == 0 {
        Some((Seq::empty(), 0))
    } else {
        match decode_spec(kt.ty, data) {
            Some((k, c)) => match decode_spec(vt.ty, data.skip(c)) {
                Some((v, c2)) => match decode_pairs_spec(
                    kt,
                    vt,
                    (n - 1) as nat,
                    data.skip(c + c2),
                ) {
                    Some((rest, c3)) => Some((seq![(k, v)] + rest, c + c2 + c3)),
                    None => None,
                },
                None => None,
            },
            None => None,
        }
    }
}

/// Is this schema node one of the leaf kinds?
pub open spec fn is_prim(ty: OwnedDataModelType) -> bool {
    match ty {
        OwnedDataModelType::Bool | OwnedDataModelType::I8 | OwnedDataModelType::U8
            | OwnedDataModelType::I16 | OwnedDataModelType::I32 | OwnedDataModelType::I64
            | OwnedDataModelType::I128 | OwnedDataModelType::Isize | OwnedDataModelType::U16
            | OwnedDataModelType::U32 | OwnedDataModelType::U64 | OwnedDataModelType::U128
            | OwnedDataModelType::Usize | OwnedDataModelType::F32 | OwnedDataModelType::F64
            | OwnedDataModelType::Char | OwnedDataModelType::String
            | OwnedDataModelType::ByteArray => true,
        _ => false,
    }
}

/// Decode a leaf value.
#[verifier::rlimit(100)]
fn decode_prim(ty: &OwnedDataModelType, data: &Vec<u8>, pos: usize) -> (r: Option<(Value, usize)>)
    requires
        pos <= data.len(),
        is_prim(*ty),
    ensures
        match r {
            Some((v, used)) => pos + used <= data.len() && decode_spec(*ty, data@.skip(pos as int))
                == Some((v@, used as int)),
            None => decode_spec(*ty, data@.skip(pos as int)) is None,
        },
{
    let ghost rem = data@.skip(pos as int);
    proof {
        crate::varint::lemma_varint_widths_fit();
    }
    match ty {
        OwnedDataModelType::Bool => {
            if pos >= data.len() {
                return None;
            }
            proof {
                assert(rem[0] == data@[pos as int]);
            }
            let b = data[pos];
            if b == 0 {
                Some((Value::Bool(false), 1))
            } else if b == 1 {
                Some((Value::Bool(true), 1))
            } else {
                None
            }
        },
        OwnedDataModelType::I8 => {
            if pos >= data.len() {
                return None;
            }
            proof {
                assert(rem[0] == data@[pos as int]);
            }
            Some((Value::I8(data[pos] as i8), 1))
        },
        OwnedDataModelType::U8 => {
            if pos >= data.len() {
                return None;
            }
            proof {
                assert(rem[0] == data@[pos as int]);
            }
            Some((Value::U8(data[pos]), 1))
        },
        OwnedDataModelType::I16 => {
            match crate::varint::varint_take(data, pos, 3, 0x03) {
                Some((v, c)) => Some((Value::I16(crate::varint::unzigzag_i128(v) as i16), c)),
                None => None,
            }
        },
        OwnedDataModelType::I32 => {
            match crate::varint::varint_take(data, pos, 5, 0x0F) {
                Some((v, c)) => Some((Value::I32(crate::varint::unzigzag_i128(v) as i32), c)),
                None => None,
            }
        },
        OwnedDataModelType::I64 => {
            match crate::varint::varint_take(data, pos, 10, 0x01) {
                Some((v, c)) => Some((Value::I64(crate::varint::unzigzag_i128(v) as i64), c)),
                None => None,
            }
        },
        OwnedDataModelType::Isize => {
            match crate::varint::varint_take(data, pos, 10, 0x01) {
                Some((v, c)) => Some((Value::I64(crate::varint::unzigzag_i128(v) as i64), c)),
                None => None,
            }
        },
        OwnedDataModelType::I128 => {
            match crate::varint::varint_take(data, pos, 19, 0x03) {
                Some((v, c)) => Some((Value::I128(crate::varint::unzigzag_i128(v)), c)),
                None => None,
            }
        },
        OwnedDataModelType::U16 => {
            match crate::varint::varint_take(data, pos, 3, 0x03) {
                Some((v, c)) => Some((Value::U16(v as u16), c)),
                None => None,
            }
        },
        OwnedDataModelType::U32 => {
            match crate::varint::varint_take(data, pos, 5, 0x0F) {
                Some((v, c)) => Some((Value::U32(v as u32), c)),
                None => None,
            }
        },
        OwnedDataModelType::U64 => {
            match crate::varint::varint_take(data, pos, 10, 0x01) {
                Some((v, c)) => Some((Value::U64(v as u64), c)),
                None => None,
            }
        },
        OwnedDataModelType::Usize => {
            match crate::varint::varint_take(data, pos, 10, 0x01) {
                Some((v, c)) => Some((Value::U64(v as u64), c)),
                None => None,
            }
        },
        OwnedDataModelType::U128 => {
            match crate::varint::varint_take(data, pos, 19, 0x03) {
                Some((v, c)) => Some((Value::U128(v), c)),
                None => None,
            }
        },
        OwnedDataModelType::F32 => {
            if data.len() - pos < 4 {
                return None;
            }
            let bits = crate::header::read_le(data, pos, 4);
            proof {
                assert(data@.subrange(pos as int, pos + 4) =~= rem.take(4));
            }
            Some((Value::F32Bits(bits as u32), 4))
        },
        OwnedDataModelType::F64 => {
            if data.len() - pos < 8 {
                return None;
            }
            let bits = crate::header::read_le(data, pos, 8);
            proof {
                assert(data@.subrange(pos as int, pos + 8) =~= rem.take(8));
            }
            Some((Value::F64Bits(bits), 8))
        },
        OwnedDataModelType::Char => {
            let (len, c) = match crate::varint::varint_take(data, pos, 10, 0x01) {
                Some(p) => p,
                None => {
                    return None;
                },
            };
            if len > (data.len() - pos - c) as u128 {
                return None;
            }
            let len = len as usize;
            let bytes = copy_range(data, pos + c, pos + c + len);
            proof {
                assert(bytes@ =~= rem.subrange(c as int, c + len));
            }
            match string_from_utf8(bytes) {
                Ok(s) => {
                    proof {
                        vstd::utf8::encode_utf8_valid_utf8(s@);
                        vstd::utf8::encode_utf8_decode_utf8(s@);
                    }
                    if s.unicode_len() == 1 {
                        let ch = s.get_char(0);
                        Some((Value::Ch(ch), c + len))
                    } else {
                        None
                    }
                },
                Err(_) => None,
            }
        },
        OwnedDataModelType::String => {
            let (len, c) = match crate::varint::varint_take(data, pos, 10, 0x01) {
                Some(p) => p,
                None => {
                    return None;
                },
            };
            if len > (data.len() - pos - c) as u128 {
                return None;
            }
            let len = len as usize;
            let bytes = copy_range(data, pos + c, pos + c + len);
            proof {
                assert(bytes@ =~= rem.subrange(c as int, c + len));
            }
            match string_from_utf8(bytes) {
                Ok(s) => {
                    proof {
                        vstd::utf8::encode_utf8_valid_utf8(s@);
                        vstd::utf8::encode_utf8_decode_utf8(s@);
                    }
                    Some((Value::Text(s), c + len))
                },
                Err(_) => None,
            }
        },
        OwnedDataModelType::ByteArray => {
            let (len, c) = match crate::varint::varint_take(data, pos, 10, 0x01) {
                Some(p) => p,
                None => {
                    return None;
                },
            };
            if len > (data.len() - pos - c) as u128 {
                return None;
            }
            let len = len as usize;
            let bytes = copy_range(data, pos + c, pos + c + len);
            proof {
                assert(bytes@ =~= rem.subrange(c as int, c + len));
            }
            Some((Value::Bytes(bytes), c + len))
        },
        _ => {
            proof {
                assert(false);
            }
            None
        },
    }
}

/// Decode one value against schema node `ty` from `data` at `pos`:
/// the value and the count of bytes consumed.
#[verifier::rlimit(100)]
pub fn decode_value(ty: &OwnedDataModelType, data: &Vec<u8>, pos: usize) -> (r: Option<
    (Value, usize),
>)
    requires
        pos <= data.len(),
    ensures
        match r {
            Some((v, used)) => pos + used <= data.len() && decode_spec(*ty, data@.skip(pos as int))
                == Some((v@, used as int)),
            None => decode_spec(*ty, data@.skip(pos as int)) is None,
        },
    decreases size_ty(*ty), 0nat,
{
    let ghost rem = data@.skip(pos as int);
    proof {
        crate::varint::lemma_varint_widths_fit();
    }
    match ty {
        OwnedDataModelType::Bool
        | OwnedDataModelType::I8
        | OwnedDataModelType::U8
        | OwnedDataModelType::I16
        | OwnedDataModelType::I32
        | OwnedDataModelType::I64
        | OwnedDataModelType::I128
        | OwnedDataModelType::Isize
        | OwnedDataModelType::U16
        | OwnedDataModelType::U32
        | OwnedDataModelType::U64
        | OwnedDataModelType::U128
        | OwnedDataModelType::Usize
        | OwnedDataModelType::F32
        | OwnedDataModelType::F64
        | OwnedDataModelType::Char
        | OwnedDataModelType::String
        | OwnedDataModelType::ByteArray => decode_prim(ty, data, pos),
        OwnedDataModelType::Option(nt) => {
            if pos >= data.len() {
                return None;
            }
            proof {
                assert(rem[0] == data@[pos as int]);
            }
            let b = data[pos];
            if b == 0 {
                Some((Value::Opt(None), 1))
            } else if b == 1 {
                proof {
                    assert(rem.skip(1) =~= data@.skip(pos + 1));
                }
                match decode_value(&nt.ty, data, pos + 1) {
                    Some((v, c)) => {
                        proof {
                            assert((Value::Opt(Some(Box::new(v))))@->Opt_0 == Some(
                                Box::new(v@),
                            ));
                            assert((Value::Opt(Some(Box::new(v))))@ == SpecValue::Opt(
                                Some(Box::new(v@)),
                            ));
                        }
                        Some((Value::Opt(Some(Box::new(v))), 1 + c))
                    },
                    None => None,
                }
            } else {
                None
            }
        },
        OwnedDataModelType::Unit => Some((Value::UnitVal, 0)),
        OwnedDataModelType::UnitStruct => Some((Value::UnitStructVal, 0)),
        OwnedDataModelType::NewtypeStruct(nt) => {
            match decode_value(&nt.ty, data, pos) {
                Some((v, c)) => {
                    proof {
                        assert((Value::NewtypeVal(Box::new(v)))@->NewtypeVal_0 == Box::new(v@));
                        assert((Value::NewtypeVal(Box::new(v)))@ == SpecValue::NewtypeVal(
                            Box::new(v@),
                        ));
                    }
                    Some((Value::NewtypeVal(Box::new(v)), c))
                },
                None => None,
            }
        },
        OwnedDataModelType::Sequence(nt) => {
            let (n, c) = match crate::varint::varint_take(data, pos, 10, 0x01) {
                Some(p) => p,
                None => {
                    return None;
                },
            };
            proof {
                assert(rem.skip(c as int) =~= data@.skip(pos + c));
                crate::varint::lemma_varint_u64_value_bound(rem);
            }
            match decode_elems(nt, n as u64, data, pos + c) {
                Some((vs, c2)) => {
                    proof {
                        assert((Value::SeqVal(vs))@ == SpecValue::SeqVal(crate::value::view_list(
                            vs@,
                        )));
                        assert(decode_spec(*ty, rem) == Some(
                            ((Value::SeqVal(vs))@, c + c2 as int),
                        ));
                    }
                    Some((Value::SeqVal(vs), c + c2))
                },
                None => None,
            }
        },
        OwnedDataModelType::Tuple(tys) => {
            match decode_list(tys, data, pos) {
                Some((vs, c)) => {
                    proof {
                        assert(decode_spec(*ty, rem) == Some(((Value::TupleVal(vs))@, c as int)));
                    }
                    Some((Value::TupleVal(vs), c))
                },
                None => None,
            }
        },
        OwnedDataModelType::TupleStruct(tys) => {
            match decode_list(tys, data, pos) {
                Some((vs, c)) => {
                    proof {
                        assert(decode_spec(*ty, rem) == Some(
                            ((Value::TupleStructVal(vs))@, c as int),
                        ));
                    }
                    Some((Value::TupleStructVal(vs), c))
                },
                None => None,
            }
        },
        OwnedDataModelType::Mapping { key, val } => {
            let (n, c) = match crate::varint::varint_take(data, pos, 10, 0x01) {
                Some(p) => p,
                None => {
                    return None;
                },
            };
            proof {
                assert(rem.skip(c as int) =~= data@.skip(pos + c));
                crate::varint::lemma_varint_u64_value_bound(rem);
            }
            match decode_pairs(key, val, n as u64, data, pos + c) {
                Some((ps, c2)) => {
                    proof {
                        assert((Value::MapVal(ps))@ == SpecValue::MapVal(crate::value::view_pairs(
                            ps@,
                        )));
                        assert(decode_spec(*ty, rem) == Some(
                            ((Value::MapVal(ps))@, c + c2 as int),
                        ));
                    }
                    Some((Value::MapVal(ps), c + c2))
                },
                None => None,
            }
        },
        OwnedDataModelType::Struct(fs) => {
            match decode_fields(fs, data, pos) {
                Some((vals, c)) => {
                    proof {
                        assert(decode_spec(*ty, rem) == Some(((Value::StructVal(vals))@, c as int)));
                    }
                    Some((Value::StructVal(vals), c))
                },
                None => None,
            }
        },
        OwnedDataModelType::Enum(vars) => {
            let (idx128, c) = match crate::varint::varint_take(data, pos, 5, 0x0F) {
                Some(p) => p,
                None => {
                    return None;
                },
            };
            if idx128 >= vars.len() as u128 {
                return None;
            }
            let idx = idx128 as usize;
            let name = vars[idx].name.clone();
            proof {
                assert(rem.skip(c as int) =~= data@.skip(pos + c));
                lemma_size_variants_elem(vars@, idx as int);
            }
            match &vars[idx].ty {
                OwnedDataModelVariant::UnitVariant => {
                    proof {
                        assert(crate::varint::varint_parse(rem, 5, 0x0F) == Some(
                            (idx128 as nat, c as int),
                        ));
                        assert(idx128 < vars@.len());
                        assert(vars@[idx128 as int].ty is UnitVariant);
                        assert(name@ == vars@[idx128 as int].name@);
                        assert((Value::UnitVal)@ == SpecValue::UnitVal);
                        assert((Value::EnumVal(name, Box::new(Value::UnitVal)))@->EnumVal_1
                            == Box::new((Value::UnitVal)@));
                        assert((Value::EnumVal(name, Box::new(Value::UnitVal)))@
                            == SpecValue::EnumVal(name@, Box::new(SpecValue::UnitVal)));
                        assert(decode_spec(*ty, rem) == Some(
                            ((Value::EnumVal(name, Box::new(Value::UnitVal)))@, c as int),
                        ));
                    }
                    Some((Value::EnumVal(name, Box::new(Value::UnitVal)), c))
                },
                OwnedDataModelVariant::NewtypeVariant(nt) => {
                    match decode_value(&nt.ty, data, pos + c) {
                        Some((v, c2)) => {
                            proof {
                                assert((Value::EnumVal(name, Box::new(v)))@->EnumVal_1
                                    == Box::new(v@));
                                assert((Value::EnumVal(name, Box::new(v)))@
                                    == SpecValue::EnumVal(name@, Box::new(v@)));
                            }
                            Some((Value::EnumVal(name, Box::new(v)), c + c2))
                        },
                        None => None,
                    }
                },
                OwnedDataModelVariant::TupleVariant(tys) => {
                    match decode_list(tys, data, pos + c) {
                        Some((vs, c2)) => {
                            proof {
                                assert((Value::TupleVal(vs))@ == SpecValue::TupleVal(
                                    crate::value::view_list(vs@),
                                ));
                                assert((Value::EnumVal(name, Box::new(Value::TupleVal(vs))))@
                                    ->EnumVal_1 == Box::new((Value::TupleVal(vs))@));
                                assert((Value::EnumVal(name, Box::new(Value::TupleVal(vs))))@
                                    == SpecValue::EnumVal(
                                    name@,
                                    Box::new(SpecValue::TupleVal(crate::value::view_list(vs@))),
                                ));
                            }
                            Some((Value::EnumVal(name, Box::new(Value::TupleVal(vs))), c + c2))
                        },
                        None => None,
                    }
                },
                OwnedDataModelVariant::StructVariant(sfs) => {
                    match decode_fields(sfs, data, pos + c) {
                        Some((vals, c2)) => {
                            proof {
                                assert((Value::StructVal(vals))@ == SpecValue::StructVal(
                                    crate::value::view_fields(vals@),
                                ));
                                assert((Value::EnumVal(name, Box::new(Value::StructVal(vals))))@
                                    ->EnumVal_1 == Box::new((Value::StructVal(vals))@));
                                assert((Value::EnumVal(name, Box::new(Value::StructVal(vals))))@
                                    == SpecValue::EnumVal(
                                    name@,
                                    Box::new(SpecValue::StructVal(crate::value::view_fields(vals@))),
                                ));
                            }
                            Some((Value::EnumVal(name, Box::new(Value::StructVal(vals))), c + c2))
                        },
                        None => None,
                    }
                },
            }
        },
        OwnedDataModelType::Schema => None,
    }
}

/// Decode `n` sequence elements, one after another.
fn decode_elems(t: &OwnedNamedType, n: u64, data: &Vec<u8>, pos: usize) -> (r: Option<
    (Vec<Value>, usize),
>)
    requires
        pos <= data.len(),
    ensures
        match r {
            Some((vs, used)) => pos + used <= data.len() && decode_elems_spec(
                *t,
                n as nat,
                data@.skip(pos as int),
            ) == Some((crate::value::view_list(vs@), used as int)),
            None => decode_elems_spec(*t, n as nat, data@.skip(pos as int)) is None,
        },
    decreases size_named(*t), 0nat,
{
    let mut vs: Vec<Value> = Vec::new();
    let mut used: usize = 0;
    let mut i: u64 = 0;
    proof {
        assert(crate::value::view_list(vs@) =~= Seq::<SpecValue>::empty());
    }
    loop
        invariant
            i <= n,
            pos + used <= data.len(),
            decode_elems_spec(*t, n as nat, data@.skip(pos as int)) == match decode_elems_spec(
                *t,
                (n - i) as nat,
                data@.skip(pos + used),
            ) {
                Some((rest, c2)) => Some(
                    (crate::value::view_list(vs@) + rest, used + c2),
                ),
                None => None::<(Seq<SpecValue>, int)>,
            },
        decreases n - i,
    {
        if i == n {
            proof {
                assert(decode_elems_spec(*t, 0, data@.skip(pos + used)) == Some(
                    (Seq::<SpecValue>::empty(), 0int),
                ));
                assert(crate::value::view_list(vs@) + Seq::<SpecValue>::empty()
                    =~= crate::value::view_list(vs@));
            }
            return Some((vs, used));
        }
        let (v, c) = match decode_value(&t.ty, data, pos + used) {
            Some(p) => p,
            None => {
                return None;
            },
        };
        proof {
            assert(data@.skip(pos + used).skip(c as int) =~= data@.skip(pos + used + c));
            lemma_view_list_push(vs@, v);
        }
        vs.push(v);
        used = used + c;
        i = i + 1;
    }
}

/// Decode tuple parts, each against its own schema.
fn decode_list(tys: &Vec<OwnedNamedType>, data: &Vec<u8>, pos: usize) -> (r: Option<
    (Vec<Value>, usize),
>)
    requires
        pos <= data.len(),
    ensures
        match r {
            Some((vs, used)) => pos + used <= data.len() && decode_list_spec(
                tys@,
                data@.skip(pos as int),
            ) == Some((crate::value::view_list(vs@), used as int)),
            None => decode_list_spec(tys@, data@.skip(pos as int)) is None,
        },
    decreases size_list(tys@), 0nat,
{
    let mut vs: Vec<Value> = Vec::new();
    let mut used: usize = 0;
    let mut i: usize = 0;
    proof {
        assert(crate::value::view_list(vs@) =~= Seq::<SpecValue>::empty());
        assert(tys@.skip(0) =~= tys@);
    }
    loop
        invariant
            i <= tys@.len(),
            pos + used <= data.len(),
            decode_list_spec(tys@, data@.skip(pos as int)) == match decode_list_spec(
                tys@.skip(i as int),
                data@.skip(pos + used),
            ) {
                Some((rest, c2)) => Some(
                    (crate::value::view_list(vs@) + rest, used + c2),
                ),
                None => None::<(Seq<SpecValue>, int)>,
            },
        decreases tys@.len() - i,
    {
        if i == tys.len() {
            proof {
                assert(decode_list_spec(tys@.skip(i as int), data@.skip(pos + used)) == Some(
                    (Seq::<SpecValue>::empty(), 0int),
                ));
                assert(crate::value::view_list(vs@) + Seq::<SpecValue>::empty()
                    =~= crate::value::view_list(vs@));
            }
            return Some((vs, used));
        }
        let ghost remt = tys@.skip(i as int);
        proof {
            assert(remt[0] == tys@[i as int]);
            assert(remt.skip(1) =~= tys@.skip(i + 1));
            lemma_size_list_elem(tys@, i as int);
        }
        let (v, c) = match decode_value(&tys[i].ty, data, pos + used) {
            Some(p) => p,
            None => {
                return None;
            },
        };
        proof {
            assert(data@.skip(pos + used).skip(c as int) =~= data@.skip(pos + used + c));
            lemma_view_list_push(vs@, v);
        }
        vs.push(v);
        used = used + c;
        i = i + 1;
    }
}

/// Decode struct fields in schema order, named after the schema.
fn decode_fields(fs: &Vec<OwnedNamedValue>, data: &Vec<u8>, pos: usize) -> (r: Option<
    (Vec<(String, Value)>, usize),
>)
    requires
        pos <= data.len(),
    ensures
        match r {
            Some((vals, used)) => pos + used <= data.len() && decode_fields_spec(
                fs@,
                data@.skip(pos as int),
            ) == Some((crate::value::view_fields(vals@), used as int)),
            None => decode_fields_spec(fs@, data@.skip(pos as int)) is None,
        },
    decreases size_fields(fs@), 0nat,
{
    let mut vals: Vec<(String, Value)> = Vec::new();
    let mut used: usize = 0;
    let mut i: usize = 0;
    proof {
        assert(crate::value::view_fields(vals@) =~= Seq::<(Seq<char>, SpecValue)>::empty());
        assert(fs@.skip(0) =~= fs@);
    }
    loop
        invariant
            i <= fs@.len(),
            pos + used <= data.len(),
            decode_fields_spec(fs@, data@.skip(pos as int)) == match decode_fields_spec(
                fs@.skip(i as int),
                data@.skip(pos + used),
            ) {
                Some((rest, c2)) => Some(
                    (crate::value::view_fields(vals@) + rest, used + c2),
                ),
                None => None::<(Seq<(Seq<char>, SpecValue)>, int)>,
            },
        decreases fs@.len() - i,
    {
        if i == fs.len() {
            proof {
                assert(decode_fields_spec(fs@.skip(i as int), data@.skip(pos + used)) == Some(
                    (Seq::<(Seq<char>, SpecValue)>::empty(), 0int),
                ));
                assert(crate::value::view_fields(vals@) + Seq::<(Seq<char>, SpecValue)>::empty()
                    =~= crate::value::view_fields(vals@));
            }
            return Some((vals, used));
        }
        let ghost remf = fs@.skip(i as int);
        proof {
            assert(remf[0] == fs@[i as int]);
            assert(remf.skip(1) =~= fs@.skip(i + 1));
            lemma_size_fields_elem(fs@, i as int);
        }
        let (v, c) = match decode_value(&fs[i].ty.ty, data, pos + used) {
            Some(p) => p,
            None => {
                return None;
            },
        };
        let name = fs[i].name.clone();
        proof {
            assert(data@.skip(pos + used).skip(c as int) =~= data@.skip(pos + used + c));
            lemma_view_fields_push(vals@, name, v);
        }
        vals.push((name, v));
        used = used + c;
        i = i + 1;
    }
}

/// Decode `n` map entries, keys and values alternating.
fn decode_pairs(kt: &OwnedNamedType, vt: &OwnedNamedType, n: u64, data: &Vec<u8>, pos: usize) -> (r:
    Option<(Vec<(Value, Value)>, usize)>)
    requires
        pos <= data.len(),
    ensures
        match r {
            Some((ps, used)) => pos + used <= data.len() && decode_pairs_spec(
                *kt,
                *vt,
                n as nat,
                data@.skip(pos as int),
            ) == Some((crate::value::view_pairs(ps@), used as int)),
            None => decode_pairs_spec(*kt, *vt, n as nat, data@.skip(pos as int)) is None,
        },
    decreases size_named(*kt) + size_named(*vt), 0nat,
{
    let mut ps: Vec<(Value, Value)> = Vec::new();
    let mut used: usize = 0;
    let mut i: u64 = 0;
    proof {
        assert(crate::value::view_pairs(ps@) =~= Seq::<(SpecValue, SpecValue)>::empty());
    }
    loop
        invariant
            i <= n,
            pos + used <= data.len(),
            decode_pairs_spec(*kt, *vt, n as nat, data@.skip(pos as int)) == match decode_pairs_spec(
                *kt,
                *vt,
                (n - i) as nat,
                data@.skip(pos + used),
            ) {
                Some((rest, c3)) => Some(
                    (crate::value::view_pairs(ps@) + rest, used + c3),
                ),
                None => None::<(Seq<(SpecValue, SpecValue)>, int)>,
            },
        decreases n - i,
    {
        if i == n {
            proof {
                assert(decode_pairs_spec(*kt, *vt, 0, data@.skip(pos + used)) == Some(
                    (Seq::<(SpecValue, SpecValue)>::empty(), 0int),
                ));
                assert(crate::value::view_pairs(ps@) + Seq::<(SpecValue, SpecValue)>::empty()
                    =~= crate::value::view_pairs(ps@));
            }
            return Some((ps, used));
        }
        let (k, c) = match decode_value(&kt.ty, data, pos + used) {
            Some(p) => p,
            None => {
                return None;
            },
        };
        proof {
            assert(data@.skip(pos + used).skip(c as int) =~= data@.skip(pos + used + c));
        }
        let (v, c2) = match decode_value(&vt.ty, data, pos + used + c) {
            Some(p) => p,
            None => {
                return None;
            },
        };
        proof {
            assert(data@.skip(pos + used + c).skip(c2 as int) =~= data@.skip(pos + used + c + c2));
            assert(data@.skip(pos + used).skip(c + c2) =~= data@.skip(pos + used + c + c2));
            lemma_view_pairs_push(ps@, k, v);
        }
        ps.push((k, v));
        used = used + c + c2;
        i = i + 1;
    }
}

proof fn lemma_view_list_push(vs: Seq<Value>, v: Value)
    ensures
        crate::value::view_list(vs.push(v)) =~= crate::value::view_list(vs).push(v@),
    decreases vs,
{
    if vs.len() == 0 {
        assert(vs.push(v)[0] == v);
        assert(vs.push(v).skip(1) =~= Seq::<Value>::empty());
        assert(crate::value::view_list(vs.push(v)) == seq![v@] + crate::value::view_list(
            Seq::<Value>::empty(),
        ));
        assert(crate::value::view_list(vs) == Seq::<SpecValue>::empty());
    } else {
        assert(vs.push(v)[0] == vs[0]);
        assert(vs.push(v).skip(1) =~= vs.skip(1).push(v));
        lemma_view_list_push(vs.skip(1), v);
        assert(crate::value::view_list(vs.push(v)) == seq![vs[0]@] + crate::value::view_list(
            vs.skip(1).push(v),
        ));
        assert(crate::value::view_list(vs) == seq![vs[0]@] + crate::value::view_list(vs.skip(1)));
    }
}

proof fn lemma_view_fields_push(vals: Seq<(String, Value)>, name: String, v: Value)
    ensures
        crate::value::view_fields(vals.push((name, v))) =~= crate::value::view_fields(vals).push(
            (name@, v@),
        ),
    decreases vals,
{
    if vals.len() == 0 {
        assert(vals.push((name, v))[0] == (name, v));
        assert(vals.push((name, v)).skip(1) =~= Seq::<(String, Value)>::empty());
        assert(crate::value::view_fields(vals.push((name, v))) == seq![(name@, v@)]
            + crate::value::view_fields(Seq::<(String, Value)>::empty()));
        assert(crate::value::view_fields(vals) == Seq::<(Seq<char>, SpecValue)>::empty());
    } else {
        assert(vals.push((name, v))[0] == vals[0]);
        assert(vals.push((name, v)).skip(1) =~= vals.skip(1).push((name, v)));
        lemma_view_fields_push(vals.skip(1), name, v);
        assert(crate::value::view_fields(vals.push((name, v))) == seq![(vals[0].0@, vals[0].1@)]
            + crate::value::view_fields(vals.skip(1).push((name, v))));
        assert(crate::value::view_fields(vals) == seq![(vals[0].0@, vals[0].1@)]
            + crate::value::view_fields(vals.skip(1)));
    }
}

proof fn lemma_view_pairs_push(ps: Seq<(Value, Value)>, k: Value, v: Value)
    ensures
        crate::value::view_pairs(ps.push((k, v))) =~= crate::value::view_pairs(ps).push((k@, v@)),
    decreases ps,
{
    if ps.len() == 0 {
        assert(ps.push((k, v))[0] == (k, v));
        assert(ps.push((k, v)).skip(1) =~= Seq::<(Value, Value)>::empty());
        assert(crate::value::view_pairs(ps.push((k, v))) == seq![(k@, v@)]
            + crate::value::view_pairs(Seq::<(Value, Value)>::empty()));
        assert(crate::value::view_pairs(ps) == Seq::<(SpecValue, SpecValue)>::empty());
    } else {
        assert(ps.push((k, v))[0] == ps[0]);
        assert(ps.push((k, v)).skip(1) =~= ps.skip(1).push((k, v)));
        lemma_view_pairs_push(ps.skip(1), k, v);
        assert(crate::value::view_pairs(ps.push((k, v))) == seq![(ps[0].0@, ps[0].1@)]
            + crate::value::view_pairs(ps.skip(1).push((k, v))));
        assert(crate::value::view_pairs(ps) == seq![(ps[0].0@, ps[0].1@)]
            + crate::value::view_pairs(ps.skip(1)));
    }
}

/// The bytes between two positions.
fn copy_range(data: &Vec<u8>, from: usize, to: usize) -> (r: Vec<u8>)
    requires
        from <= to <= data.len(),
    ensures
        r@ == data@.subrange(from as int, to as int),
{
    let mut out: Vec<u8> = Vec::new();
    let mut i: usize = from;
    while i < to
        invariant
            from <= i <= to <= data@.len(),
            out@ =~= data@.subrange(from as int, i as int),
        decreases to - i,
    {
        let b = data[i];
        out.push(b);
        proof {
            assert(data@.subrange(from as int, i + 1) =~= data@.subrange(from as int, i as int)
                + seq![data@[i as int]]);
        }
        i = i + 1;
    }
    proof {
        assert(out@ =~= data@.subrange(from as int, to as int));
    }
    out
}

/// Relies on String::from_utf8: succeeds with the string of exactly
/// the given bytes when they are valid UTF-8, and fails otherwise.
#[verifier::external_body]
fn string_from_utf8(v: Vec<u8>) -> (r: Result<String, ()>)
    ensures
        match r {
            Ok(s) => encode_utf8(s@) == v@,
            Err(_) => !valid_utf8(v@),
        },
{
    match String::from_utf8(v) {
        Ok(s) => Ok(s),
        Err(_) => Err(()),
    }
}

/// Relies on char::encode_utf8: the UTF-8 image of one character,
/// which depends on the character alone and is what
/// vstd's `encode_utf8` describes.
#[verifier::external_body]
fn char_utf8(c: char) -> (r: Vec<u8>)
    ensures
        r@ == encode_utf8(seq![c]),
{
    let mut buf = [0u8; 4];
    let s = c.encode_utf8(&mut buf);
    s.as_bytes().to_vec()
}

/// Encode a dynamic value against a named schema, as one fresh byte
/// vector.
pub fn to_stdvec_dyn(schema: &OwnedNamedType, value: &Value) -> (r: Option<Vec<u8>>)
    ensures
        match r {
            Some(b) => encode_spec(schema.ty, *value) == Some(b@),
            None => encode_spec(schema.ty, *value) is None,
        },
{
    let mut out: Vec<u8> = Vec::new();
    let ghost empty = out@;
    if encode_value(&schema.ty, value, &mut out) {
        proof {
            assert(empty + encode_spec(schema.ty, *value).unwrap() =~= encode_spec(
                schema.ty,
                *value,
            ).unwrap());
        }
        Some(out)
    } else {
        None
    }
}

/// Decode a dynamic value against a named schema from the front of
/// `data`; trailing bytes are ignored.
pub fn from_slice_dyn(schema: &OwnedNamedType, data: &Vec<u8>) -> (r: Option<Value>)
    ensures
        match r {
            Some(v) => decode_spec(schema.ty, data@) matches Some((sv, c)) && sv == v@,
            None => decode_spec(schema.ty, data@) is None,
        },
{
    proof {
        assert(data@.skip(0) =~= data@);
    }
    match decode_value(&schema.ty, data, 0) {
        Some((v, _used)) => Some(v),
        None => None,
    }
}

/// The index of the first variant named `name`, or `-1`.
pub open spec fn variant_index(vars: Seq<OwnedNamedVariant>, name: Seq<char>) -> int
    decreases vars,
{
    if vars.len() == 0 {
        -1
    } else if vars[0].name@ == name {
        0
    } else {
        let rest = variant_index(vars.skip(1), name);
        if rest < 0 {
            -1
        } else {
            1 + rest
        }
    }
}

} // verus!
