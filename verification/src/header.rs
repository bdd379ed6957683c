//! The wire header: a routing key and a sequence number.
//!
//! Every frame starts with a one-byte discriminant, then a little-endian
//! key of 1, 2, 4 or 8 bytes, then a little-endian sequence number of 1,
//! 2 or 4 bytes. The discriminant's two high bits give the key width,
//! the next two the sequence width, and its low four bits are a protocol
//! version that must be zero.
//!
//! Keys natively have 8 bytes; narrower forms fold adjacent bytes with
//! exclusive-or. Two keys of different widths match when the wider one,
//! folded down to the narrower width, equals it.

use vstd::prelude::*;

verus! {

/// A routing key, at one of the four wire widths, as a little-endian
/// value.
#[derive(Clone, Copy, Debug, PartialEq, Eq, Structural)]
pub enum VarKey {
    Key1(u8),
    Key2(u16),
    Key4(u32),
    Key8(u64),
}

/// A sequence number, at one of the three wire widths.
#[derive(Clone, Copy, Debug, PartialEq, Eq, Structural)]
pub enum VarSeq {
    Seq1(u8),
    Seq2(u16),
    Seq4(u32),
}

/// The header of every frame.
#[derive(Clone, Copy, Debug, PartialEq, Eq, Structural)]
pub struct VarHeader {
    pub key: VarKey,
    pub seq_no: VarSeq,
}

/// `n` little-endian bytes of `v`.
pub open spec fn le_bytes(v: nat, n: int) -> Seq<u8>
    decreases n,
{
    if n <= 0 {
        Seq::empty()
    } else {
        seq![(v % 256) as u8] + le_bytes(v / 256, n - 1)
    }
}

/// The value of a little-endian byte string.
pub open spec fn from_le(s: Seq<u8>) -> nat
    decreases s.len(),
{
    if s.len() == 0 {
        0
    } else {
        (s[0] + 256 * from_le(s.skip(1))) as nat
    }
}

/// `256^n`.
pub open spec fn pow256(n: int) -> nat
    decreases n,
{
    if n <= 0 {
        1
    } else {
        256 * pow256(n - 1)
    }
}

pub proof fn lemma_le_round_trip(v: nat, n: int)
    requires
        v < pow256(n),
        n >= 0,
    ensures
        le_bytes(v, n).len() == n,
        from_le(le_bytes(v, n)) == v,
    decreases n,
{
    if n > 0 {
        assert(v / 256 < pow256(n - 1)) by (nonlinear_arith)
            requires
                v < 256 * pow256(n - 1),
        ;
        lemma_le_round_trip(v / 256, n - 1);
        assert(le_bytes(v, n).skip(1) =~= le_bytes(v / 256, n - 1));
    }
}

pub proof fn lemma_from_le_bound(s: Seq<u8>)
    ensures
        from_le(s) < pow256(s.len() as int),
    decreases s.len(),
{
    if s.len() > 0 {
        lemma_from_le_bound(s.skip(1));
        assert(s[0] + 256 * from_le(s.skip(1)) < 256 * pow256(s.len() - 1)) by (nonlinear_arith)
            requires
                s[0] < 256,
                from_le(s.skip(1)) < pow256(s.len() - 1),
        ;
    }
}

/// The value of a little-endian string splits at any point.
pub proof fn lemma_from_le_split(s: Seq<u8>, k: int)
    requires
        0 <= k <= s.len(),
    ensures
        from_le(s) == from_le(s.take(k)) + pow256(k) * from_le(s.skip(k)),
    decreases k,
{
    if k == 0 {
        assert(s.take(0).len() == 0);
        assert(s.skip(0) =~= s);
    } else {
        assert(s.len() > 0);
        lemma_from_le_split(s.skip(1), k - 1);
        assert(s.take(k).skip(1) =~= s.skip(1).take(k - 1));
        assert(s.skip(1).skip(k - 1) =~= s.skip(k));
        assert(from_le(s) == s[0] + 256 * from_le(s.skip(1)));
        assert(from_le(s.take(k)) == s[0] + 256 * from_le(s.take(k).skip(1)));
        assert(pow256(k) == 256 * pow256(k - 1));
        assert(s[0] + 256 * (from_le(s.skip(1).take(k - 1)) + pow256(k - 1) * from_le(s.skip(k)))
            == s[0] + 256 * from_le(s.skip(1).take(k - 1)) + (256 * pow256(k - 1)) * from_le(
            s.skip(k),
        )) by (nonlinear_arith);
    }
}

/// The two exclusive-or folds that shrink keys.
pub open spec fn fold2(v: nat) -> u8 {
    ((v % 256) as u8) ^ ((v / 256 % 256) as u8)
}

/// Fold an 8-byte key to 4 bytes: adjacent bytes are combined.
pub open spec fn key8_to_key4(v: u64) -> u32 {
    (fold2(v as nat) as nat + 256 * (fold2(v as nat / 65536) as nat) + 65536 * (fold2(
        v as nat / 4294967296,
    ) as nat) + 16777216 * (fold2(v as nat / 281474976710656) as nat)) as u32
}

/// Fold a 4-byte key to 2 bytes.
pub open spec fn key4_to_key2(v: u32) -> u16 {
    (fold2(v as nat) as nat + 256 * (fold2(v as nat / 65536) as nat)) as u16
}

/// Fold a 2-byte key to 1 byte.
pub open spec fn key2_to_key1(v: u16) -> u8 {
    fold2(v as nat)
}

/// Shrink a key to the width of `kind`, never widening.
pub open spec fn key_shrunk(k: VarKey, width: int) -> VarKey {
    match k {
        VarKey::Key1(v) => VarKey::Key1(v),
        VarKey::Key2(v) => if width <= 1 {
            VarKey::Key1(key2_to_key1(v))
        } else {
            VarKey::Key2(v)
        },
        VarKey::Key4(v) => if width <= 1 {
            VarKey::Key1(key2_to_key1(key4_to_key2(v)))
        } else if width <= 2 {
            VarKey::Key2(key4_to_key2(v))
        } else {
            VarKey::Key4(v)
        },
        VarKey::Key8(v) => if width <= 1 {
            VarKey::Key1(key2_to_key1(key4_to_key2(key8_to_key4(v))))
        } else if width <= 2 {
            VarKey::Key2(key4_to_key2(key8_to_key4(v)))
        } else if width <= 4 {
            VarKey::Key4(key8_to_key4(v))
        } else {
            VarKey::Key8(v)
        },
    }
}

/// The wire width of a key.
pub open spec fn key_width(k: VarKey) -> int {
    match k {
        VarKey::Key1(_) => 1,
        VarKey::Key2(_) => 2,
        VarKey::Key4(_) => 4,
        VarKey::Key8(_) => 8,
    }
}

/// Keys match when both, folded to the narrower of their widths, agree.
pub open spec fn key_matches_spec(a: VarKey, b: VarKey) -> bool {
    let w = if key_width(a) <= key_width(b) {
        key_width(a)
    } else {
        key_width(b)
    };
    key_shrunk(a, w) == key_shrunk(b, w)
}

/// The numeric value of a sequence number, width set aside.
pub open spec fn seq_value(s: VarSeq) -> u32 {
    match s {
        VarSeq::Seq1(v) => v as u32,
        VarSeq::Seq2(v) => v as u32,
        VarSeq::Seq4(v) => v,
    }
}

/// Sequence numbers match on their numeric value alone.
pub open spec fn seq_matches_spec(a: VarSeq, b: VarSeq) -> bool {
    seq_value(a) == seq_value(b)
}

fn fold2_exec(v: u64) -> (r: u8)
    ensures
        r == fold2(v as nat),
{
    let lo = (v % 256) as u8;
    let hi = ((v / 256) % 256) as u8;
    lo ^ hi
}

/// Fold an 8-byte key to its 4-byte form.
pub fn key8_fold4(v: u64) -> (r: u32)
    ensures
        r == key8_to_key4(v),
{
    let b0 = fold2_exec(v);
    let b1 = fold2_exec(v / 65536);
    let b2 = fold2_exec(v / 4294967296);
    let b3 = fold2_exec(v / 281474976710656);
    (b0 as u32) + 256 * (b1 as u32) + 65536 * (b2 as u32) + 16777216 * (b3 as u32)
}

/// Fold a 4-byte key to its 2-byte form.
pub fn key4_fold2(v: u32) -> (r: u16)
    ensures
        r == key4_to_key2(v),
{
    let b0 = fold2_exec(v as u64);
    let b1 = fold2_exec((v / 65536) as u64);
    (b0 as u16) + 256 * (b1 as u16)
}

/// Fold a 2-byte key to its 1-byte form.
pub fn key2_fold1(v: u16) -> (r: u8)
    ensures
        r == key2_to_key1(v),
{
    fold2_exec(v as u64)
}

/// Shrink `k` to at most `width` bytes.
pub fn key_shrink(k: &VarKey, width: usize) -> (r: VarKey)
    ensures
        r == key_shrunk(*k, width as int),
{
    match k {
        VarKey::Key1(v) => VarKey::Key1(*v),
        VarKey::Key2(v) => {
            if width <= 1 {
                VarKey::Key1(key2_fold1(*v))
            } else {
                VarKey::Key2(*v)
            }
        },
        VarKey::Key4(v) => {
            if width <= 1 {
                VarKey::Key1(key2_fold1(key4_fold2(*v)))
            } else if width <= 2 {
                VarKey::Key2(key4_fold2(*v))
            } else {
                VarKey::Key4(*v)
            }
        },
        VarKey::Key8(v) => {
            if width <= 1 {
                VarKey::Key1(key2_fold1(key4_fold2(key8_fold4(*v))))
            } else if width <= 2 {
                VarKey::Key2(key4_fold2(key8_fold4(*v)))
            } else if width <= 4 {
                VarKey::Key4(key8_fold4(*v))
            } else {
                VarKey::Key8(*v)
            }
        },
    }
}

/// Do two keys route to the same place?
pub fn key_matches(a: &VarKey, b: &VarKey) -> (r: bool)
    ensures
        r == key_matches_spec(*a, *b),
{
    let wa = match a {
        VarKey::Key1(_) => 1usize,
        VarKey::Key2(_) => 2,
        VarKey::Key4(_) => 4,
        VarKey::Key8(_) => 8,
    };
    let wb = match b {
        VarKey::Key1(_) => 1usize,
        VarKey::Key2(_) => 2,
        VarKey::Key4(_) => 4,
        VarKey::Key8(_) => 8,
    };
    let w = if wa <= wb {
        wa
    } else {
        wb
    };
    let ka = key_shrink(a, w);
    let kb = key_shrink(b, w);
    ka == kb
}

/// Do two sequence numbers correlate?
pub fn seq_matches(a: &VarSeq, b: &VarSeq) -> (r: bool)
    ensures
        r == seq_matches_spec(*a, *b),
{
    let va = match a {
        VarSeq::Seq1(v) => *v as u32,
        VarSeq::Seq2(v) => *v as u32,
        VarSeq::Seq4(v) => *v,
    };
    let vb = match b {
        VarSeq::Seq1(v) => *v as u32,
        VarSeq::Seq2(v) => *v as u32,
        VarSeq::Seq4(v) => *v,
    };
    va == vb
}

/// Discriminant bits naming the key width.
pub open spec fn key_kind_bits(k: VarKey) -> u8 {
    match k {
        VarKey::Key1(_) => 0x00,
        VarKey::Key2(_) => 0x40,
        VarKey::Key4(_) => 0x80,
        VarKey::Key8(_) => 0xC0,
    }
}

/// Discriminant bits naming the sequence width.
pub open spec fn seq_kind_bits(s: VarSeq) -> u8 {
    match s {
        VarSeq::Seq1(_) => 0x00,
        VarSeq::Seq2(_) => 0x10,
        VarSeq::Seq4(_) => 0x20,
    }
}

/// The key's wire bytes.
pub open spec fn key_wire_bytes(k: VarKey) -> Seq<u8> {
    match k {
        VarKey::Key1(v) => le_bytes(v as nat, 1),
        VarKey::Key2(v) => le_bytes(v as nat, 2),
        VarKey::Key4(v) => le_bytes(v as nat, 4),
        VarKey::Key8(v) => le_bytes(v as nat, 8),
    }
}

/// The sequence number's wire bytes.
pub open spec fn seq_wire_bytes(s: VarSeq) -> Seq<u8> {
    match s {
        VarSeq::Seq1(v) => le_bytes(v as nat, 1),
        VarSeq::Seq2(v) => le_bytes(v as nat, 2),
        VarSeq::Seq4(v) => le_bytes(v as nat, 4),
    }
}

/// The full wire image of a header.
pub open spec fn header_bytes(h: VarHeader) -> Seq<u8> {
    seq![(key_kind_bits(h.key) + seq_kind_bits(h.seq_no)) as u8] + key_wire_bytes(h.key)
        + seq_wire_bytes(h.seq_no)
}

/// Parse a header from the front of `data`: the header and the bytes it
/// used, or `None` when malformed (bad version, bad width, too short).
pub open spec fn header_parse(data: Seq<u8>) -> Option<(VarHeader, int)> {
    if data.len() == 0 {
        None
    } else {
        let disc = data[0];
        if disc % 16 != 0 {
            None
        } else {
            let kk = disc / 64;
            let sk = (disc / 16) % 4;
            if sk == 3 {
                None
            } else {
                let klen: int = if kk == 0 {
                    1
                } else if kk == 1 {
                    2
                } else if kk == 2 {
                    4
                } else {
                    8
                };
                let slen: int = if sk == 0 {
                    1
                } else if sk == 1 {
                    2
                } else {
                    4
                };
                if data.len() < 1 + klen + slen {
                    None
                } else {
                    let kv = from_le(data.subrange(1, 1 + klen));
                    let sv = from_le(data.subrange(1 + klen, 1 + klen + slen));
                    let key = if kk == 0 {
                        VarKey::Key1(kv as u8)
                    } else if kk == 1 {
                        VarKey::Key2(kv as u16)
                    } else if kk == 2 {
                        VarKey::Key4(kv as u32)
                    } else {
                        VarKey::Key8(kv as u64)
                    };
                    let seq_no = if sk == 0 {
                        VarSeq::Seq1(sv as u8)
                    } else if sk == 1 {
                        VarSeq::Seq2(sv as u16)
                    } else {
                        VarSeq::Seq4(sv as u32)
                    };
                    Some((VarHeader { key, seq_no }, 1 + klen + slen))
                }
            }
        }
    }
}

/// Append `n` little-endian bytes of `v` to `out`.
pub fn push_le(out: &mut Vec<u8>, v: u64, n: usize)
    requires
        n <= 8,
        (v as nat) < pow256(n as int),
    ensures
        final(out)@ == old(out)@ + le_bytes(v as nat, n as int),
{
    let mut cur: u64 = v;
    let mut i: usize = 0;
    let ghost mut doneg: Seq<u8> = Seq::empty();
    proof {
        assert(out@ =~= old(out)@ + doneg);
    }
    while i < n
        invariant
            i <= n,
            out@ == old(out)@ + doneg,
            doneg + le_bytes(cur as nat, n - i) == le_bytes(v as nat, n as int),
        decreases n - i,
    {
        let b = (cur % 256) as u8;
        out.push(b);
        proof {
            assert(le_bytes(cur as nat, n - i) == seq![b] + le_bytes(cur as nat / 256, n - i - 1));
            assert(doneg + (seq![b] + le_bytes(cur as nat / 256, n - i - 1)) =~= (doneg + seq![b])
                + le_bytes(cur as nat / 256, n - i - 1));
            assert(out@ =~= old(out)@ + (doneg + seq![b]));
            doneg = doneg + seq![b];
        }
        cur = cur / 256;
        i = i + 1;
    }
    proof {
        assert(le_bytes(cur as nat, 0) =~= Seq::<u8>::empty());
        assert(doneg + Seq::<u8>::empty() =~= doneg);
    }
}

/// Read `n` little-endian bytes starting at `pos`.
pub fn read_le(data: &Vec<u8>, pos: usize, n: usize) -> (r: u64)
    requires
        n <= 8,
        pos + n <= data.len(),
    ensures
        r as nat == from_le(data@.subrange(pos as int, pos + n)),
{
    let mut acc: u64 = 0;
    let mut i: usize = n;
    proof {
        assert(data@.subrange(pos + n, pos + n).len() == 0);
    }
    while i > 0
        invariant
            i <= n,
            n <= 8,
            pos + n <= data.len(),
            acc as nat == from_le(data@.subrange(pos + i, pos + n)),
            (acc as nat) < pow256(n - i),
        decreases i,
    {
        let b = data[pos + i - 1];
        proof {
            let s = data@.subrange(pos + i - 1, pos + n);
            assert(s[0] == data@[pos + i - 1]);
            assert(s.skip(1) =~= data@.subrange(pos + i, pos + n));
            assert(pow256(n - i + 1) == 256 * pow256(n - i));
            lemma_pow256_values();
            assert(b + 256 * (acc as nat) < 256 * pow256(n - i)) by (nonlinear_arith)
                requires
                    b < 256,
                    (acc as nat) < pow256(n - i),
            ;
            assert(256 * pow256(n - i) <= pow256(8)) by {
                lemma_pow256_mono(n - i + 1, 8);
            }
        }
        acc = (b as u64) + 256 * acc;
        i = i - 1;
    }
    acc
}

/// The concrete powers the widths use.
pub proof fn lemma_pow256_values()
    ensures
        pow256(1) == 256,
        pow256(2) == 0x10000,
        pow256(4) == 0x100000000,
        pow256(8) == 0x10000000000000000,
{
    assert(pow256(0) == 1);
    assert(pow256(1) == 256);
    assert(pow256(2) == 0x10000);
    assert(pow256(3) == 0x1000000);
    assert(pow256(4) == 0x100000000);
    assert(pow256(5) == 0x10000000000);
    assert(pow256(6) == 0x1000000000000);
    assert(pow256(7) == 0x100000000000000);
    assert(pow256(8) == 0x10000000000000000);
}

proof fn lemma_pow256_mono(a: int, b: int)
    requires
        0 <= a <= b,
    ensures
        pow256(a) <= pow256(b),
    decreases b,
{
    if a < b {
        lemma_pow256_mono(a, b - 1);
        assert(pow256(b) == 256 * pow256(b - 1));
        assert(pow256(b - 1) <= 256 * pow256(b - 1)) by (nonlinear_arith)
            requires
                pow256(b - 1) >= 0,
        ;
    }
}

/// Write a header's wire image.
pub fn write_header(h: &VarHeader) -> (out: Vec<u8>)
    ensures
        out@ == header_bytes(*h),
{
    let mut out: Vec<u8> = Vec::new();
    let disc: u8 = match h.key {
        VarKey::Key1(_) => 0x00,
        VarKey::Key2(_) => 0x40,
        VarKey::Key4(_) => 0x80,
        VarKey::Key8(_) => 0xC0,
    } + match h.seq_no {
        VarSeq::Seq1(_) => 0x00,
        VarSeq::Seq2(_) => 0x10,
        VarSeq::Seq4(_) => 0x20,
    };
    proof {
        lemma_key_fits(h.key);
        lemma_seq_fits(h.seq_no);
    }
    out.push(disc);
    let ghost after_disc = out@;
    match h.key {
        VarKey::Key1(v) => push_le(&mut out, v as u64, 1),
        VarKey::Key2(v) => push_le(&mut out, v as u64, 2),
        VarKey::Key4(v) => push_le(&mut out, v as u64, 4),
        VarKey::Key8(v) => push_le(&mut out, v, 8),
    }
    let ghost after_key = out@;
    match h.seq_no {
        VarSeq::Seq1(v) => push_le(&mut out, v as u64, 1),
        VarSeq::Seq2(v) => push_le(&mut out, v as u64, 2),
        VarSeq::Seq4(v) => push_le(&mut out, v as u64, 4),
    }
    proof {
        assert(after_disc =~= seq![disc]);
        assert(out@ =~= (seq![disc] + key_wire_bytes(h.key)) + seq_wire_bytes(h.seq_no));
        assert(out@ =~= header_bytes(*h));
    }
    out
}

proof fn lemma_key_fits(k: VarKey)
    ensures
        match k {
            VarKey::Key1(v) => (v as nat) < pow256(1),
            VarKey::Key2(v) => (v as nat) < pow256(2),
            VarKey::Key4(v) => (v as nat) < pow256(4),
            VarKey::Key8(v) => (v as nat) < pow256(8),
        },
{
    lemma_pow256_values();
}

proof fn lemma_seq_fits(s: VarSeq)
    ensures
        match s {
            VarSeq::Seq1(v) => (v as nat) < pow256(1),
            VarSeq::Seq2(v) => (v as nat) < pow256(2),
            VarSeq::Seq4(v) => (v as nat) < pow256(4),
        },
{
    lemma_pow256_values();
}

/// Take a header from the front of `frame`.
pub fn take_header(frame: &Vec<u8>) -> (r: Option<(VarHeader, usize)>)
    ensures
        match r {
            Some((h, used)) => header_parse(frame@) == Some((h, used as int)) && used
                <= frame.len(),
            None => header_parse(frame@) is None,
        },
{
    if frame.len() == 0 {
        return None;
    }
    let disc = frame[0];
    if disc % 16 != 0 {
        return None;
    }
    let kk = disc / 64;
    let sk = (disc / 16) % 4;
    if sk == 3 {
        return None;
    }
    let klen: usize = if kk == 0 {
        1
    } else if kk == 1 {
        2
    } else if kk == 2 {
        4
    } else {
        8
    };
    let slen: usize = if sk == 0 {
        1
    } else if sk == 1 {
        2
    } else {
        4
    };
    if frame.len() < 1 + klen + slen {
        return None;
    }
    let kv = read_le(frame, 1, klen);
    let sv = read_le(frame, 1 + klen, slen);
    proof {
        lemma_from_le_bound(frame@.subrange(1, 1 + klen as int));
        lemma_from_le_bound(frame@.subrange(1 + klen as int, 1 + klen as int + slen as int));
        lemma_pow256_values();
        lemma_pow256_mono(klen as int, 8);
        lemma_pow256_mono(slen as int, 4);
    }
    let key = if kk == 0 {
        VarKey::Key1(kv as u8)
    } else if kk == 1 {
        VarKey::Key2(kv as u16)
    } else if kk == 2 {
        VarKey::Key4(kv as u32)
    } else {
        VarKey::Key8(kv)
    };
    let seq_no = if sk == 0 {
        VarSeq::Seq1(sv as u8)
    } else if sk == 1 {
        VarSeq::Seq2(sv as u16)
    } else {
        VarSeq::Seq4(sv as u32)
    };
    Some((VarHeader { key, seq_no }, 1 + klen + slen))
}

/// Parsing a written header restores it and consumes exactly its bytes.
pub proof fn lemma_header_round_trip(h: VarHeader, rest: Seq<u8>)
    ensures
        header_parse(header_bytes(h) + rest) == Some(
            (h, header_bytes(h).len() as int),
        ),
{
    let hb = header_bytes(h);
    let data = hb + rest;
    let disc = (key_kind_bits(h.key) + seq_kind_bits(h.seq_no)) as u8;
    assert(data[0] == disc);
    lemma_key_fits(h.key);
    lemma_seq_fits(h.seq_no);
    let klen = key_width(h.key);
    let slen: int = match h.seq_no {
        VarSeq::Seq1(_) => 1,
        VarSeq::Seq2(_) => 2,
        VarSeq::Seq4(_) => 4,
    };
    let kv: nat = match h.key {
        VarKey::Key1(v) => v as nat,
        VarKey::Key2(v) => v as nat,
        VarKey::Key4(v) => v as nat,
        VarKey::Key8(v) => v as nat,
    };
    let sv: nat = match h.seq_no {
        VarSeq::Seq1(v) => v as nat,
        VarSeq::Seq2(v) => v as nat,
        VarSeq::Seq4(v) => v as nat,
    };
    lemma_le_round_trip(kv, klen);
    lemma_le_round_trip(sv, slen);
    assert(data.subrange(1, 1 + klen) =~= le_bytes(kv, klen));
    assert(data.subrange(1 + klen, 1 + klen + slen) =~= le_bytes(sv, slen));
    assert(hb.len() == 1 + klen + slen);
}

} // verus!
