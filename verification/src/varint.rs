//! Variable-length integers, as message bodies use them.
//!
//! Unsigned integers wider than one byte travel as a little-endian
//! base-128 varint: each byte carries seven payload bits, the high bit
//! says whether another byte follows. Signed integers are first zig-zag
//! mapped onto unsigned ones (`0, -1, 1, -2, ...` onto `0, 1, 2, 3, ...`)
//! and then sent the same way. A decoder for a given width accepts at
//! most the width's maximum byte count and bounds the final byte, so a
//! value never exceeds its type's range.

use vstd::prelude::*;
use vstd::arithmetic::power2::{pow2, lemma_pow2_adds, lemma_pow2_pos, lemma2_to64};

verus! {

/// The canonical varint image of `n`.
pub open spec fn varint_spec(n: nat) -> Seq<u8>
    decreases n,
{
    if n < 128 {
        seq![n as u8]
    } else {
        seq![(128 + (n % 128)) as u8] + varint_spec(n / 128)
    }
}

/// Parse a varint of at most `max` bytes whose final byte may not exceed
/// `last_max`; yields the value and the number of bytes consumed.
pub open spec fn varint_parse(data: Seq<u8>, max: int, last_max: u8) -> Option<(nat, int)>
    decreases max,
{
    if data.len() == 0 || max <= 0 {
        None
    } else {
        let b = data[0];
        if b < 128 {
            if max == 1 && b > last_max {
                None
            } else {
                Some((b as nat, 1))
            }
        } else {
            match varint_parse(data.skip(1), max - 1, last_max) {
                Some((v, c)) => Some(((b - 128) as nat + 128 * v, c + 1)),
                None => None,
            }
        }
    }
}

/// Most bytes a varint of each width may occupy.
pub const VARINT_MAX_U16: usize = 3;

pub const VARINT_MAX_U32: usize = 5;

pub const VARINT_MAX_U64: usize = 10;

pub const VARINT_MAX_U128: usize = 19;

/// The bound on the final byte of a maximum-length varint, per width.
pub const VARINT_LAST_U16: u8 = 0x03;

pub const VARINT_LAST_U32: u8 = 0x0F;

pub const VARINT_LAST_U64: u8 = 0x01;

pub const VARINT_LAST_U128: u8 = 0x03;

/// A parsed varint is bounded by its width configuration.
pub proof fn lemma_varint_parse_bound(data: Seq<u8>, max: int, last_max: u8)
    requires
        max >= 1,
    ensures
        match varint_parse(data, max, last_max) {
            Some((v, c)) => v < pow2((7 * (max - 1)) as nat) * (last_max + 1) && 1 <= c <= max
                && c <= data.len(),
            None => true,
        },
    decreases max,
{
    lemma_pow2_pos((7 * (max - 1)) as nat);
    if data.len() == 0 {
    } else {
        let b = data[0];
        if b < 128 {
            if max == 1 {
                assert(pow2(0) == 1) by {
                    lemma2_to64();
                }
            } else {
                assert(pow2((7 * (max - 1)) as nat) >= 128) by {
                    lemma_pow2_adds(7, (7 * (max - 2)) as nat);
                    lemma_pow2_pos((7 * (max - 2)) as nat);
                    assert(pow2(7) == 128) by {
                        lemma2_to64();
                    }
                }
                assert((b as nat) < pow2((7 * (max - 1)) as nat) * (last_max + 1)) by
                    (nonlinear_arith)
                    requires
                        b < 128,
                        pow2((7 * (max - 1)) as nat) >= 128,
                        last_max as int + 1 >= 1,
                ;
            }
        } else {
            if max == 1 {
            } else {
                lemma_varint_parse_bound(data.skip(1), max - 1, last_max);
                match varint_parse(data.skip(1), max - 1, last_max) {
                    Some((v2, c2)) => {
                        let p2 = pow2((7 * (max - 2)) as nat);
                        let p1 = pow2((7 * (max - 1)) as nat);
                        assert(p1 == 128 * p2) by {
                            lemma_pow2_adds(7, (7 * (max - 2)) as nat);
                            assert(pow2(7) == 128) by {
                                lemma2_to64();
                            }
                        }
                        assert((b - 128) as nat + 128 * v2 < p1 * (last_max + 1)) by
                            (nonlinear_arith)
                            requires
                                v2 < p2 * (last_max + 1),
                                p1 == 128 * p2,
                                b < 256,
                                b >= 128,
                                last_max as int + 1 >= 1,
                                p2 >= 1,
                        ;
                    },
                    None => {},
                }
            }
        }
    }
}

/// Take one varint of at most `max` bytes (final byte at most
/// `last_max`) from `data` starting at `pos`.
pub fn varint_take(data: &Vec<u8>, pos: usize, max: usize, last_max: u8) -> (r: Option<
    (u128, usize),
>)
    requires
        pos <= data.len(),
        1 <= max <= 19,
        pow2((7 * (max - 1)) as nat) * (last_max + 1) <= pow2(128),
    ensures
        match r {
            Some((v, used)) => varint_parse(data@.skip(pos as int), max as int, last_max)
                == Some((v as nat, used as int)) && pos + used <= data.len() && 1 <= used
                <= max,
            None => varint_parse(data@.skip(pos as int), max as int, last_max) is None,
        },
    decreases max,
{
    proof {
        lemma_pow2_128();
    }
    if pos >= data.len() {
        return None;
    }
    let b = data[pos];
    proof {
        assert(data@.skip(pos as int)[0] == data@[pos as int]);
    }
    if b < 128 {
        if max == 1 && b > last_max {
            return None;
        }
        Some((b as u128, 1))
    } else {
        if max == 1 {
            proof {
                assert(varint_parse(data@.skip(pos as int).skip(1), 0, last_max) is None);
            }
            return None;
        }
        proof {
            assert(data@.skip(pos as int).skip(1) =~= data@.skip(pos as int + 1));
            assert(pow2((7 * (max - 2)) as nat) * (last_max + 1) <= pow2(128)) by {
                lemma_pow2_adds(7, (7 * (max - 2)) as nat);
                assert(pow2(7) == 128) by {
                    lemma2_to64();
                }
                lemma_pow2_pos((7 * (max - 2)) as nat);
                assert(pow2((7 * (max - 2)) as nat) * (last_max + 1) <= pow2(
                    (7 * (max - 1)) as nat,
                ) * (last_max + 1)) by (nonlinear_arith)
                    requires
                        pow2((7 * (max - 1)) as nat) == 128 * pow2((7 * (max - 2)) as nat),
                        pow2((7 * (max - 2)) as nat) >= 1,
                        last_max as int + 1 >= 1,
                ;
            }
        }
        match varint_take(data, pos + 1, max - 1, last_max) {
            Some((v2, c2)) => {
                proof {
                    lemma_varint_parse_bound(data@.skip(pos as int + 1), max - 1, last_max);
                    let p2 = pow2((7 * (max - 2)) as nat);
                    assert(v2 < p2 * (last_max + 1));
                    assert(128 * (p2 * (last_max as nat + 1)) <= pow2(128)) by {
                        lemma_pow2_adds(7, (7 * (max - 2)) as nat);
                        assert(pow2(7) == 128) by {
                            lemma2_to64();
                        }
                        assert(pow2((7 * (max - 1)) as nat) == 128 * p2);
                        assert(128 * (p2 * (last_max as nat + 1)) == (128 * p2) * (last_max as nat
                            + 1)) by (nonlinear_arith);
                    }
                    assert(128 * (v2 as nat) + (b - 128) < pow2(128)) by (nonlinear_arith)
                        requires
                            v2 < p2 * (last_max + 1),
                            128 * (p2 * (last_max as nat + 1)) <= pow2(128),
                            b < 256,
                            b >= 128,
                    ;
                }
                let v: u128 = (b - 128) as u128 + 128 * v2;
                Some((v, c2 + 1))
            },
            None => None,
        }
    }
}

/// Every width configuration keeps its parsed values inside `u128`.
pub proof fn lemma_varint_widths_fit()
    ensures
        pow2((7 * (VARINT_MAX_U16 - 1)) as nat) * (VARINT_LAST_U16 + 1) <= pow2(128),
        pow2((7 * (VARINT_MAX_U32 - 1)) as nat) * (VARINT_LAST_U32 + 1) <= pow2(128),
        pow2((7 * (VARINT_MAX_U64 - 1)) as nat) * (VARINT_LAST_U64 + 1) <= pow2(128),
        pow2((7 * (VARINT_MAX_U128 - 1)) as nat) * (VARINT_LAST_U128 + 1) <= pow2(128),
{
    lemma2_to64();
    lemma_pow2_adds(14, 2);
    lemma_pow2_adds(28, 4);
    lemma_pow2_adds(63, 1);
    lemma_pow2_adds(126, 2);
    lemma_pow2_adds(64, 64);
    lemma_pow2_adds(62, 64);
    lemma_pow2_pos(62);
    lemma_pow2_pos(64);
    assert(pow2(16) <= pow2(128)) by {
        lemma_pow2_adds(16, 112);
        lemma_pow2_pos(112);
        assert(pow2(16) * pow2(112) >= pow2(16) * 1) by (nonlinear_arith)
            requires
                pow2(112) >= 1,
                pow2(16) >= 0,
        ;
    }
    assert(pow2(32) <= pow2(128)) by {
        lemma_pow2_adds(32, 96);
        lemma_pow2_pos(96);
        assert(pow2(32) * pow2(96) >= pow2(32) * 1) by (nonlinear_arith)
            requires
                pow2(96) >= 1,
                pow2(32) >= 0,
        ;
    }
    assert(pow2(64) <= pow2(128)) by {
        assert(pow2(64) * pow2(64) >= pow2(64) * 1) by (nonlinear_arith)
            requires
                pow2(64) >= 1,
        ;
    }
    assert(pow2(14) * 4 == pow2(16));
    assert(pow2(28) * 16 == pow2(32));
    assert(pow2(63) * 2 == pow2(64));
    assert(pow2(126) * 4 == pow2(128));
}

/// A varint decoded at the 64-bit width fits in a u64.
pub proof fn lemma_varint_u64_value_bound(data: Seq<u8>)
    ensures
        match varint_parse(data, 10, 0x01) {
            Some((v, c)) => v < 0x10000000000000000,
            None => true,
        },
{
    lemma_varint_parse_bound(data, 10, 0x01);
    lemma_pow2_adds(63, 1);
    lemma2_to64();
    lemma_pow2_adds(32, 31);
    assert(pow2(63) == 0x8000000000000000) by {
        lemma_pow2_adds(32, 31);
        assert(pow2(32) == 0x100000000);
        assert(pow2(31) == 0x80000000);
    }
}

/// `pow2(128)` exceeds every `u128`.
pub proof fn lemma_pow2_128()
    ensures
        pow2(128) == 0x100000000000000000000000000000000,
{
    lemma2_to64();
    lemma_pow2_adds(64, 64);
    assert(pow2(64) == 0x10000000000000000);
}

/// Append the varint image of `n` to `out`.
pub fn varint_push_u128(out: &mut Vec<u8>, n: u128)
    ensures
        final(out)@ == old(out)@ + varint_spec(n as nat),
{
    let ghost mut doneg: Seq<u8> = Seq::empty();
    let mut cur: u128 = n;
    proof {
        assert(out@ =~= old(out)@ + doneg);
    }
    loop
        invariant
            out@ == old(out)@ + doneg,
            varint_spec(n as nat) == doneg + varint_spec(cur as nat),
        decreases cur,
    {
        if cur < 128 {
            out.push(cur as u8);
            proof {
                assert(varint_spec(cur as nat) == seq![cur as u8]);
                assert(doneg + seq![cur as u8] =~= doneg.push(cur as u8));
                assert(out@ =~= old(out)@ + (doneg + varint_spec(cur as nat)));
            }
            return ;
        } else {
            let byte: u8 = 128 + (cur % 128) as u8;
            out.push(byte);
            proof {
                assert(varint_spec(cur as nat) == seq![byte] + varint_spec((cur as nat) / 128));
                assert((cur as nat) / 128 == (cur / 128) as nat);
                assert(doneg + (seq![byte] + varint_spec((cur / 128) as nat)) =~= (doneg
                    + seq![byte]) + varint_spec((cur / 128) as nat));
                assert(out@ =~= old(out)@ + (doneg + seq![byte]));
                doneg = doneg + seq![byte];
            }
            cur = cur / 128;
        }
    }
}

/// Append the varint image of a 64-bit value.
pub fn varint_push_u64(out: &mut Vec<u8>, n: u64)
    ensures
        final(out)@ == old(out)@ + varint_spec(n as nat),
{
    varint_push_u128(out, n as u128);
}

/// Zig-zag image of a signed value: non-negative `n` becomes `2n`,
/// negative `n` becomes `-2n - 1`.
pub open spec fn zigzag_spec(n: int) -> nat {
    if n >= 0 {
        (2 * n) as nat
    } else {
        (-2 * n - 1) as nat
    }
}

/// Inverse of [`zigzag_spec`].
pub open spec fn unzigzag_spec(v: nat) -> int {
    if v % 2 == 0 {
        (v / 2) as int
    } else {
        -((v / 2) as int) - 1
    }
}

/// Zig-zag a 64-bit signed value.
pub fn zigzag_i64(n: i64) -> (r: u64)
    ensures
        r as nat == zigzag_spec(n as int),
{
    if n >= 0 {
        (n as u64) * 2
    } else {
        let m: i64 = -(n + 1);
        (m as u64) * 2 + 1
    }
}

/// Undo [`zigzag_i64`].
pub fn unzigzag_i64(v: u64) -> (r: i64)
    ensures
        r as int == unzigzag_spec(v as nat),
{
    if v % 2 == 0 {
        (v / 2) as i64
    } else {
        -((v / 2) as i64) - 1
    }
}

/// Zig-zag a 128-bit signed value.
pub fn zigzag_i128(n: i128) -> (r: u128)
    ensures
        r as nat == zigzag_spec(n as int),
{
    if n >= 0 {
        (n as u128) * 2
    } else {
        let m: i128 = -(n + 1);
        (m as u128) * 2 + 1
    }
}

/// Undo [`zigzag_i128`].
pub fn unzigzag_i128(v: u128) -> (r: i128)
    ensures
        r as int == unzigzag_spec(v as nat),
{
    if v % 2 == 0 {
        (v / 2) as i128
    } else {
        -((v / 2) as i128) - 1
    }
}

/// Zig-zag then undo is the identity.
pub proof fn lemma_zigzag_round_trip(n: int)
    ensures
        unzigzag_spec(zigzag_spec(n)) == n,
{
}

} // verus!
