//! Byte stuffing for self-delimited frames.
//!
//! A frame on the wire is `encode(payload)` followed by a single `0x00`
//! terminator. `encode` is consistent-overhead byte stuffing: the output
//! never contains `0x00`, so the terminator unambiguously ends the frame,
//! and `decode` restores the original payload exactly.
//!
//! The encoded form is a sequence of blocks. Each block starts with a code
//! byte `c` (`1..=255`) followed by `c - 1` payload bytes, none of them
//! zero. A block with `c < 255` stands for those bytes followed by one
//! zero, except for the final block, which adds no zero; a block with
//! `c == 255` stands for 254 bytes with no zero after them.

use vstd::prelude::*;

verus! {

/// Length of the leading run of non-zero bytes, capped at 254.
pub open spec fn run_len_spec(b: Seq<u8>) -> int {
    if leading_nonzero(b) > 254 {
        254
    } else {
        leading_nonzero(b)
    }
}

/// Number of leading non-zero bytes of `b`.
pub open spec fn leading_nonzero(b: Seq<u8>) -> int
    decreases b.len(),
{
    if b.len() == 0 || b[0] == 0 {
        0
    } else {
        1 + leading_nonzero(b.skip(1))
    }
}

pub proof fn lemma_leading_nonzero(b: Seq<u8>)
    ensures
        0 <= leading_nonzero(b) <= b.len(),
        forall|i: int| 0 <= i < leading_nonzero(b) ==> b[i] != 0,
        leading_nonzero(b) < b.len() ==> b[leading_nonzero(b)] == 0,
    decreases b.len(),
{
    if b.len() == 0 || b[0] == 0 {
    } else {
        lemma_leading_nonzero(b.skip(1));
        assert forall|i: int| 0 <= i < leading_nonzero(b) implies b[i] != 0 by {
            if i > 0 {
                assert(b.skip(1)[i - 1] != 0);
            }
        }
        if leading_nonzero(b) < b.len() {
            assert(b[leading_nonzero(b)] == b.skip(1)[leading_nonzero(b) - 1]);
        }
    }
}

/// The stuffed form of `b`: code-prefixed blocks with no zero bytes.
/// A block that ends exactly at the end of the input closes the frame,
/// whatever its length.
pub open spec fn cobs_encode_spec(b: Seq<u8>) -> Seq<u8>
    decreases b.len(),
    via cobs_encode_spec_decreases
{
    let r = run_len_spec(b);
    let block = seq![(r + 1) as u8] + b.take(r);
    if r == b.len() {
        block
    } else if r == 254 {
        block + cobs_encode_spec(b.skip(254))
    } else {
        block + cobs_encode_spec(b.skip(r + 1))
    }
}

#[via_fn]
proof fn cobs_encode_spec_decreases(b: Seq<u8>) {
    lemma_leading_nonzero(b);
}

/// Inverse of [`cobs_encode_spec`]: `None` on any malformed input.
pub open spec fn cobs_decode_spec(s: Seq<u8>) -> Option<Seq<u8>>
    decreases s.len(),
{
    if s.len() == 0 {
        None
    } else {
        let code = s[0] as int;
        if code == 0 {
            None
        } else if s.len() < code {
            None
        } else if exists|j: int| 1 <= j < code && s[j] == 0 {
            None
        } else {
            let data = s.subrange(1, code);
            let rest = s.skip(code);
            if rest.len() == 0 {
                Some(data)
            } else {
                match cobs_decode_spec(rest) {
                    Some(d) => Some(
                        data + (if code == 255 {
                            Seq::<u8>::empty()
                        } else {
                            seq![0u8]
                        }) + d,
                    ),
                    None => None,
                }
            }
        }
    }
}

/// The stuffed form is never empty.
pub proof fn lemma_encode_nonempty(b: Seq<u8>)
    ensures
        cobs_encode_spec(b).len() >= 1,
{
}

/// The stuffed form contains no zero byte.
pub proof fn lemma_encode_no_zero(b: Seq<u8>)
    ensures
        forall|i: int| 0 <= i < cobs_encode_spec(b).len() ==> cobs_encode_spec(b)[i] != 0,
    decreases b.len(),
{
    lemma_leading_nonzero(b);
    let r = run_len_spec(b);
    let block = seq![(r + 1) as u8] + b.take(r);
    let s = cobs_encode_spec(b);
    assert forall|i: int| 0 <= i < block.len() implies block[i] != 0 by {
        if i > 0 {
            assert(block[i] == b[i - 1]);
        }
    }
    if r == b.len() {
        assert(s == block);
    } else if r == 254 {
        lemma_encode_no_zero(b.skip(254));
        let tail = cobs_encode_spec(b.skip(254));
        assert(s == block + tail);
        assert forall|i: int| 0 <= i < s.len() implies s[i] != 0 by {
            if i >= block.len() {
                assert(s[i] == tail[i - block.len()]);
            }
        }
    } else {
        lemma_encode_no_zero(b.skip(r + 1));
        let tail = cobs_encode_spec(b.skip(r + 1));
        assert(s == block + tail);
        assert forall|i: int| 0 <= i < s.len() implies s[i] != 0 by {
            if i >= block.len() {
                assert(s[i] == tail[i - block.len()]);
            }
        }
    }
}

/// Unstuffing the stuffed form of any payload restores that payload.
pub proof fn lemma_cobs_round_trip(b: Seq<u8>)
    ensures
        cobs_decode_spec(cobs_encode_spec(b)) == Some(b),
    decreases b.len(),
{
    lemma_leading_nonzero(b);
    let r = run_len_spec(b);
    let block = seq![(r + 1) as u8] + b.take(r);
    let s = cobs_encode_spec(b);
    let code = r + 1;
    assert(s[0] == (r + 1) as u8);
    if r == b.len() {
        assert(s == block);
        assert(s.len() == code);
        assert forall|j: int| 1 <= j < code implies s[j] != 0 by {
            assert(s[j] == b[j - 1]);
        }
        assert(s.subrange(1, code) =~= b.take(r));
        assert(s.skip(code).len() == 0);
        assert(b.take(r) =~= b);
    } else if r == 254 {
        let tail = cobs_encode_spec(b.skip(254));
        lemma_cobs_round_trip(b.skip(254));
        lemma_encode_no_zero(b.skip(254));
        lemma_encode_nonempty(b.skip(254));
        assert(s == block + tail);
        assert(s.len() >= code);
        assert forall|j: int| 1 <= j < code implies s[j] != 0 by {
            assert(s[j] == b[j - 1]);
        }
        assert(s.subrange(1, code) =~= b.take(r));
        assert(s.skip(code) =~= tail);
        assert(cobs_decode_spec(s) == Some(b.take(254) + Seq::<u8>::empty() + b.skip(254)));
        assert(b.take(254) + Seq::<u8>::empty() + b.skip(254) =~= b);
    } else {
        let tail = cobs_encode_spec(b.skip(r + 1));
        lemma_cobs_round_trip(b.skip(r + 1));
        lemma_encode_no_zero(b.skip(r + 1));
        lemma_encode_nonempty(b.skip(r + 1));
        assert(s == block + tail);
        assert(s.len() >= code);
        assert forall|j: int| 1 <= j < code implies s[j] != 0 by {
            assert(s[j] == b[j - 1]);
        }
        assert(s.subrange(1, code) =~= b.take(r));
        assert(s.skip(code) =~= tail);
        assert(code < 255);
        assert(cobs_decode_spec(s) == Some(b.take(r) + seq![0u8] + b.skip(r + 1)));
        assert(b[r] == 0);
        assert(b.take(r) + seq![0u8] + b.skip(r + 1) =~= b);
    }
}

/// Stuff `data` so that the result contains no zero byte.
pub fn cobs_encode(data: &Vec<u8>) -> (out: Vec<u8>)
    requires
        data.len() <= usize::MAX - 255,
    ensures
        out@ == cobs_encode_spec(data@),
{
    let mut out: Vec<u8> = Vec::new();
    let mut i: usize = 0;
    proof {
        assert(data@.skip(0) =~= data@);
    }
    loop
        invariant
            i <= data.len(),
            data.len() <= usize::MAX - 255,
            cobs_encode_spec(data@) == out@ + cobs_encode_spec(data@.skip(i as int)),
        decreases data.len() - i,
    {
        let ghost rem = data@.skip(i as int);
        proof {
            lemma_leading_nonzero(rem);
        }
        let mut r: usize = 0;
        while i + r < data.len() && r < 254 && data[i + r] != 0
            invariant
                i <= data.len(),
                data.len() <= usize::MAX - 255,
                r <= 254,
                i + r <= data.len(),
                rem == data@.skip(i as int),
                forall|k: int| 0 <= k < r ==> rem[k] != 0,
            decreases data.len() - i - r,
        {
            r = r + 1;
        }
        proof {
            if r < 254 && i + r < data.len() {
                assert(rem[r as int] == data@[i + r]);
            }
            lemma_run_is_spec(rem, r as int);
        }
        let ghost out0 = out@;
        let ghost block = seq![(r + 1) as u8] + rem.take(r as int);
        out.push((r + 1) as u8);
        let mut j: usize = 0;
        while j < r
            invariant
                j <= r,
                r <= 254,
                i + r <= data.len(),
                rem == data@.skip(i as int),
                out@ == out0 + seq![(r + 1) as u8] + rem.take(j as int),
            decreases r - j,
        {
            out.push(data[i + j]);
            proof {
                assert(rem.take(j + 1) =~= rem.take(j as int) + seq![rem[j as int]]);
                assert(rem[j as int] == data@[i + j]);
            }
            j = j + 1;
        }
        proof {
            assert(out@ == out0 + block);
        }
        if i + r == data.len() {
            proof {
                assert(rem.len() == r);
                assert(cobs_encode_spec(rem) == block);
                assert(out@ =~= cobs_encode_spec(data@));
            }
            return out;
        } else if r == 254 {
            i = i + 254;
            proof {
                assert(data@.skip(i as int) =~= rem.skip(254));
                assert(cobs_encode_spec(rem) == block + cobs_encode_spec(rem.skip(254)));
                assert(cobs_encode_spec(data@) == out@ + cobs_encode_spec(data@.skip(i as int)));
            }
        } else {
            i = i + r + 1;
            proof {
                assert(data@.skip(i as int) =~= rem.skip(r + 1));
                assert(cobs_encode_spec(rem) == block + cobs_encode_spec(rem.skip(r + 1)));
                assert(cobs_encode_spec(data@) == out@ + cobs_encode_spec(data@.skip(i as int)));
            }
        }
    }
}

/// What decoding the remainder `rem` yields once `acc` has already been
/// produced: the final result, or `None` if the remainder is malformed.
pub open spec fn decode_cont(rem: Seq<u8>, acc: Seq<u8>) -> Option<Seq<u8>> {
    match cobs_decode_spec(rem) {
        Some(d) => Some(acc + d),
        None => None,
    }
}

/// Unstuff one frame (without its `0x00` terminator); `None` if malformed.
pub fn cobs_decode(frame: &Vec<u8>) -> (r: Option<Vec<u8>>)
    ensures
        match r {
            Some(v) => cobs_decode_spec(frame@) == Some(v@),
            None => cobs_decode_spec(frame@) is None,
        },
{
    if frame.len() == 0 {
        return None;
    }
    let mut out: Vec<u8> = Vec::new();
    let mut i: usize = 0;
    proof {
        assert(frame@.skip(0) =~= frame@);
    }
    while i < frame.len()
        invariant
            i <= frame.len(),
            frame.len() > 0,
            i < frame.len() ==> cobs_decode_spec(frame@) == decode_cont(
                frame@.skip(i as int),
                out@,
            ),
            i == frame.len() ==> cobs_decode_spec(frame@) == Some(out@),
        decreases frame.len() - i,
    {
        let ghost rem = frame@.skip(i as int);
        let code = frame[i];
        if code == 0 {
            proof {
                assert(rem[0] == 0);
            }
            return None;
        }
        let code_us = code as usize;
        if frame.len() - i < code_us {
            proof {
                assert(rem.len() < code as int);
            }
            return None;
        }
        let ghost out0 = out@;
        let mut j: usize = 1;
        while j < code_us
            invariant
                1 <= j <= code_us,
                i + code_us <= frame.len(),
                i < frame.len(),
                rem == frame@.skip(i as int),
                code_us == code as int,
                code != 0,
                rem.len() >= code as int,
                rem[0] == code,
                cobs_decode_spec(frame@) == decode_cont(rem, out0),
                out@ == out0 + rem.subrange(1, j as int),
                forall|k: int| 1 <= k < j ==> rem[k] != 0,
            decreases code_us - j,
        {
            let b = frame[i + j];
            if b == 0 {
                proof {
                    assert(rem[j as int] == 0);
                    assert(exists|k: int| 1 <= k < code as int && rem[k] == 0);
                }
                return None;
            }
            out.push(b);
            proof {
                assert(rem.subrange(1, j + 1) =~= rem.subrange(1, j as int) + seq![rem[j as int]]);
                assert(rem[j as int] == frame@[i + j]);
            }
            j = j + 1;
        }
        let ghost data = rem.subrange(1, code as int);
        proof {
            assert(out@ == out0 + data);
            assert(forall|k: int| 1 <= k < code as int ==> rem[k] != 0);
        }
        i = i + code_us;
        proof {
            assert(rem.skip(code as int) =~= frame@.skip(i as int));
        }
        if i < frame.len() {
            if code != 255 {
                out.push(0);
                proof {
                    assert(out@ =~= out0 + (data + seq![0u8]));
                }
            }
            proof {
                let rest = frame@.skip(i as int);
                assert(rest.len() > 0);
                let sep: Seq<u8> = if code == 255 {
                    Seq::<u8>::empty()
                } else {
                    seq![0u8]
                };
                assert(cobs_decode_spec(rem) == match cobs_decode_spec(rest) {
                    Some(d) => Some(data + sep + d),
                    None => None::<Seq<u8>>,
                });
                assert(out@ =~= out0 + (data + sep));
                assert forall|d: Seq<u8>| true implies out0 + (data + sep + d) =~= out@ + d by {}
                assert(decode_cont(rem, out0) == decode_cont(rest, out@));
            }
        } else {
            proof {
                assert(rem.skip(code as int).len() == 0);
                assert(cobs_decode_spec(rem) == Some(data));
                assert(cobs_decode_spec(frame@) == Some(out@));
            }
        }
    }
    Some(out)
}

proof fn lemma_run_is_spec(rem: Seq<u8>, r: int)
    requires
        0 <= r <= 254,
        r <= rem.len(),
        forall|k: int| 0 <= k < r ==> rem[k] != 0,
        r < 254 && r < rem.len() ==> rem[r] == 0,
    ensures
        r == run_len_spec(rem),
{
    if r < 254 {
        lemma_run_stops(rem, r);
    } else {
        lemma_nonzero_prefix_run(rem, r);
    }
}

proof fn lemma_nonzero_prefix_run(rem: Seq<u8>, r: int)
    requires
        0 <= r <= rem.len(),
        forall|k: int| 0 <= k < r ==> rem[k] != 0,
    ensures
        leading_nonzero(rem) >= r,
    decreases r,
{
    lemma_leading_nonzero(rem);
    if r > 0 {
        assert(rem[0] != 0);
        assert forall|k: int| 0 <= k < r - 1 implies rem.skip(1)[k] != 0 by {
            assert(rem.skip(1)[k] == rem[k + 1]);
        }
        lemma_nonzero_prefix_run(rem.skip(1), r - 1);
        assert(leading_nonzero(rem) == 1 + leading_nonzero(rem.skip(1)));
    }
}

proof fn lemma_run_stops(rem: Seq<u8>, r: int)
    requires
        0 <= r <= rem.len(),
        forall|k: int| 0 <= k < r ==> rem[k] != 0,
        r == rem.len() || rem[r] == 0,
    ensures
        leading_nonzero(rem) == r,
    decreases r,
{
    if r == 0 {
    } else {
        assert(rem[0] != 0);
        assert forall|k: int| 0 <= k < r - 1 implies rem.skip(1)[k] != 0 by {
            assert(rem.skip(1)[k] == rem[k + 1]);
        }
        if r < rem.len() {
            assert(rem.skip(1)[r - 1] == rem[r]);
        }
        lemma_run_stops(rem.skip(1), r - 1);
    }
}

} // verus!
