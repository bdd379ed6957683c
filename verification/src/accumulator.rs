//! Streaming frame receiver.
//!
//! Arriving byte chunks are appended to an accumulation buffer. Every
//! `0x00` terminator closes one frame: the bytes before it are unstuffed
//! with [`crate::framing::cobs_decode`] and, when well-formed, yielded as
//! one complete frame; malformed frames are discarded. Whatever remains
//! after the last terminator stays buffered for the next chunk, but never
//! more than [`ACCUMULATOR_CAP`] bytes: a longer terminator-less remainder
//! is dropped and reported as an overflow, after which the receiver
//! resumes framing with an empty buffer.

use vstd::prelude::*;
use crate::framing::{
    cobs_decode, cobs_decode_spec, cobs_encode_spec, leading_nonzero, lemma_leading_nonzero,
};

verus! {

/// Most bytes the receiver will buffer without seeing a frame terminator.
pub const ACCUMULATOR_CAP: usize = 1048576;

/// Frames recognised in `buf`, and the terminator-less remainder.
pub open spec fn scan_frames(buf: Seq<u8>) -> (Seq<Seq<u8>>, Seq<u8>)
    decreases buf.len(),
    via scan_frames_decreases
{
    let p = leading_nonzero(buf);
    if p >= buf.len() {
        (seq![], buf)
    } else {
        let head = buf.take(p);
        let rest = buf.skip(p + 1);
        match cobs_decode_spec(head) {
            Some(m) => (seq![m] + scan_frames(rest).0, scan_frames(rest).1),
            None => scan_frames(rest),
        }
    }
}

#[via_fn]
proof fn scan_frames_decreases(buf: Seq<u8>) {
    lemma_leading_nonzero(buf);
}

/// The streaming receiver's buffered, not yet terminated bytes.
pub struct FrameAccumulator {
    buf: Vec<u8>,
}

impl View for FrameAccumulator {
    type V = Seq<u8>;

    closed spec fn view(&self) -> Seq<u8> {
        self.buf@
    }
}

impl FrameAccumulator {
    /// A receiver with nothing buffered.
    pub fn new() -> (a: FrameAccumulator)
        ensures
            a@ == Seq::<u8>::empty(),
    {
        let a = FrameAccumulator { buf: Vec::new() };
        proof {
            assert(a@ =~= Seq::<u8>::empty());
        }
        a
    }

    /// Append one arriving chunk and extract every complete frame in the
    /// buffer. Returns the well-formed frames in wire order, and `true`
    /// exactly when the terminator-less remainder exceeded
    /// [`ACCUMULATOR_CAP`] and was dropped.
    pub fn feed(&mut self, chunk: &Vec<u8>) -> (r: (Vec<Vec<u8>>, bool))
        requires
            old(self)@.len() + chunk@.len() <= usize::MAX - 255,
        ensures
            r.0.deep_view() == scan_frames(old(self)@ + chunk@).0,
            ({
                let left = scan_frames(old(self)@ + chunk@).1;
                if left.len() > ACCUMULATOR_CAP {
                    final(self)@ == Seq::<u8>::empty() && r.1 == true
                } else {
                    final(self)@ == left && r.1 == false
                }
            }),
    {
        let ghost total = old(self)@ + chunk@;
        self.buf.extend_from_slice(chunk.as_slice());
        proof {
            assert(self.buf@ =~= total);
        }
        let mut frames: Vec<Vec<u8>> = Vec::new();
        proof {
            assert(frames.deep_view() =~= Seq::<Seq<u8>>::empty());
        }
        loop
            invariant
                self.buf@.len() <= total.len(),
                scan_frames(total).0 =~= frames.deep_view() + scan_frames(self.buf@).0,
                scan_frames(total).1 == scan_frames(self.buf@).1,
            ensures
                scan_frames(total).0 =~= frames.deep_view(),
                scan_frames(total).1 == self.buf@,
            decreases self.buf@.len(),
        {
            let ghost cur = self.buf@;
            // find the first terminator, if any
            let mut p: usize = 0;
            let n = self.buf.len();
            while p < n && self.buf[p] != 0
                invariant
                    p <= n,
                    n == self.buf@.len(),
                    cur == self.buf@,
                    forall|k: int| 0 <= k < p ==> cur[k] != 0,
                decreases n - p,
            {
                p = p + 1;
            }
            proof {
                lemma_leading_nonzero(cur);
                if p < n {
                    lemma_first_zero_at(cur, p as int);
                } else {
                    lemma_no_zero(cur);
                }
            }
            if p == n {
                proof {
                    assert(scan_frames(cur).0 =~= Seq::<Seq<u8>>::empty());
                    assert(scan_frames(cur).1 == cur);
                    assert(frames.deep_view() + Seq::<Seq<u8>>::empty() =~= frames.deep_view());
                }
                break;
            }
            // split out the frame before the terminator
            let mut head: Vec<u8> = Vec::new();
            let mut k: usize = 0;
            while k < p
                invariant
                    k <= p,
                    p < n,
                    n == self.buf@.len(),
                    cur == self.buf@,
                    head@ =~= cur.take(k as int),
                decreases p - k,
            {
                let b = self.buf[k];
                head.push(b);
                proof {
                    assert(cur.take(k + 1) =~= cur.take(k as int) + seq![cur[k as int]]);
                }
                k = k + 1;
            }
            let mut rest: Vec<u8> = Vec::new();
            let mut k2: usize = p + 1;
            while k2 < n
                invariant
                    p + 1 <= k2 <= n,
                    n == self.buf@.len(),
                    cur == self.buf@,
                    rest@ =~= cur.subrange(p + 1, k2 as int),
                decreases n - k2,
            {
                let b = self.buf[k2];
                rest.push(b);
                proof {
                    assert(cur.subrange(p + 1, k2 + 1) =~= cur.subrange(p + 1, k2 as int)
                        + seq![cur[k2 as int]]);
                }
                k2 = k2 + 1;
            }
            self.buf = rest;
            proof {
                assert(self.buf@ =~= cur.skip(p + 1));
                assert(head@ =~= cur.take(p as int));
            }
            let ghost dv0 = frames.deep_view();
            match cobs_decode(&head) {
                Some(m) => {
                    let ghost mv = m@;
                    frames.push(m);
                    proof {
                        assert(scan_frames(cur).0 =~= seq![mv] + scan_frames(cur.skip(p + 1)).0);
                        assert(frames.deep_view() =~~= dv0 + seq![mv]);
                        assert(scan_frames(total).0 =~= frames.deep_view() + scan_frames(
                            self.buf@,
                        ).0);
                    }
                },
                None => {
                    proof {
                        assert(scan_frames(cur) == scan_frames(cur.skip(p + 1)));
                    }
                },
            }
        }
        // only a terminator-less remainder is left; enforce the cap
        if self.buf.len() > ACCUMULATOR_CAP {
            self.buf.clear();
            proof {
                assert(self@ =~= Seq::<u8>::empty());
            }
            (frames, true)
        } else {
            (frames, false)
        }
    }
}

/// Concatenation of a sequence of chunks.
pub open spec fn concat_chunks(chunks: Seq<Seq<u8>>) -> Seq<u8>
    decreases chunks.len(),
{
    if chunks.len() == 0 {
        Seq::empty()
    } else {
        chunks[0] + concat_chunks(chunks.skip(1))
    }
}

/// The wire image of a sequence of payloads: each one stuffed and
/// terminated.
pub open spec fn frames_wire(payloads: Seq<Seq<u8>>) -> Seq<u8>
    decreases payloads.len(),
{
    if payloads.len() == 0 {
        Seq::empty()
    } else {
        cobs_encode_spec(payloads[0]) + seq![0u8] + frames_wire(payloads.skip(1))
    }
}

/// `p` is an initial segment of `s`.
pub open spec fn is_prefix(p: Seq<u8>, s: Seq<u8>) -> bool {
    p.len() <= s.len() && p == s.take(p.len() as int)
}

/// The model of feeding `chunks` one by one into a receiver whose buffer
/// holds `state`, exactly as [`FrameAccumulator::feed`] promises: the
/// frames recognised over all feeds, the final buffer, and whether any
/// feed overflowed.
pub open spec fn feed_all(state: Seq<u8>, chunks: Seq<Seq<u8>>) -> (Seq<Seq<u8>>, Seq<u8>, bool)
    decreases chunks.len(),
{
    if chunks.len() == 0 {
        (seq![], state, false)
    } else {
        let sf = scan_frames(state + chunks[0]);
        let over = sf.1.len() > ACCUMULATOR_CAP;
        let ns = if over {
            Seq::<u8>::empty()
        } else {
            sf.1
        };
        let rest = feed_all(ns, chunks.skip(1));
        (sf.0 + rest.0, rest.1, over || rest.2)
    }
}

/// Scanning a concatenation first recognises the frames of the front
/// part, then continues on its remainder joined with the back part.
proof fn lemma_scan_append(a: Seq<u8>, b: Seq<u8>)
    ensures
        scan_frames(a + b).0 =~= scan_frames(a).0 + scan_frames(scan_frames(a).1 + b).0,
        scan_frames(a + b).1 == scan_frames(scan_frames(a).1 + b).1,
    decreases a.len(),
{
    lemma_leading_nonzero(a);
    let p = leading_nonzero(a);
    if p >= a.len() {
        assert(scan_frames(a).0 =~= Seq::<Seq<u8>>::empty());
        assert(scan_frames(a).1 == a);
        assert(scan_frames(a).0 + scan_frames(a + b).0 =~= scan_frames(a + b).0);
    } else {
        assert(a[p] == 0);
        let ab = a + b;
        assert forall|k: int| 0 <= k < p implies ab[k] != 0 by {
            assert(ab[k] == a[k]);
        }
        assert(ab[p] == a[p]);
        lemma_first_zero_at(ab, p);
        assert(ab.take(p) =~= a.take(p));
        assert(ab.skip(p + 1) =~= a.skip(p + 1) + b);
        lemma_scan_append(a.skip(p + 1), b);
    }
}

/// Any initial segment of a well-formed frame stream leaves at most one
/// partial frame buffered; the whole stream yields exactly the payloads.
proof fn lemma_scan_wire_prefix(payloads: Seq<Seq<u8>>, p: Seq<u8>)
    requires
        is_prefix(p, frames_wire(payloads)),
        forall|i: int|
            0 <= i < payloads.len() ==> (#[trigger] cobs_encode_spec(payloads[i])).len()
                <= ACCUMULATOR_CAP,
    ensures
        scan_frames(p).1.len() <= ACCUMULATOR_CAP,
        p == frames_wire(payloads) ==> scan_frames(p).0 =~~= payloads && scan_frames(p).1
            == Seq::<u8>::empty(),
    decreases payloads.len(),
{
    let s = frames_wire(payloads);
    if payloads.len() == 0 {
        assert(p.len() == 0);
        lemma_no_zero(p);
    } else {
        let e0 = cobs_encode_spec(payloads[0]);
        crate::framing::lemma_encode_no_zero(payloads[0]);
        if p.len() <= e0.len() {
            assert forall|k: int| 0 <= k < p.len() implies p[k] != 0 by {
                assert(p[k] == s[k]);
                assert(s[k] == e0[k]);
            }
            lemma_no_zero(p);
            assert(scan_frames(p).1 == p);
            assert(e0.len() <= ACCUMULATOR_CAP);
            assert(p.len() < s.len());
        } else {
            // the first frame is complete inside p
            assert forall|k: int| 0 <= k < e0.len() implies p[k] != 0 by {
                assert(p[k] == s[k]);
                assert(s[k] == e0[k]);
            }
            assert(p[e0.len() as int] == s[e0.len() as int]);
            assert(s[e0.len() as int] == 0);
            lemma_first_zero_at(p, e0.len() as int);
            assert(p.take(e0.len() as int) =~= e0);
            let rest = p.skip(e0.len() as int + 1);
            assert(rest =~= frames_wire(payloads.skip(1)).take(rest.len() as int)) by {
                assert forall|k: int| 0 <= k < rest.len() implies rest[k] == frames_wire(
                    payloads.skip(1),
                )[k] by {
                    assert(rest[k] == p[e0.len() + 1 + k]);
                    assert(p[e0.len() + 1 + k] == s[e0.len() + 1 + k]);
                    assert(s[e0.len() + 1 + k] == frames_wire(payloads.skip(1))[k]);
                }
            }
            assert forall|i: int|
                0 <= i < payloads.skip(1).len() implies (#[trigger] cobs_encode_spec(
                payloads.skip(1)[i],
            )).len() <= ACCUMULATOR_CAP by {
                assert(payloads.skip(1)[i] == payloads[i + 1]);
            }
            lemma_scan_wire_prefix(payloads.skip(1), rest);
            crate::framing::lemma_cobs_round_trip(payloads[0]);
            assert(scan_frames(p).0 =~= seq![payloads[0]] + scan_frames(rest).0);
            assert(scan_frames(p).1 == scan_frames(rest).1);
            if p == s {
                assert(rest =~= frames_wire(payloads.skip(1)));
                assert(scan_frames(rest).0 =~~= payloads.skip(1));
                assert(seq![payloads[0]] + payloads.skip(1) =~~= payloads);
            }
        }
    }
}

/// Streaming equivalence: however the wire image of a sequence of
/// payloads is cut into chunks, feeding the chunks to a fresh receiver
/// yields exactly those payloads, in order, with nothing left over, no
/// spurious frame, and no overflow - provided each stuffed frame fits
/// within the accumulation cap.
pub proof fn streaming_framer_equivalence(payloads: Seq<Seq<u8>>, chunks: Seq<Seq<u8>>)
    requires
        concat_chunks(chunks) == frames_wire(payloads),
        forall|i: int|
            0 <= i < payloads.len() ==> (#[trigger] cobs_encode_spec(payloads[i])).len()
                <= ACCUMULATOR_CAP,
    ensures
        feed_all(Seq::empty(), chunks).0 =~~= payloads,
        feed_all(Seq::empty(), chunks).1 == Seq::<u8>::empty(),
        feed_all(Seq::empty(), chunks).2 == false,
{
    lemma_no_zero(Seq::empty());
    assert(scan_frames(Seq::<u8>::empty()).0 =~= Seq::<Seq<u8>>::empty());
    lemma_feed_from(payloads, Seq::empty(), chunks);
    assert(Seq::<Seq<u8>>::empty() + feed_all(Seq::empty(), chunks).0 =~= feed_all(
        Seq::empty(),
        chunks,
    ).0);
}

proof fn lemma_feed_from(payloads: Seq<Seq<u8>>, consumed: Seq<u8>, chunks: Seq<Seq<u8>>)
    requires
        consumed + concat_chunks(chunks) == frames_wire(payloads),
        forall|i: int|
            0 <= i < payloads.len() ==> (#[trigger] cobs_encode_spec(payloads[i])).len()
                <= ACCUMULATOR_CAP,
    ensures
        scan_frames(consumed).0 + feed_all(scan_frames(consumed).1, chunks).0 =~~= payloads,
        feed_all(scan_frames(consumed).1, chunks).1 == Seq::<u8>::empty(),
        feed_all(scan_frames(consumed).1, chunks).2 == false,
    decreases chunks.len(),
{
    let s = frames_wire(payloads);
    if chunks.len() == 0 {
        assert(consumed =~= s);
        assert(s.take(consumed.len() as int) =~= consumed);
        assert(is_prefix(consumed, s));
        lemma_scan_wire_prefix(payloads, consumed);
        assert(scan_frames(consumed).0 + Seq::<Seq<u8>>::empty() =~= scan_frames(consumed).0);
    } else {
        let c0 = chunks[0];
        let consumed2 = consumed + c0;
        assert(consumed2 + concat_chunks(chunks.skip(1)) =~= s);
        assert(is_prefix(consumed2, s)) by {
            assert(consumed2 =~= s.take(consumed2.len() as int));
        }
        lemma_scan_append(consumed, c0);
        lemma_scan_wire_prefix(payloads, consumed2);
        let state = scan_frames(consumed).1;
        let sf = scan_frames(state + c0);
        assert(scan_frames(consumed2).0 =~= scan_frames(consumed).0 + sf.0);
        assert(scan_frames(consumed2).1 == sf.1);
        assert(sf.1.len() <= ACCUMULATOR_CAP);
        lemma_feed_from(payloads, consumed2, chunks.skip(1));
        let restf = feed_all(sf.1, chunks.skip(1));
        assert(scan_frames(consumed2).0 + restf.0 =~~= payloads);
        assert(scan_frames(consumed).0 + (sf.0 + restf.0) =~~= (scan_frames(consumed).0 + sf.0)
            + restf.0);
    }
}

/// After an overflow the buffer is empty, and framing resumes at the
/// byte after the next terminator: the terminator-less bytes before it
/// form at most one frame (discarded when malformed), and everything
/// after it is framed exactly as if the receiver were fresh.
pub proof fn accumulator_resumes_after_terminator(junk: Seq<u8>, rest: Seq<u8>)
    requires
        forall|k: int| 0 <= k < junk.len() ==> junk[k] != 0,
    ensures
        scan_frames(junk + seq![0u8] + rest).0 =~= (match cobs_decode_spec(junk) {
            Some(m) => seq![m],
            None => Seq::<Seq<u8>>::empty(),
        }) + scan_frames(rest).0,
        scan_frames(junk + seq![0u8] + rest).1 == scan_frames(rest).1,
{
    let s = junk + seq![0u8] + rest;
    assert forall|k: int| 0 <= k < junk.len() implies s[k] != 0 by {
        assert(s[k] == junk[k]);
    }
    assert(s[junk.len() as int] == 0);
    lemma_first_zero_at(s, junk.len() as int);
    assert(s.take(junk.len() as int) =~= junk);
    assert(s.skip(junk.len() as int + 1) =~= rest);
}

proof fn lemma_first_zero_at(buf: Seq<u8>, p: int)
    requires
        0 <= p < buf.len(),
        buf[p] == 0,
        forall|k: int| 0 <= k < p ==> buf[k] != 0,
    ensures
        leading_nonzero(buf) == p,
    decreases p,
{
    if p == 0 {
    } else {
        assert(buf[0] != 0);
        assert forall|k: int| 0 <= k < p - 1 implies buf.skip(1)[k] != 0 by {
            assert(buf.skip(1)[k] == buf[k + 1]);
        }
        assert(buf.skip(1)[p - 1] == buf[p]);
        lemma_first_zero_at(buf.skip(1), p - 1);
    }
}

proof fn lemma_no_zero(buf: Seq<u8>)
    requires
        forall|k: int| 0 <= k < buf.len() ==> buf[k] != 0,
    ensures
        leading_nonzero(buf) == buf.len(),
    decreases buf.len(),
{
    if buf.len() > 0 {
        assert forall|k: int| 0 <= k < buf.skip(1).len() implies buf.skip(1)[k] != 0 by {
            assert(buf.skip(1)[k] == buf[k + 1]);
        }
        lemma_no_zero(buf.skip(1));
    }
}

} // verus!
