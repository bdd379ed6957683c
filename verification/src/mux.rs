//! The request/response multiplexer and topic fan-out.
//!
//! One mux owns the client side of a connection: it allocates sequence
//! numbers, keeps the table of in-flight requests, and fans incoming
//! topic frames out to subscribers with bounded, lossy queues. The
//! surrounding tasks feed it: every received frame goes through
//! [`Mux::on_frame`], every request starts with [`Mux::start_request`],
//! and a caller that gives up on a request removes its slot with
//! [`Mux::cancel_request`].
//!
//! The table invariant - at most one pending slot per sequence number at
//! any moment - is part of [`Mux::wf`], which every operation preserves.
//!
//! A fresh mux accepts no user request: first the ping handshake must
//! round-trip. [`Mux::start_request`] succeeds only in the open phase,
//! and the only way into the open phase is [`Mux::on_ping_response`]
//! with the token the ping was sent with.

use vstd::prelude::*;
use crate::header::{key_matches, key_matches_spec, seq_value, take_header, header_parse, VarKey};

verus! {

/// Bound on every subscriber's queue: older messages fall out first.
pub const SUBSCRIBER_QUEUE_DEPTH: usize = 64;

/// One in-flight request: its sequence number and the key its response
/// will carry.
#[derive(Clone, Copy, Debug, PartialEq, Eq, Structural)]
pub struct PendingEntry {
    pub seq: u32,
    pub resp_key: u64,
}

/// One topic subscriber: its handle, the topic key it listens to, its
/// bounded queue and the count of messages dropped on it since it last
/// received.
pub struct Subscriber {
    pub id: u64,
    pub key: u64,
    pub queue: Vec<Vec<u8>>,
    pub lag: u64,
}

/// Connection phase: the ping handshake gates the open phase, and the
/// closed phase is terminal.
#[derive(Clone, Copy, Debug, PartialEq, Eq, Structural)]
pub enum Phase {
    AwaitingPing,
    Open,
    Closed,
}

/// Why a request could not be started.
#[derive(Clone, Copy, Debug, PartialEq, Eq, Structural)]
pub enum StartError {
    /// The connection is not open: still in the handshake, or closed.
    NotOpen,
    /// The next sequence number is still pending; the caller may retry
    /// after that request resolves.
    SeqInUse,
}

/// What one incoming frame amounted to.
pub enum FrameOutcome {
    /// A pending request resolved: its slot is removed. `wire_error`
    /// says the body is the peer's wire-error report rather than a
    /// response.
    Response { seq: u32, body: Vec<u8>, wire_error: bool },
    /// A topic frame was fanned out to the matching subscribers.
    Topic { body: Vec<u8> },
    /// Nothing matched: the frame was dropped.
    Discarded,
}

/// What a subscriber sees when it asks for its next message.
pub enum RecvOutcome {
    /// The next message, in wire order.
    Message(Vec<u8>),
    /// `n` messages were dropped since the subscriber last kept up; the
    /// counter is now reset.
    Lagged(u64),
    /// Nothing buffered; the caller should wait for more frames.
    Pending,
    /// The connection is closed (or the handle unknown) and the queue
    /// is drained.
    IoClosed,
}

/// The multiplexer state.
pub struct Mux {
    pub phase: Phase,
    pub ping_token: u32,
    pub error_key: u64,
    pub next_seq: u32,
    pub pending: Vec<PendingEntry>,
    pub subs: Vec<Subscriber>,
    pub next_sub_id: u64,
}

impl Mux {
    /// Sequence uniqueness and the other structural invariants: at most
    /// one pending slot per sequence value, distinct subscriber
    /// handles, and every queue within its bound.
    pub open spec fn wf(self) -> bool {
        &&& forall|i: int, j: int|
            0 <= i < j < self.pending@.len() ==> (#[trigger] self.pending@[i]).seq != (
            #[trigger] self.pending@[j]).seq
        &&& forall|i: int, j: int|
            0 <= i < j < self.subs@.len() ==> (#[trigger] self.subs@[i]).id != (
            #[trigger] self.subs@[j]).id
        &&& forall|i: int|
            0 <= i < self.subs@.len() ==> (#[trigger] self.subs@[i]).id < self.next_sub_id
        &&& forall|i: int|
            0 <= i < self.subs@.len() ==> (#[trigger] self.subs@[i]).queue@.len()
                <= SUBSCRIBER_QUEUE_DEPTH
    }

    /// Is some slot pending under this sequence number?
    pub open spec fn has_pending(self, seq: u32) -> bool {
        exists|i: int| 0 <= i < self.pending@.len() && (#[trigger] self.pending@[i]).seq == seq
    }

    /// A mux for a fresh connection, before its ping handshake.
    /// `ping_token` is the token the ping request carries; `error_key`
    /// is the reserved key under which the peer reports wire errors.
    pub fn new(ping_token: u32, error_key: u64) -> (m: Mux)
        ensures
            m.wf(),
            m.phase == Phase::AwaitingPing,
            m.ping_token == ping_token,
            m.error_key == error_key,
            m.pending@.len() == 0,
            m.subs@.len() == 0,
    {
        Mux {
            phase: Phase::AwaitingPing,
            ping_token,
            error_key,
            next_seq: 0,
            pending: Vec::new(),
            subs: Vec::new(),
            next_sub_id: 0,
        }
    }

    /// Register the ping request itself. Allowed only during the
    /// handshake; the ping's own response key gates the reply.
    pub fn start_ping(&mut self, ping_resp_key: u64) -> (r: Option<u32>)
        requires
            old(self).wf(),
        ensures
            final(self).wf(),
            match r {
                Some(seq) => old(self).phase == Phase::AwaitingPing && !old(self).has_pending(seq)
                    && seq == old(self).next_seq && final(self).pending@ == old(self).pending@.push(PendingEntry { seq, resp_key: ping_resp_key }) && final(self).next_seq
                    == add_wrap(old(self).next_seq) && final(self).phase == old(self).phase
                    && final(self).subs@ == old(self).subs@,
                None => *final(self) == *old(self) && (old(self).phase != Phase::AwaitingPing || old(self).has_pending(old(self).next_seq)),
            },
    {
        if !matches!(self.phase, Phase::AwaitingPing) {
            return None;
        }
        self.alloc_slot(ping_resp_key)
    }

    /// Start a user request toward `resp_key`: allocate its sequence
    /// number and insert its slot. Succeeds exactly when the connection
    /// is open and the next sequence number is free - so no user
    /// request is ever accepted before the ping has round-tripped.
    pub fn start_request(&mut self, resp_key: u64) -> (r: Result<u32, StartError>)
        requires
            old(self).wf(),
        ensures
            final(self).wf(),
            match r {
                Ok(seq) => old(self).phase == Phase::Open && !old(self).has_pending(seq) && seq
                    == old(self).next_seq && final(self).pending@ == old(self).pending@.push(
                    PendingEntry { seq, resp_key },
                ) && final(self).next_seq == add_wrap(old(self).next_seq) && final(self).phase == old(self).phase && final(self).subs@ == old(self).subs@,
                Err(e) => *final(self) == *old(self) && match e {
                    StartError::NotOpen => old(self).phase != Phase::Open,
                    StartError::SeqInUse => old(self).phase == Phase::Open && old(self).has_pending(
                        old(self).next_seq,
                    ),
                },
            },
    {
        if !matches!(self.phase, Phase::Open) {
            return Err(StartError::NotOpen);
        }
        match self.alloc_slot(resp_key) {
            Some(seq) => Ok(seq),
            None => Err(StartError::SeqInUse),
        }
    }

    /// Insert a slot under the next sequence number, if it is free.
    fn alloc_slot(&mut self, resp_key: u64) -> (r: Option<u32>)
        requires
            old(self).wf(),
        ensures
            final(self).wf(),
            match r {
                Some(seq) => !old(self).has_pending(seq) && seq == old(self).next_seq && final(self).pending@ == old(self).pending@.push(PendingEntry { seq, resp_key }) && final(self).next_seq == add_wrap(old(self).next_seq) && final(self).phase == old(self).phase
                    && final(self).subs@ == old(self).subs@ && final(self).ping_token == old(self).ping_token && final(self).error_key == old(self).error_key && final(self).next_sub_id == old(self).next_sub_id,
                None => *final(self) == *old(self) && old(self).has_pending(old(self).next_seq),
            },
    {
        let seq = self.next_seq;
        if self.find_pending(seq).is_some() {
            return None;
        }
        self.pending.push(PendingEntry { seq, resp_key });
        self.next_seq = if self.next_seq == 0xFFFF_FFFF {
            0
        } else {
            self.next_seq + 1
        };
        Some(seq)
    }

    /// The index of the slot under `seq`, if any.
    fn find_pending(&self, seq: u32) -> (r: Option<usize>)
        ensures
            match r {
                Some(i) => i < self.pending@.len() && self.pending@[i as int].seq == seq,
                None => !self.has_pending(seq),
            },
    {
        let mut i: usize = 0;
        while i < self.pending.len()
            invariant
                i <= self.pending@.len(),
                forall|k: int| 0 <= k < i ==> (#[trigger] self.pending@[k]).seq != seq,
            decreases self.pending@.len() - i,
        {
            if self.pending[i].seq == seq {
                return Some(i);
            }
            i = i + 1;
        }
        None
    }

    /// Drop the slot under `seq`, if any: a caller abandoning its
    /// request leaves no entry behind, and no other slot is touched.
    pub fn cancel_request(&mut self, seq: u32)
        requires
            old(self).wf(),
        ensures
            final(self).wf(),
            !final(self).has_pending(seq),
            final(self).pending@ == old(self).pending@.filter(|e: PendingEntry| e.seq != seq),
            final(self).phase == old(self).phase,
            final(self).subs@ == old(self).subs@,
            final(self).next_seq == old(self).next_seq,
    {
        match self.find_pending(seq) {
            Some(i) => {
                let ghost before = self.pending@;
                self.pending.remove(i);
                proof {
                    lemma_remove_unique(before, i as int, seq);
                    assert forall|k: int|
                        0 <= k < self.pending@.len() implies (#[trigger] self.pending@[k]).seq
                        != seq by {
                        if k < i as int {
                            assert(self.pending@[k] == before[k]);
                        } else {
                            assert(self.pending@[k] == before[k + 1]);
                        }
                    }
                }
            },
            None => {
                proof {
                    lemma_filter_all_kept(self.pending@, seq);
                }
            },
        }
    }

    /// Add a subscriber for topic `key` with an empty queue; returns
    /// its handle.
    pub fn subscribe(&mut self, key: u64) -> (r: Option<u64>)
        requires
            old(self).wf(),
        ensures
            final(self).wf(),
            match r {
                Some(id) => old(self).phase != Phase::Closed && id == old(self).next_sub_id && final(self).subs@.len() == old(self).subs@.len() + 1 && final(self).subs@[old(self).subs@.len() as int].id == id && final(self).subs@[old(self).subs@.len() as int].key
                    == key && final(self).subs@[old(self).subs@.len() as int].queue@.len() == 0
                    && final(self).subs@[old(self).subs@.len() as int].lag == 0 && forall|i: int|
                    0 <= i < old(self).subs@.len() ==> final(self).subs@[i] == old(self).subs@[i],
                None => *final(self) == *old(self) && (old(self).phase == Phase::Closed || old(self).next_sub_id == u64::MAX),
            },
            final(self).phase == old(self).phase,
            final(self).pending@ == old(self).pending@,
    {
        if matches!(self.phase, Phase::Closed) {
            return None;
        }
        if self.next_sub_id == u64::MAX {
            return None;
        }
        let id = self.next_sub_id;
        self.subs.push(Subscriber { id, key, queue: Vec::new(), lag: 0 });
        self.next_sub_id = self.next_sub_id + 1;
        Some(id)
    }

    /// The index of the subscriber under `id`, if any.
    fn find_sub(&self, id: u64) -> (r: Option<usize>)
        ensures
            match r {
                Some(i) => i < self.subs@.len() && self.subs@[i as int].id == id,
                None => forall|i: int|
                    0 <= i < self.subs@.len() ==> (#[trigger] self.subs@[i]).id != id,
            },
    {
        let mut i: usize = 0;
        while i < self.subs.len()
            invariant
                i <= self.subs@.len(),
                forall|k: int| 0 <= k < i ==> (#[trigger] self.subs@[k]).id != id,
            decreases self.subs@.len() - i,
        {
            if self.subs[i].id == id {
                return Some(i);
            }
            i = i + 1;
        }
        None
    }

    /// Drop the subscriber under `id`: later fan-outs no longer reach
    /// it.
    pub fn unsubscribe(&mut self, id: u64)
        requires
            old(self).wf(),
        ensures
            final(self).wf(),
            forall|i: int| 0 <= i < final(self).subs@.len() ==> (#[trigger] final(self).subs@[i]).id != id,
            final(self).subs@ == old(self).subs@.filter(|s: Subscriber| s.id != id),
            final(self).phase == old(self).phase,
            final(self).pending@ == old(self).pending@,
    {
        match self.find_sub(id) {
            Some(i) => {
                let ghost before = self.subs@;
                self.subs.remove(i);
                proof {
                    lemma_remove_unique_sub(before, i as int, id);
                    assert forall|k: int|
                        0 <= k < self.subs@.len() implies (#[trigger] self.subs@[k]).id != id by {
                        if k < i as int {
                            assert(self.subs@[k] == before[k]);
                        } else {
                            assert(self.subs@[k] == before[k + 1]);
                        }
                    }
                }
            },
            None => {
                proof {
                    lemma_filter_all_kept_sub(self.subs@, id);
                }
            },
        }
    }

    /// What a subscriber receives next: its lag report if it fell
    /// behind, else the oldest buffered message, else a wait (or
    /// end-of-stream once the connection is closed).
    pub fn sub_recv(&mut self, id: u64) -> (r: RecvOutcome)
        requires
            old(self).wf(),
        ensures
            final(self).wf(),
            final(self).phase == old(self).phase,
            final(self).pending@ == old(self).pending@,
            ({
                let found = exists|i: int|
                    0 <= i < old(self).subs@.len() && (#[trigger] old(self).subs@[i]).id == id;
                if !found {
                    r is IoClosed && final(self).subs@ == old(self).subs@
                } else {
                    let i = choose|i: int|
                        0 <= i < old(self).subs@.len() && (#[trigger] old(self).subs@[i]).id == id;
                    let sub = old(self).subs@[i];
                    &&& (forall|j: int|
                        0 <= j < old(self).subs@.len() && j != i ==> final(self).subs@[j] == old(self).subs@[j])
                    &&& final(self).subs@.len() == old(self).subs@.len()
                    &&& if sub.lag > 0 {
                        r == (RecvOutcome::Lagged(sub.lag)) && final(self).subs@[i].lag == 0
                            && final(self).subs@[i].queue@ == sub.queue@ && final(self).subs@[i].id
                            == sub.id && final(self).subs@[i].key == sub.key
                    } else if sub.queue@.len() > 0 {
                        (match r {
                            RecvOutcome::Message(m) => m@ == sub.queue@[0]@,
                            _ => false,
                        }) && final(self).subs@[i].queue@ == sub.queue@.skip(1) && final(self).subs@[i].lag == 0 && final(self).subs@[i].id == sub.id && final(self).subs@[i].key == sub.key
                    } else if old(self).phase == Phase::Closed {
                        r is IoClosed && final(self).subs@ == old(self).subs@
                    } else {
                        r is Pending && final(self).subs@ == old(self).subs@
                    }
                }
            }),
    {
        let idx = match self.find_sub(id) {
            Some(i) => i,
            None => {
                return RecvOutcome::IoClosed;
            },
        };
        proof {
            let i = choose|i: int|
                0 <= i < self.subs@.len() && (#[trigger] self.subs@[i]).id == id;
            assert(i == idx as int) by {
                if i != idx as int {
                    assert(self.subs@[i].id == self.subs@[idx as int].id);
                }
            }
        }
        let sub = &mut self.subs[idx];
        if sub.lag > 0 {
            let n = sub.lag;
            sub.lag = 0;
            proof {
                assert(final(self).subs@ =~= old(self).subs@.update(idx as int, *final(sub)));
            }
            RecvOutcome::Lagged(n)
        } else if sub.queue.len() > 0 {
            let m = sub.queue.remove(0);
            proof {
                assert(final(self).subs@ =~= old(self).subs@.update(idx as int, *final(sub)));
                assert(m@ == old(self).subs@[idx as int].queue@[0]@);
            }
            RecvOutcome::Message(m)
        } else if matches!(self.phase, Phase::Closed) {
            proof {
                assert(final(self).subs@ =~= old(self).subs@.update(idx as int, *final(sub)));
                assert(final(self).subs@ =~= old(self).subs@);
            }
            RecvOutcome::IoClosed
        } else {
            proof {
                assert(final(self).subs@ =~= old(self).subs@.update(idx as int, *final(sub)));
                assert(final(self).subs@ =~= old(self).subs@);
            }
            RecvOutcome::Pending
        }
    }

    /// Does this header resolve a pending request? The sequence number
    /// must match a slot, and the key must be the slot's response key
    /// or the reserved wire-error key.
    pub open spec fn classifies_as_response(self, h: crate::header::VarHeader) -> bool {
        self.has_pending(seq_value(h.seq_no)) && {
            let i = self.pending_index(seq_value(h.seq_no));
            key_matches_spec(h.key, VarKey::Key8(self.pending@[i].resp_key)) || key_matches_spec(
                h.key,
                VarKey::Key8(self.error_key),
            )
        }
    }

    /// The index of the slot under `seq` (meaningful when
    /// `has_pending(seq)`).
    pub open spec fn pending_index(self, seq: u32) -> int {
        choose|i: int| 0 <= i < self.pending@.len() && (#[trigger] self.pending@[i]).seq == seq
    }

    /// Classify one incoming frame and update the state accordingly:
    ///
    /// * a malformed header discards the frame and changes nothing;
    /// * a frame answering a pending slot removes that slot and hands
    ///   the body (and whether it is a wire-error report) to the
    ///   waiter; no subscriber is touched;
    /// * otherwise a frame whose key some subscribers listen to is
    ///   appended to each of their queues; a full queue drops its
    ///   oldest message and counts the lag; subscribers of other
    ///   topics, and all pending slots, are untouched;
    /// * anything else is discarded unchanged.
    #[verifier::rlimit(60)]
    pub fn on_frame(&mut self, frame: &Vec<u8>) -> (r: FrameOutcome)
        requires
            old(self).wf(),
        ensures
            final(self).wf(),
            final(self).phase == old(self).phase,
            final(self).next_seq == old(self).next_seq,
            final(self).next_sub_id == old(self).next_sub_id,
            final(self).ping_token == old(self).ping_token,
            final(self).error_key == old(self).error_key,
            match r {
                FrameOutcome::Response { seq, body, wire_error } => {
                    &&& header_parse(frame@) is Some
                    &&& {
                        let (h, used) = header_parse(frame@).unwrap();
                        &&& body@ == frame@.skip(used)
                        &&& seq == seq_value(h.seq_no)
                        &&& old(self).classifies_as_response(h)
                        &&& wire_error == key_matches_spec(h.key, VarKey::Key8(old(self).error_key))
                        &&& final(self).pending@ == old(self).pending@.remove(
                            old(self).pending_index(seq),
                        )
                        &&& !final(self).has_pending(seq)
                        &&& final(self).subs@ == old(self).subs@
                    }
                },
                FrameOutcome::Topic { body } => {
                    &&& header_parse(frame@) is Some
                    &&& {
                        let (h, used) = header_parse(frame@).unwrap();
                        &&& body@ == frame@.skip(used)
                        &&& !old(self).classifies_as_response(h)
                        &&& final(self).pending@ == old(self).pending@
                        &&& final(self).subs@.len() == old(self).subs@.len()
                        &&& exists|k: int|
                            0 <= k < old(self).subs@.len() && key_matches_spec(
                                h.key,
                                VarKey::Key8((#[trigger] old(self).subs@[k]).key),
                            )
                        &&& forall|k: int|
                            0 <= k < old(self).subs@.len() && !key_matches_spec(
                                h.key,
                                VarKey::Key8((#[trigger] old(self).subs@[k]).key),
                            ) ==> final(self).subs@[k] == old(self).subs@[k]
                        &&& forall|k: int|
                            0 <= k < old(self).subs@.len() && key_matches_spec(
                                h.key,
                                VarKey::Key8((#[trigger] old(self).subs@[k]).key),
                            ) ==> {
                                let sub = old(self).subs@[k];
                                let d = deliver(sub.queue.deep_view(), sub.lag, body@);
                                &&& final(self).subs@[k].queue.deep_view() == d.0
                                &&& final(self).subs@[k].lag == d.1
                                &&& final(self).subs@[k].id == sub.id
                                &&& final(self).subs@[k].key == sub.key
                            }
                    }
                },
                FrameOutcome::Discarded => {
                    &&& final(self).pending@ == old(self).pending@
                    &&& final(self).subs@ == old(self).subs@
                    &&& match header_parse(frame@) {
                        None => true,
                        Some((h, used)) => !old(self).classifies_as_response(h) && forall|k: int|
                            0 <= k < old(self).subs@.len() ==> !key_matches_spec(
                                h.key,
                                VarKey::Key8((#[trigger] old(self).subs@[k]).key),
                            ),
                    }
                },
            },
    {
        let parsed = take_header(frame);
        let (h, used) = match parsed {
            Some(p) => p,
            None => {
                return FrameOutcome::Discarded;
            },
        };
        let mut body: Vec<u8> = Vec::new();
        let mut bi: usize = used;
        while bi < frame.len()
            invariant
                used <= bi <= frame.len(),
                body@ =~= frame@.subrange(used as int, bi as int),
            decreases frame.len() - bi,
        {
            let b = frame[bi];
            body.push(b);
            proof {
                assert(frame@.subrange(used as int, bi + 1) =~= frame@.subrange(
                    used as int,
                    bi as int,
                ) + seq![frame@[bi as int]]);
            }
            bi = bi + 1;
        }
        proof {
            assert(body@ =~= frame@.skip(used as int));
        }
        let seqv = match h.seq_no {
            crate::header::VarSeq::Seq1(v) => v as u32,
            crate::header::VarSeq::Seq2(v) => v as u32,
            crate::header::VarSeq::Seq4(v) => v,
        };
        // a response to a pending request?
        match self.find_pending(seqv) {
            Some(i) => {
                proof {
                    let ci = self.pending_index(seqv);
                    assert(0 <= ci < self.pending@.len() && self.pending@[ci].seq == seqv);
                    if ci != i as int {
                        assert(self.pending@[ci].seq == self.pending@[i as int].seq);
                    }
                    assert(ci == i as int);
                }
                let entry_key = self.pending[i].resp_key;
                let is_resp = key_matches(&h.key, &VarKey::Key8(entry_key));
                let is_err = key_matches(&h.key, &VarKey::Key8(self.error_key));
                if is_resp || is_err {
                    let ghost before = self.pending@;
                    self.pending.remove(i);
                    proof {
                        assert forall|k: int|
                            0 <= k < self.pending@.len() implies (#[trigger] self.pending@[k]).seq
                            != seqv by {
                            if k < i as int {
                                assert(self.pending@[k] == before[k]);
                            } else {
                                assert(self.pending@[k] == before[k + 1]);
                            }
                        }
                    }
                    return FrameOutcome::Response { seq: seqv, body, wire_error: is_err };
                }
            },
            None => {},
        }
        // a topic frame: fan out to every matching subscriber
        let ghost subs0 = self.subs@;
        let mut any = false;
        let mut k: usize = 0;
        while k < self.subs.len()
            invariant
                k <= self.subs@.len(),
                self.subs@.len() == subs0.len(),
                any == exists|j: int|
                    0 <= j < k && key_matches_spec(h.key, VarKey::Key8((#[trigger] subs0[j]).key)),
                forall|j: int| k <= j < subs0.len() ==> self.subs@[j] == subs0[j],
                forall|j: int|
                    0 <= j < k && !key_matches_spec(h.key, VarKey::Key8((#[trigger] subs0[j]).key))
                        ==> self.subs@[j] == subs0[j],
                forall|j: int|
                    0 <= j < k && key_matches_spec(h.key, VarKey::Key8((#[trigger] subs0[j]).key))
                        ==> {
                        let d = deliver(subs0[j].queue.deep_view(), subs0[j].lag, body@);
                        &&& self.subs@[j].queue.deep_view() == d.0
                        &&& self.subs@[j].lag == d.1
                        &&& self.subs@[j].id == subs0[j].id
                        &&& self.subs@[j].key == subs0[j].key
                    },
                self.pending@ == old(self).pending@,
                self.phase == old(self).phase,
                self.next_seq == old(self).next_seq,
                self.next_sub_id == old(self).next_sub_id,
                self.ping_token == old(self).ping_token,
                self.error_key == old(self).error_key,
                body@ == frame@.skip(used as int),
                forall|a: int, b: int|
                    0 <= a < b < subs0.len() ==> (#[trigger] subs0[a]).id != (
                    #[trigger] subs0[b]).id,
                forall|a: int| 0 <= a < subs0.len() ==> (#[trigger] subs0[a]).id < self.next_sub_id,
                forall|a: int|
                    0 <= a < subs0.len() ==> (#[trigger] subs0[a]).queue@.len()
                        <= SUBSCRIBER_QUEUE_DEPTH,
            decreases self.subs@.len() - k,
        {
            let skey = self.subs[k].key;
            proof {
                assert(self.subs@[k as int] == subs0[k as int]);
                assert(skey == subs0[k as int].key);
            }
            let matched = key_matches(&h.key, &VarKey::Key8(skey));
            if matched {
                let ghost cur0 = self.subs@;
                let cloned = clone_bytes(&body);
                let mut sub = self.subs.remove(k);
                let ghost qd0 = sub.queue.deep_view();
                if sub.queue.len() < SUBSCRIBER_QUEUE_DEPTH {
                    sub.queue.push(cloned);
                    proof {
                        assert(sub.queue.deep_view() =~~= qd0.push(body@));
                    }
                } else {
                    sub.queue.remove(0);
                    sub.queue.push(cloned);
                    sub.lag = if sub.lag == u64::MAX {
                        u64::MAX
                    } else {
                        sub.lag + 1
                    };
                    proof {
                        assert(sub.queue.deep_view() =~~= qd0.skip(1).push(body@));
                    }
                }
                let ghost newsub = sub;
                self.subs.insert(k, sub);
                any = true;
                proof {
                    assert(self.subs@ =~= cur0.update(k as int, newsub));
                    assert(key_matches_spec(h.key, VarKey::Key8(subs0[k as int].key)));
                    let d = deliver(subs0[k as int].queue.deep_view(), subs0[k as int].lag, body@);
                    assert(self.subs@[k as int].queue.deep_view() == d.0);
                    assert(self.subs@[k as int].lag == d.1);
                }
            } else {
                proof {
                    assert(!key_matches_spec(h.key, VarKey::Key8(subs0[k as int].key)));
                }
            }
            k = k + 1;
        }
        proof {
            assert forall|j: int|
                0 <= j < self.subs@.len() implies (#[trigger] self.subs@[j]).id == subs0[j].id
                && self.subs@[j].queue@.len() <= SUBSCRIBER_QUEUE_DEPTH by {
                if key_matches_spec(h.key, VarKey::Key8(subs0[j].key)) {
                    let d = deliver(subs0[j].queue.deep_view(), subs0[j].lag, body@);
                    assert(self.subs@[j].queue.deep_view() == d.0);
                    assert(self.subs@[j].queue.deep_view().len() == self.subs@[j].queue@.len());
                    assert(subs0[j].queue.deep_view().len() == subs0[j].queue@.len());
                } else {
                    assert(self.subs@[j] == subs0[j]);
                }
            }
            assert forall|a: int, b: int|
                0 <= a < b < self.subs@.len() implies (#[trigger] self.subs@[a]).id != (
            #[trigger] self.subs@[b]).id by {
                assert(subs0[a].id != subs0[b].id);
            }
        }
        if any {
            FrameOutcome::Topic { body }
        } else {
            proof {
                assert(self.subs@ =~= subs0);
            }
            FrameOutcome::Discarded
        }
    }

    /// Complete the handshake: the body must echo the token the ping
    /// carried. On a match the connection opens; on a mismatch it
    /// closes for good.
    pub fn on_ping_response(&mut self, body_token: u32) -> (r: bool)
        requires
            old(self).wf(),
        ensures
            final(self).wf(),
            r == (old(self).phase == Phase::AwaitingPing && body_token == old(self).ping_token),
            r ==> final(self).phase == Phase::Open,
            !r ==> final(self).phase == if old(self).phase == Phase::AwaitingPing {
                Phase::Closed
            } else {
                old(self).phase
            },
            final(self).pending@ == old(self).pending@,
            final(self).subs@ == old(self).subs@,
            final(self).ping_token == old(self).ping_token,
            final(self).next_seq == old(self).next_seq,
    {
        if !matches!(self.phase, Phase::AwaitingPing) {
            return false;
        }
        if body_token == self.ping_token {
            self.phase = Phase::Open;
            true
        } else {
            self.phase = Phase::Closed;
            false
        }
    }

    /// Shut the connection down: every pending request is failed and
    /// removed, and every subscriber will see end-of-stream once its
    /// queue drains. Doing this twice changes nothing more.
    pub fn close(&mut self)
        requires
            old(self).wf(),
        ensures
            final(self).wf(),
            final(self).phase == Phase::Closed,
            final(self).pending@.len() == 0,
            final(self).subs@ == old(self).subs@,
            final(self).next_seq == old(self).next_seq,
            final(self).ping_token == old(self).ping_token,
    {
        self.phase = Phase::Closed;
        self.pending.clear();
    }
}

/// One message arriving on one subscriber's queue: appended while there
/// is room; once full, the oldest message falls out and the lag counter
/// grows (saturating).
pub open spec fn deliver(q: Seq<Seq<u8>>, lag: u64, body: Seq<u8>) -> (Seq<Seq<u8>>, u64) {
    if q.len() < SUBSCRIBER_QUEUE_DEPTH {
        (q.push(body), lag)
    } else {
        (q.skip(1).push(body), sat_inc(lag))
    }
}

/// Saturating increment.
pub open spec fn sat_inc(v: u64) -> u64 {
    if v == u64::MAX {
        v
    } else {
        (v + 1) as u64
    }
}

/// A copy of a byte vector.
fn clone_bytes(v: &Vec<u8>) -> (r: Vec<u8>)
    ensures
        r@ == v@,
{
    let mut out: Vec<u8> = Vec::new();
    let mut i: usize = 0;
    while i < v.len()
        invariant
            i <= v.len(),
            out@ =~= v@.take(i as int),
        decreases v.len() - i,
    {
        let b = v[i];
        out.push(b);
        proof {
            assert(v@.take(i + 1) =~= v@.take(i as int) + seq![v@[i as int]]);
        }
        i = i + 1;
    }
    proof {
        assert(v@.take(v@.len() as int) =~= v@);
    }
    out
}

/// Wrap-around increment of a sequence number.
pub open spec fn add_wrap(v: u32) -> u32 {
    if v == 0xFFFF_FFFF {
        0
    } else {
        (v + 1) as u32
    }
}

proof fn lemma_remove_unique(s: Seq<PendingEntry>, i: int, seq: u32)
    requires
        0 <= i < s.len(),
        s[i].seq == seq,
        forall|a: int, b: int| 0 <= a < b < s.len() ==> (#[trigger] s[a]).seq != (#[trigger] s[b]).seq,
    ensures
        s.remove(i) == s.filter(|e: PendingEntry| e.seq != seq),
    decreases s.len(),
{
    reveal(Seq::filter);
    if s.len() > 0 {
        let last = s.last();
        let front = s.drop_last();
        if i == s.len() - 1 {
            assert forall|k: int| 0 <= k < front.len() implies (#[trigger] front[k]).seq != seq by {
                assert(front[k] == s[k]);
            }
            lemma_filter_all_kept(front, seq);
            assert(s.remove(i) =~= front);
        } else {
            assert(front[i].seq == seq);
            lemma_remove_unique(front, i, seq);
            assert(last.seq != seq);
            assert(s.filter(|e: PendingEntry| e.seq != seq) == front.filter(
                |e: PendingEntry| e.seq != seq,
            ).push(last));
            assert(s.remove(i) =~= front.remove(i).push(last));
        }
    }
}

proof fn lemma_filter_all_kept(s: Seq<PendingEntry>, seq: u32)
    requires
        forall|k: int| 0 <= k < s.len() ==> (#[trigger] s[k]).seq != seq,
    ensures
        s.filter(|e: PendingEntry| e.seq != seq) == s,
    decreases s.len(),
{
    reveal(Seq::filter);
    if s.len() > 0 {
        assert forall|k: int| 0 <= k < s.drop_last().len() implies (#[trigger] s.drop_last()[k]).seq
            != seq by {
            assert(s.drop_last()[k] == s[k]);
        }
        lemma_filter_all_kept(s.drop_last(), seq);
        assert(s.drop_last().push(s.last()) =~= s);
    }
}

proof fn lemma_remove_unique_sub(s: Seq<Subscriber>, i: int, id: u64)
    requires
        0 <= i < s.len(),
        s[i].id == id,
        forall|a: int, b: int| 0 <= a < b < s.len() ==> (#[trigger] s[a]).id != (#[trigger] s[b]).id,
    ensures
        s.remove(i) == s.filter(|e: Subscriber| e.id != id),
    decreases s.len(),
{
    reveal(Seq::filter);
    if s.len() > 0 {
        let last = s.last();
        let front = s.drop_last();
        if i == s.len() - 1 {
            assert forall|k: int| 0 <= k < front.len() implies (#[trigger] front[k]).id != id by {
                assert(front[k] == s[k]);
            }
            lemma_filter_all_kept_sub(front, id);
            assert(s.remove(i) =~= front);
        } else {
            assert(front[i].id == id);
            lemma_remove_unique_sub(front, i, id);
            assert(last.id != id);
            assert(s.filter(|e: Subscriber| e.id != id) == front.filter(
                |e: Subscriber| e.id != id,
            ).push(last));
            assert(s.remove(i) =~= front.remove(i).push(last));
        }
    }
}

proof fn lemma_filter_all_kept_sub(s: Seq<Subscriber>, id: u64)
    requires
        forall|k: int| 0 <= k < s.len() ==> (#[trigger] s[k]).id != id,
    ensures
        s.filter(|e: Subscriber| e.id != id) == s,
    decreases s.len(),
{
    reveal(Seq::filter);
    if s.len() > 0 {
        assert forall|k: int| 0 <= k < s.drop_last().len() implies (#[trigger] s.drop_last()[k]).id
            != id by {
            assert(s.drop_last()[k] == s[k]);
        }
        lemma_filter_all_kept_sub(s.drop_last(), id);
        assert(s.drop_last().push(s.last()) =~= s);
    }
}

} // verus!
