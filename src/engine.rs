//! The reliable datagram engine: framing, sequencing, acknowledgement and
//! retransmission, as a state machine.
//!
//! The engine never touches a socket. A write hands back the frame to transmit;
//! the caller then feeds every datagram that arrives to `service_datagram` and
//! every receive timeout to `service_idle`, sending what they return, until the
//! write is finished. A read feeds each arriving datagram to `read_safe`, sends
//! the reply it returns, and stops once it yields a record.
use std::collections::HashMap;
use vstd::prelude::*;
use crate::frame::{
    control_frame, encode_frame, frame, kind_code, lemma_frame_round_trip, lemma_seq_bytes,
    read_seq, seq_of_bytes, PacketKind, MAX_PAYLOAD,
};
use crate::seqnum::{
    arrival, classify, forward, forward_distance, next_seq, seq_add, wire_seq, wire_seq_of,
    Arrival, WRAP_SEQ,
};

verus! {

/// At this many retained frames a write blocks until acknowledged.
pub const IN_FLIGHT_CAP: usize = 100;

/// Silence after which `end` gives up waiting for its acknowledgement.
pub const LOST_EXIT_MS: u64 = 5000;

/// Silence after which the current frame is sent again.
pub const RESEND_AFTER_MS: u64 = 10000;

/// Socket read timeout while polling for acknowledgements without blocking.
pub const FAST_POLL_MS: u64 = 1;

/// Socket read timeout in the steady state.
pub const STEADY_POLL_MS: u64 = 1000;

/// The write (or end) whose service loop is running.
#[derive(Clone, Copy, Debug, PartialEq, Eq, Structural)]
pub struct Pending {
    /// Sequence number of the frame this write sent.
    pub seq: u16,
    /// The write may not finish before its frame is acknowledged.
    pub wait: bool,
    /// The write may give up after `LOST_EXIT_MS` of silence (only `end`).
    pub exit_on_lost: bool,
    /// A resend request arrived during this write.
    pub catching_up: bool,
    /// Time (ms) of the last inbound datagram, or of the write's start.
    pub baseline: u64,
}

/// What `write_flush_safe` and `end` hand back: the frame to transmit, and
/// whether the caller should poll with the short read timeout.
pub struct Outgoing {
    /// The frame to transmit.
    pub frame: Vec<u8>,
    /// Poll with `FAST_POLL_MS` rather than `STEADY_POLL_MS` during the service loop.
    pub fast_poll: bool,
}

/// What one inbound datagram during a write asks for.
pub struct Reaction {
    /// Retained frames to transmit again, in order.
    pub frames: Vec<Vec<u8>>,
    /// The sequence number of a resend request, when it is the first of this write.
    pub dropped: Option<u16>,
    /// The acknowledgement completed the wrap of the sequence counter.
    pub wrapped: bool,
}

/// What a receive timeout during a write asks for.
pub struct IdleStep {
    /// A frame to transmit again.
    pub resend: Option<Vec<u8>>,
    /// The write is finished.
    pub finished: bool,
}

/// What one inbound datagram during a read asks for.
pub struct ReadStep {
    /// A frame to send back to the peer.
    pub reply: Option<Vec<u8>>,
    /// The record that ends this read: a payload and its length, or
    /// `(vec![], 0)` at the end of the stream.
    pub record: Option<(Vec<u8>, usize)>,
    /// A gap was seen: the sequence number that arrived and the one expected.
    pub gap: Option<(u16, u16)>,
    /// The record delivered was the last before the sequence counter wraps.
    pub wrapped: bool,
}

/// The abstract state of an engine.
pub struct EngineView {
    /// Packets transmitted so far.
    pub count_out: nat,
    /// Packets accepted so far.
    pub count_in: nat,
    /// Frames not yet acknowledged, by sequence number.
    pub retained: Map<u16, Seq<u8>>,
    /// The write whose service loop is running.
    pub pending: Option<Pending>,
    /// `end` was called.
    pub ended: bool,
}

/// One endpoint of the reliable stream: the sending and the receiving state.
pub struct SafeReadWrite {
    packet_count_out: u64,
    packet_count_in: u64,
    last_transmitted: HashMap<u16, Vec<u8>>,
    pending: Option<Pending>,
    ended: bool,
}

impl View for SafeReadWrite {
    type V = EngineView;

    closed spec fn view(&self) -> EngineView {
        EngineView {
            count_out: self.packet_count_out as nat,
            count_in: self.packet_count_in as nat,
            retained: self.last_transmitted@.map_values(|v: Vec<u8>| v@),
            pending: self.pending,
            ended: self.ended,
        }
    }
}

/// The sequence number of the last packet sent (when one was sent).
pub open spec fn last_sent(v: EngineView) -> u16 {
    wire_seq((v.count_out - 1) as nat)
}

/// The engine's state invariant, over its abstract state. Besides the cap on
/// retained frames it holds the wrap barrier: no retained frame has a sequence
/// number above the last one sent, and the write of `WRAP_SEQ` ends (other than
/// by `end` giving up) only with nothing retained.
pub open spec fn engine_inv(v: EngineView) -> bool {
    &&& v.retained.dom().finite()
    &&& v.retained.len() <= IN_FLIGHT_CAP
    &&& v.count_out <= u64::MAX
    &&& v.count_in <= u64::MAX
    &&& v.count_out == 0 ==> v.retained.len() == 0 && v.pending is None
    &&& forall|k: u16| #[trigger] v.retained.contains_key(k) ==> k <= last_sent(v)
    &&& match v.pending {
        Some(p) => {
            &&& p.seq == last_sent(v)
            &&& !p.wait ==> v.retained.len() < IN_FLIGHT_CAP
            &&& p.exit_on_lost ==> v.ended
            &&& !v.retained.contains_key(p.seq) ==> v.retained.len() == 0
            &&& p.seq == WRAP_SEQ && !p.wait ==> v.retained.len() == 0
        },
        None => !v.ended ==> {
            &&& v.retained.len() < IN_FLIGHT_CAP
            &&& last_sent(v) == WRAP_SEQ ==> v.retained.len() == 0
        },
    }
}

/// Time passed since `baseline`; zero if the clock went back.
pub open spec fn elapsed(baseline: u64, now: u64) -> int {
    if now >= baseline {
        now - baseline
    } else {
        0
    }
}

/// Whether a write that retains `len` frames after its own must block.
pub open spec fn must_wait(seq: u16, flush: bool, len: nat) -> bool {
    seq == WRAP_SEQ || flush || len >= IN_FLIGHT_CAP
}

/// The retained frames that a resend request from `from` up to `to` sends
/// again: those of `from`, `from + 1`, ..., stopping before the first one not
/// retained and after `to`. Since no retained frame lies above the current one
/// (see `engine_inv`), a run never crosses 0xFFFF: a request above the current
/// frame finds nothing.
pub open spec fn resend_run(m: Map<u16, Seq<u8>>, from: u16, to: u16, r: Seq<Seq<u8>>) -> bool {
    &&& r.len() <= forward(from, to) + 1
    &&& forall|i: int|
        0 <= i < r.len() ==> m.contains_key(#[trigger] seq_add(from, i as nat)) && r[i] == m[seq_add(
            from,
            i as nat,
        )]
    &&& r.len() < forward(from, to) + 1 ==> !m.contains_key(seq_add(from, r.len()))
}

/// The pending write after an inbound datagram (the baseline is already moved).
pub open spec fn pending_after(p: Pending, d: Seq<u8>) -> Pending {
    if d.len() != 3 {
        p
    } else if d[2] == kind_code(PacketKind::Ack) && seq_of_bytes(d[0], d[1]) == p.seq {
        Pending { wait: false, ..p }
    } else if d[2] == kind_code(PacketKind::ResendRequest) {
        Pending { wait: true, catching_up: true, ..p }
    } else {
        p
    }
}

/// The retained frames after an inbound datagram during a write with sequence number `seq`.
pub open spec fn retained_after(m: Map<u16, Seq<u8>>, seq: u16, d: Seq<u8>) -> Map<u16, Seq<u8>> {
    if d.len() == 3 && d[2] == kind_code(PacketKind::Ack) {
        if seq_of_bytes(d[0], d[1]) == seq {
            Map::empty()
        } else {
            m.remove(seq_of_bytes(d[0], d[1]))
        }
    } else {
        m
    }
}

/// Whether the receiver accepts datagram `d` when it has accepted `count` packets.
pub open spec fn accepts(count: nat, d: Seq<u8>) -> bool {
    d.len() >= 3 && seq_of_bytes(d[0], d[1]) == wire_seq(count)
}

/// The receiver's count after datagram `d`.
pub open spec fn next_count(count: nat, d: Seq<u8>) -> nat {
    if accepts(count, d) {
        count + 1
    } else {
        count
    }
}

/// The reply the receiver sends for datagram `d`.
pub open spec fn read_reply(count: nat, d: Seq<u8>) -> Option<Seq<u8>> {
    if d.len() < 3 {
        None
    } else {
        let s = seq_of_bytes(d[0], d[1]);
        match arrival(wire_seq(count), s) {
            Arrival::Ahead => Some(frame(wire_seq(count), PacketKind::ResendRequest, Seq::empty())),
            _ => Some(frame(s, PacketKind::Ack, Seq::empty())),
        }
    }
}

/// Whether datagram `d` ends the read, and with what record: the payload of the
/// accepted frame, or the empty record for any end-of-stream frame.
pub open spec fn read_record(count: nat, d: Seq<u8>) -> Option<Seq<u8>> {
    if d.len() < 3 {
        None
    } else if d[2] == kind_code(PacketKind::End) {
        Some(Seq::empty())
    } else if accepts(count, d) {
        Some(d.subrange(3, d.len() as int))
    } else {
        None
    }
}

/// The payload of a datagram: what follows its header.
fn payload_of(d: &[u8]) -> (r: Vec<u8>)
    requires
        d@.len() >= 3,
    ensures
        r@ == d@.subrange(3, d@.len() as int),
{
    let mut v: Vec<u8> = Vec::with_capacity(d.len() - 3);
    let mut i: usize = 3;
    while i < d.len()
        invariant
            3 <= i <= d@.len(),
            v@ == d@.subrange(3, i as int),
        decreases d@.len() - i,
    {
        v.push(d[i]);
        i = i + 1;
        assert(v@ =~= d@.subrange(3, i as int));
    }
    v
}

/// Acknowledgement collapse: an acknowledgement of the running write's own
/// frame leaves no frame retained, whatever was retained before, and lets the
/// write finish.
pub proof fn lemma_ack_collapse(m: Map<u16, Seq<u8>>, p: Pending, k: u16)
    requires
        k == p.seq,
    ensures
        retained_after(m, p.seq, frame(k, PacketKind::Ack, Seq::empty())) == Map::<u16, Seq<u8>>::empty(),
        !pending_after(p, frame(k, PacketKind::Ack, Seq::empty())).wait,
{
    lemma_frame_round_trip(k, PacketKind::Ack, Seq::empty());
    lemma_seq_bytes(k);
}

/// Backpressure: an engine never retains more than `IN_FLIGHT_CAP` frames.
/// Between writes it retains fewer, so a write reaches the cap only with its
/// own frame, and a running write at the cap waits for an acknowledgement.
pub proof fn lemma_backpressure(e: &SafeReadWrite)
    requires
        e.wf(),
    ensures
        e@.retained.len() <= IN_FLIGHT_CAP,
        e@.pending is None && !e@.ended ==> e@.retained.len() < IN_FLIGHT_CAP,
        e@.pending is Some && e@.retained.len() >= IN_FLIGHT_CAP ==> e@.pending->Some_0.wait,
        forall|s: u16, flush: bool, len: nat| len >= IN_FLIGHT_CAP ==> #[trigger] must_wait(s, flush, len),
{
}

/// The wrap barrier: the write of the last sequence number before the wrap
/// always waits for its acknowledgement.
pub proof fn lemma_wrap_barrier(flush: bool, len: nat)
    ensures
        must_wait(WRAP_SEQ, flush, len),
{
}

impl SafeReadWrite {
    /// The state invariant: `engine_inv` of the abstract state.
    pub closed spec fn wf(&self) -> bool {
        &&& engine_inv(self@)
        &&& self.last_transmitted@.dom().finite()
    }

    /// A fresh engine: nothing sent, nothing received, nothing retained.
    pub fn new() -> (r: SafeReadWrite)
        ensures
            r.wf(),
            r@.count_out == 0,
            r@.count_in == 0,
            r@.retained == Map::<u16, Seq<u8>>::empty(),
            r@.pending == None::<Pending>,
            !r@.ended,
    {
        let r = SafeReadWrite {
            packet_count_out: 0,
            packet_count_in: 0,
            last_transmitted: HashMap::new(),
            pending: None,
            ended: false,
        };
        assert(r@.retained =~= Map::<u16, Seq<u8>>::empty());
        r
    }

    proof fn lemma_retained_len(&self)
        requires
            self.last_transmitted@.dom().finite(),
        ensures
            self@.retained.dom() == self.last_transmitted@.dom(),
            self@.retained.len() == self.last_transmitted@.len(),
    {
        assert(self@.retained.dom() =~= self.last_transmitted@.dom());
    }

    /// Number of frames not yet acknowledged.
    pub fn in_flight(&self) -> (r: usize)
        requires
            self.wf(),
        ensures
            r == self@.retained.len(),
    {
        proof {
            self.lemma_retained_len();
        }
        self.last_transmitted.len()
    }

    pub fn packet_count_out(&self) -> (r: u64)
        ensures
            r == self@.count_out,
    {
        self.packet_count_out
    }

    pub fn packet_count_in(&self) -> (r: u64)
        ensures
            r == self@.count_in,
    {
        self.packet_count_in
    }

    /// Whether a write's service loop is running.
    pub fn is_busy(&self) -> (r: bool)
        ensures
            r == (self@.pending is Some),
    {
        self.pending.is_some()
    }

    pub fn is_ended(&self) -> (r: bool)
        ensures
            r == self@.ended,
    {
        self.ended
    }

    /// Starts the write of one record: assigns it the next sequence number,
    /// frames it and retains the frame until it is acknowledged. The caller
    /// transmits the returned frame, then runs the service loop.
    pub fn write_safe(&mut self, buf: &[u8], now: u64) -> (r: Outgoing)
        requires
            old(self).wf(),
            old(self)@.pending is None,
            !old(self)@.ended,
            buf@.len() <= MAX_PAYLOAD,
            old(self)@.count_out < u64::MAX,
        ensures
            final(self).wf(),
            ({
                let s = wire_seq(old(self)@.count_out);
                let retained = old(self)@.retained.insert(s, frame(s, PacketKind::Write, buf@));
                &&& r.frame@ == frame(s, PacketKind::Write, buf@)
                &&& final(self)@.count_out == old(self)@.count_out + 1
                &&& final(self)@.count_in == old(self)@.count_in
                &&& final(self)@.retained == retained
                &&& final(self)@.pending == Some(Pending {
                    seq: s,
                    wait: must_wait(s, false, retained.len()),
                    exit_on_lost: false,
                    catching_up: false,
                    baseline: now,
                })
                &&& r.fast_poll == (retained.len() < IN_FLIGHT_CAP)
            }),
            final(self)@.ended == old(self)@.ended,
    {
        self.write_flush_safe(buf, false, now)
    }

    /// As `write_safe`; with `flush` the write also waits for its acknowledgement.
    pub fn write_flush_safe(&mut self, buf: &[u8], flush: bool, now: u64) -> (r: Outgoing)
        requires
            old(self).wf(),
            old(self)@.pending is None,
            !old(self)@.ended,
            buf@.len() <= MAX_PAYLOAD,
            old(self)@.count_out < u64::MAX,
        ensures
            final(self).wf(),
            ({
                let s = wire_seq(old(self)@.count_out);
                let retained = old(self)@.retained.insert(s, frame(s, PacketKind::Write, buf@));
                &&& r.frame@ == frame(s, PacketKind::Write, buf@)
                &&& final(self)@.count_out == old(self)@.count_out + 1
                &&& final(self)@.count_in == old(self)@.count_in
                &&& final(self)@.retained == retained
                &&& final(self)@.pending == Some(Pending {
                    seq: s,
                    wait: must_wait(s, flush, retained.len()),
                    exit_on_lost: false,
                    catching_up: false,
                    baseline: now,
                })
                &&& r.fast_poll == (retained.len() < IN_FLIGHT_CAP)
            }),
            final(self)@.ended == old(self)@.ended,
    {
        self.transmit(buf, PacketKind::Write, flush, false, now)
    }

    /// Starts the end of the stream: an empty `End` frame, sent like a write
    /// that waits for its acknowledgement but gives up after `LOST_EXIT_MS` of
    /// silence. No record may be written afterwards.
    pub fn end(&mut self, now: u64) -> (r: Outgoing)
        requires
            old(self).wf(),
            old(self)@.pending is None,
            !old(self)@.ended,
            old(self)@.count_out < u64::MAX,
        ensures
            final(self).wf(),
            ({
                let s = wire_seq(old(self)@.count_out);
                let retained = old(self)@.retained.insert(s, frame(s, PacketKind::End, Seq::empty()));
                &&& r.frame@ == frame(s, PacketKind::End, Seq::empty())
                &&& final(self)@.count_out == old(self)@.count_out + 1
                &&& final(self)@.count_in == old(self)@.count_in
                &&& final(self)@.retained == retained
                &&& final(self)@.pending == Some(Pending {
                    seq: s,
                    wait: true,
                    exit_on_lost: true,
                    catching_up: false,
                    baseline: now,
                })
                &&& r.fast_poll == (retained.len() < IN_FLIGHT_CAP)
            }),
            final(self)@.ended,
    {
        let empty: Vec<u8> = Vec::new();
        self.transmit(empty.as_slice(), PacketKind::End, true, true, now)
    }

    /// Handles one datagram that arrived while a write's service loop runs.
    /// An acknowledgement drops its frame; one of the current frame drops all
    /// of them and lets the write finish. A resend request sends the retained
    /// frames again from the one requested up to the current one, and makes the
    /// write wait for its acknowledgement. Any datagram moves the liveness baseline.
    pub fn service_datagram(&mut self, d: &[u8], now: u64) -> (r: Reaction)
        requires
            old(self).wf(),
        ensures
            final(self).wf(),
            final(self)@.count_out == old(self)@.count_out,
            final(self)@.count_in == old(self)@.count_in,
            final(self)@.ended == old(self)@.ended,
            match old(self)@.pending {
                None => {
                    &&& final(self)@ == old(self)@
                    &&& r.frames@.len() == 0
                    &&& r.dropped is None
                    &&& !r.wrapped
                },
                Some(p) => {
                    let resend = d@.len() == 3 && d@[2] == kind_code(PacketKind::ResendRequest);
                    let n = seq_of_bytes(d@[0], d@[1]);
                    &&& final(self)@.pending == Some(pending_after(Pending { baseline: now, ..p }, d@))
                    &&& final(self)@.retained == retained_after(old(self)@.retained, p.seq, d@)
                    &&& (resend ==> resend_run(old(self)@.retained, n, p.seq, r.frames@.map_values(|f: Vec<u8>| f@)))
                    &&& (resend && n > p.seq ==> r.frames@.len() == 0)
                    &&& (!resend ==> r.frames@.len() == 0)
                    &&& r.dropped == (if resend && !p.catching_up { Some(n) } else { None::<u16> })
                    &&& r.wrapped == (d@.len() == 3 && d@[2] == kind_code(PacketKind::Ack) && n == p.seq && p.seq == WRAP_SEQ)
                },
            },
    {
        let mut frames: Vec<Vec<u8>> = Vec::new();
        let p = match self.pending {
            None => {
                return Reaction { frames, dropped: None, wrapped: false };
            },
            Some(p) => p,
        };
        let mut q = Pending { baseline: now, ..p };
        let mut dropped: Option<u16> = None;
        let mut wrapped = false;
        proof {
            self.lemma_retained_len();
        }
        if d.len() == 3 {
            let n = read_seq(d);
            if d[2] == PacketKind::Ack.code() {
                self.last_transmitted.remove(&n);
                if n == p.seq {
                    wrapped = p.seq == WRAP_SEQ;
                    q.wait = false;
                    self.last_transmitted.clear();
                }
                proof {
                    self.lemma_retained_len();
                    if n == p.seq {
                        assert(self@.retained =~= Map::<u16, Seq<u8>>::empty());
                    } else {
                        assert(self@.retained =~= old(self)@.retained.remove(n));
                    }
                }
            } else if d[2] == PacketKind::ResendRequest.code() {
                if !p.catching_up {
                    dropped = Some(n);
                }
                q.wait = true;
                q.catching_up = true;
                frames = self.resend_from(n, p.seq);
                proof {
                    if n > p.seq && frames@.len() > 0 {
                        let first = frames@.map_values(|f: Vec<u8>| f@);
                        assert(first.len() > 0);
                        assert(self@.retained.contains_key(seq_add(n, 0int as nat)));
                        assert(seq_add(n, 0int as nat) == n);
                    }
                }
            }
        }
        self.pending = Some(q);
        proof {
            self.lemma_retained_len();
        }
        Reaction { frames, dropped, wrapped }
    }

    /// The retained frames from `from` up to `to`, wrapping, stopping before the
    /// first that is not retained.
    fn resend_from(&self, from: u16, to: u16) -> (r: Vec<Vec<u8>>)
        requires
            self.wf(),
        ensures
            resend_run(self@.retained, from, to, r@.map_values(|f: Vec<u8>| f@)),
    {
        let total: u16 = forward_distance(from, to);
        let mut out: Vec<Vec<u8>> = Vec::new();
        let mut n = from;
        let mut i: u32 = 0;
        loop
            invariant
                self.wf(),
                total == forward(from, to),
                i <= total as u32 + 1,
                out@.len() == i,
                n == seq_add(from, i as nat),
                forall|j: int|
                    0 <= j < i ==> self@.retained.contains_key(#[trigger] seq_add(from, j as nat))
                        && out@[j]@ == self@.retained[seq_add(from, j as nat)],
            ensures
                resend_run(self@.retained, from, to, out@.map_values(|f: Vec<u8>| f@)),
            decreases total as u32 + 1 - i,
        {
            if i > total as u32 {
                break;
            }
            match self.last_transmitted.get(&n) {
                Some(f) => {
                    let c = f.clone();
                    assert(c@ =~= f@);
                    out.push(c);
                },
                None => {
                    proof {
                        self.lemma_retained_len();
                    }
                    break;
                },
            }
            n = next_seq(n);
            i = i + 1;
        }
        out
    }

    /// Handles a receive timeout while a write's service loop runs. After
    /// `LOST_EXIT_MS` of silence `end` gives up; after `RESEND_AFTER_MS` the
    /// current frame, if still retained, is sent again. A write that need not
    /// wait finishes; one that must wait never ends on silence (only `end` does).
    pub fn service_idle(&mut self, now: u64) -> (r: IdleStep)
        requires
            old(self).wf(),
        ensures
            final(self).wf(),
            final(self)@.count_out == old(self)@.count_out,
            final(self)@.count_in == old(self)@.count_in,
            final(self)@.ended == old(self)@.ended,
            final(self)@.retained == old(self)@.retained,
            match old(self)@.pending {
                None => final(self)@ == old(self)@ && r.finished && r.resend is None,
                Some(p) => {
                    let t = elapsed(p.baseline, now);
                    let has = old(self)@.retained.contains_key(p.seq);
                    if t > LOST_EXIT_MS && p.exit_on_lost {
                        &&& r.finished && r.resend is None
                        &&& final(self)@.pending is None
                    } else if t > RESEND_AFTER_MS && has {
                        &&& r.resend matches Some(f) && f@ == old(self)@.retained[p.seq]
                        &&& r.finished == !p.wait
                        &&& final(self)@.pending == (if p.wait { Some(Pending { baseline: now, ..p }) } else { None })
                    } else if !p.wait {
                        &&& r.finished && r.resend is None
                        &&& final(self)@.pending is None
                    } else {
                        &&& !r.finished && r.resend is None
                        &&& final(self)@.pending == Some(p)
                    }
                },
            },
            // Silence never ends a write that has to wait; only `end` gives up.
            ({
                let waited = old(self)@.pending is Some && old(self)@.pending->Some_0.wait;
                let may_give_up = old(self)@.pending is Some && old(self)@.pending->Some_0.exit_on_lost;
                waited && !may_give_up ==> !r.finished && final(self)@.pending is Some
            }),
    {
        let p = match self.pending {
            None => {
                return IdleStep { resend: None, finished: true };
            },
            Some(p) => p,
        };
        let t: u64 = if now >= p.baseline { now - p.baseline } else { 0 };
        proof {
            self.lemma_retained_len();
        }
        if t > LOST_EXIT_MS && p.exit_on_lost {
            self.pending = None;
            return IdleStep { resend: None, finished: true };
        }
        if t > RESEND_AFTER_MS {
            if let Some(f) = self.last_transmitted.get(&p.seq) {
                let c = f.clone();
                assert(c@ =~= f@);
                if p.wait {
                    self.pending = Some(Pending { baseline: now, ..p });
                } else {
                    self.pending = None;
                }
                return IdleStep { resend: Some(c), finished: !p.wait };
            }
        }
        if !p.wait {
            self.pending = None;
            return IdleStep { resend: None, finished: true };
        }
        IdleStep { resend: None, finished: false }
    }

    /// Handles one datagram that arrived while reading. The expected frame is
    /// acknowledged and accepted; one already delivered is acknowledged again;
    /// one ahead of the expected frame draws a resend request for the expected
    /// one. An end-of-stream frame ends the read with the empty record.
    /// Datagrams shorter than a header are dropped.
    pub fn read_safe(&mut self, d: &[u8]) -> (r: ReadStep)
        requires
            old(self).wf(),
            old(self)@.count_in < u64::MAX,
        ensures
            final(self).wf(),
            final(self)@.count_in == next_count(old(self)@.count_in, d@),
            final(self)@.count_out == old(self)@.count_out,
            final(self)@.retained == old(self)@.retained,
            final(self)@.pending == old(self)@.pending,
            final(self)@.ended == old(self)@.ended,
            match read_reply(old(self)@.count_in, d@) {
                None => r.reply is None,
                Some(f) => r.reply matches Some(g) && g@ == f,
            },
            match read_record(old(self)@.count_in, d@) {
                None => r.record is None,
                Some(p) => r.record matches Some((v, n)) && v@ == p && n == p.len(),
            },
            r.gap == (if d@.len() >= 3 && arrival(wire_seq(old(self)@.count_in), seq_of_bytes(d@[0], d@[1]))
                == Arrival::Ahead {
                Some((seq_of_bytes(d@[0], d@[1]), wire_seq(old(self)@.count_in)))
            } else {
                None::<(u16, u16)>
            }),
            r.wrapped == (accepts(old(self)@.count_in, d@) && seq_of_bytes(d@[0], d@[1]) == WRAP_SEQ),
    {
        if d.len() < 3 {
            return ReadStep { reply: None, record: None, gap: None, wrapped: false };
        }
        let s = read_seq(d);
        let expected = wire_seq_of(self.packet_count_in);
        let mut record: Option<(Vec<u8>, usize)> = None;
        let mut gap: Option<(u16, u16)> = None;
        let mut wrapped = false;
        let reply = match classify(expected, s) {
            Arrival::Current => {
                self.packet_count_in = self.packet_count_in + 1;
                wrapped = s == WRAP_SEQ;
                let payload = payload_of(d);
                let n = payload.len();
                record = Some((payload, n));
                control_frame(s, PacketKind::Ack)
            },
            Arrival::Behind => control_frame(s, PacketKind::Ack),
            Arrival::Ahead => {
                gap = Some((s, expected));
                control_frame(expected, PacketKind::ResendRequest)
            },
        };
        if d[2] == PacketKind::End.code() {
            record = Some((Vec::new(), 0));
        }
        ReadStep { reply: Some(reply), record, gap, wrapped }
    }

    fn transmit(&mut self, buf: &[u8], kind: PacketKind, flush: bool, exit_on_lost: bool, now: u64) -> (r: Outgoing)
        requires
            old(self).wf(),
            old(self)@.pending is None,
            !old(self)@.ended,
            buf@.len() <= MAX_PAYLOAD,
            old(self)@.count_out < u64::MAX,
        ensures
            final(self).wf(),
            ({
                let s = wire_seq(old(self)@.count_out);
                let retained = old(self)@.retained.insert(s, frame(s, kind, buf@));
                &&& r.frame@ == frame(s, kind, buf@)
                &&& final(self)@.count_out == old(self)@.count_out + 1
                &&& final(self)@.count_in == old(self)@.count_in
                &&& final(self)@.retained == retained
                &&& final(self)@.pending == Some(Pending {
                    seq: s,
                    wait: must_wait(s, flush, retained.len()),
                    exit_on_lost,
                    catching_up: false,
                    baseline: now,
                })
                &&& r.fast_poll == (retained.len() < IN_FLIGHT_CAP)
            }),
            final(self)@.ended == exit_on_lost,
    {
        let seq = wire_seq_of(self.packet_count_out);
        self.packet_count_out = self.packet_count_out + 1;
        let f = encode_frame(seq, kind, buf);
        let kept = f.clone();
        assert(kept@ =~= f@);
        proof {
            self.lemma_retained_len();
        }
        self.last_transmitted.insert(seq, kept);
        let ghost s = seq;
        proof {
            self.lemma_retained_len();
            assert(self@.retained =~= old(self)@.retained.insert(s, f@));
        }
        let len = self.last_transmitted.len();
        let fast_poll = len < IN_FLIGHT_CAP;
        let wait = seq == WRAP_SEQ || flush || !fast_poll;
        self.ended = exit_on_lost;
        self.pending = Some(Pending { seq, wait, exit_on_lost, catching_up: false, baseline: now });
        Outgoing { frame: f, fast_poll }
    }
}

} // verus!
