//! Wire format of the reliable datagram protocol.
//!
//! A frame is a three-byte header `{seq_hi, seq_lo, kind}` followed by the payload.
use vstd::prelude::*;

verus! {

/// Largest payload that one frame may carry.
pub const MAX_PAYLOAD: usize = 0xFFFC;

/// Length of the frame header.
pub const HEADER_LEN: usize = 3;

/// The four frame kinds, told apart by the third header byte.
#[derive(Clone, Copy, Debug, PartialEq, Eq, Structural)]
pub enum PacketKind {
    Write,
    Ack,
    ResendRequest,
    End,
}

/// The byte that stands for a kind on the wire.
pub open spec fn kind_code(k: PacketKind) -> u8 {
    match k {
        PacketKind::Write => 0,
        PacketKind::Ack => 1,
        PacketKind::ResendRequest => 2,
        PacketKind::End => 3,
    }
}

/// The kind that a header byte names, if any.
pub open spec fn kind_of_code(b: u8) -> Option<PacketKind> {
    if b == 0 {
        Some(PacketKind::Write)
    } else if b == 1 {
        Some(PacketKind::Ack)
    } else if b == 2 {
        Some(PacketKind::ResendRequest)
    } else if b == 3 {
        Some(PacketKind::End)
    } else {
        None
    }
}

impl PacketKind {
    pub fn code(&self) -> (r: u8)
        ensures
            r == kind_code(*self),
    {
        match self {
            PacketKind::Write => 0,
            PacketKind::Ack => 1,
            PacketKind::ResendRequest => 2,
            PacketKind::End => 3,
        }
    }

    pub fn from_code(b: u8) -> (r: Option<PacketKind>)
        ensures
            r == kind_of_code(b),
    {
        if b == 0 {
            Some(PacketKind::Write)
        } else if b == 1 {
            Some(PacketKind::Ack)
        } else if b == 2 {
            Some(PacketKind::ResendRequest)
        } else if b == 3 {
            Some(PacketKind::End)
        } else {
            None
        }
    }
}

/// High byte of a sequence number (big-endian order).
pub open spec fn seq_hi(s: u16) -> u8 {
    (s / 256) as u8
}

/// Low byte of a sequence number.
pub open spec fn seq_lo(s: u16) -> u8 {
    (s % 256) as u8
}

/// The sequence number that two big-endian bytes hold.
pub open spec fn seq_of_bytes(hi: u8, lo: u8) -> u16 {
    (hi * 256 + lo) as u16
}

/// The three header bytes.
pub open spec fn header(seq: u16, code: u8) -> Seq<u8> {
    seq![seq_hi(seq), seq_lo(seq), code]
}

/// A whole frame: header, then payload.
pub open spec fn frame(seq: u16, kind: PacketKind, payload: Seq<u8>) -> Seq<u8> {
    header(seq, kind_code(kind)) + payload
}

/// What a datagram reads as: its sequence number, its kind byte and its payload;
/// `None` for a datagram shorter than a header.
pub open spec fn parse_frame(d: Seq<u8>) -> Option<(u16, u8, Seq<u8>)> {
    if d.len() < 3 {
        None
    } else {
        Some((seq_of_bytes(d[0], d[1]), d[2], d.subrange(3, d.len() as int)))
    }
}

pub proof fn lemma_seq_bytes(s: u16)
    ensures
        seq_of_bytes(seq_hi(s), seq_lo(s)) == s,
{
}

/// A frame reads back as the sequence number, kind and payload it was built from.
pub proof fn lemma_frame_round_trip(seq: u16, kind: PacketKind, payload: Seq<u8>)
    ensures
        frame(seq, kind, payload).len() == 3 + payload.len(),
        parse_frame(frame(seq, kind, payload)) == Some((seq, kind_code(kind), payload)),
        kind_of_code(kind_code(kind)) == Some(kind),
{
    let f = frame(seq, kind, payload);
    assert(f.subrange(3, f.len() as int) =~= payload);
}

/// The sequence number held in the first two bytes of a datagram.
pub fn read_seq(d: &[u8]) -> (r: u16)
    requires
        d@.len() >= 2,
    ensures
        r == seq_of_bytes(d@[0], d@[1]),
{
    (d[0] as u16) * 256 + d[1] as u16
}

/// Builds the frame `{seq_hi, seq_lo, kind, payload...}`.
pub fn encode_frame(seq: u16, kind: PacketKind, payload: &[u8]) -> (r: Vec<u8>)
    requires
        payload@.len() <= MAX_PAYLOAD,
    ensures
        r@ == frame(seq, kind, payload@),
{
    let mut v: Vec<u8> = Vec::with_capacity(payload.len() + HEADER_LEN);
    v.push((seq / 256) as u8);
    v.push((seq % 256) as u8);
    v.push(kind.code());
    let mut i: usize = 0;
    while i < payload.len()
        invariant
            i <= payload@.len(),
            v@ == header(seq, kind_code(kind)) + payload@.subrange(0, i as int),
        decreases payload@.len() - i,
    {
        v.push(payload[i]);
        i = i + 1;
        assert(payload@.subrange(0, i as int) =~= payload@.subrange(0, i - 1) + seq![payload@[i - 1]]);
    }
    assert(payload@.subrange(0, i as int) =~= payload@);
    v
}

/// Builds a header-only frame (acknowledgements, resend requests, end of stream).
pub fn control_frame(seq: u16, kind: PacketKind) -> (r: Vec<u8>)
    ensures
        r@ == frame(seq, kind, Seq::empty()),
        r@.len() == 3,
{
    let v: Vec<u8> = vec![(seq / 256) as u8, (seq % 256) as u8, kind.code()];
    assert(v@ =~= frame(seq, kind, Seq::empty()));
    v
}

} // verus!
