//! The file transfer's use of the stream: a first record with the file's
//! length, then the file's bytes in records of at most the chosen size.
use vstd::prelude::*;

verus! {

/// Length of the record that carries the file's length.
pub const LENGTH_RECORD_LEN: usize = 8;

/// The number that eight big-endian bytes hold.
pub open spec fn be_value(s: Seq<u8>) -> u64 {
    ((s[0] as u64) << 56) | ((s[1] as u64) << 48) | ((s[2] as u64) << 40) | ((s[3] as u64) << 32) | ((
    s[4] as u64) << 24) | ((s[5] as u64) << 16) | ((s[6] as u64) << 8) | (s[7] as u64)
}

/// The eight big-endian bytes of `n`.
pub open spec fn be_bytes(n: u64) -> Seq<u8> {
    seq![
        (n >> 56u64) as u8,
        (n >> 48u64) as u8,
        (n >> 40u64) as u8,
        (n >> 32u64) as u8,
        (n >> 24u64) as u8,
        (n >> 16u64) as u8,
        (n >> 8u64) as u8,
        n as u8,
    ]
}

/// The first record of a transfer: the file's length in eight big-endian bytes.
pub fn length_record(len: u64) -> (r: Vec<u8>)
    ensures
        r@ == be_bytes(len),
{
    let mut v: Vec<u8> = Vec::with_capacity(LENGTH_RECORD_LEN);
    v.push(#[verifier::truncate] ((len >> 56u64) as u8));
    v.push(#[verifier::truncate] ((len >> 48u64) as u8));
    v.push(#[verifier::truncate] ((len >> 40u64) as u8));
    v.push(#[verifier::truncate] ((len >> 32u64) as u8));
    v.push(#[verifier::truncate] ((len >> 24u64) as u8));
    v.push(#[verifier::truncate] ((len >> 16u64) as u8));
    v.push(#[verifier::truncate] ((len >> 8u64) as u8));
    v.push(#[verifier::truncate] (len as u8));
    assert(v@ =~= be_bytes(len));
    v
}

/// The file's length that a first record announces; `None` for a record
/// shorter than eight bytes. Bytes past the eighth are ignored.
pub fn read_length(rec: &[u8]) -> (r: Option<u64>)
    ensures
        r == (if rec@.len() >= LENGTH_RECORD_LEN {
            Some(be_value(rec@))
        } else {
            None::<u64>
        }),
{
    if rec.len() < LENGTH_RECORD_LEN {
        return None;
    }
    Some(
        ((rec[0] as u64) << 56) | ((rec[1] as u64) << 48) | ((rec[2] as u64) << 40) | ((
        rec[3] as u64) << 32) | ((rec[4] as u64) << 24) | ((rec[5] as u64) << 16) | ((
        rec[6] as u64) << 8) | (rec[7] as u64),
    )
}

/// A length record reads back as the length it was made from.
pub proof fn lemma_length_round_trip(n: u64)
    ensures
        be_bytes(n).len() == LENGTH_RECORD_LEN,
        be_value(be_bytes(n)) == n,
{
    let s = be_bytes(n);
    let (b0, b1, b2, b3, b4, b5, b6, b7) = (s[0], s[1], s[2], s[3], s[4], s[5], s[6], s[7]);
    assert(((b0 as u64) << 56) | ((b1 as u64) << 48) | ((b2 as u64) << 40) | ((b3 as u64) << 32) | ((
    b4 as u64) << 24) | ((b5 as u64) << 16) | ((b6 as u64) << 8) | (b7 as u64) == n) by (bit_vector)
        requires
            b0 == (n >> 56u64) as u8,
            b1 == (n >> 48u64) as u8,
            b2 == (n >> 40u64) as u8,
            b3 == (n >> 32u64) as u8,
            b4 == (n >> 24u64) as u8,
            b5 == (n >> 16u64) as u8,
            b6 == (n >> 8u64) as u8,
            b7 == n as u8,
    ;
}

/// Whether the running byte count is worth a progress line: once in every
/// twenty records of `bitrate` bytes.
pub fn report_due(bytes: u64, bitrate: u32) -> (r: bool)
    ensures
        r == (bitrate > 0 && bytes as int % (bitrate as int * 20) < bitrate as int),
{
    if bitrate == 0 {
        return false;
    }
    let every: u64 = bitrate as u64 * 20;
    bytes % every < bitrate as u64
}

/// Whether the sender stops after a read of `read` bytes from its input: at
/// the end of the input, unless it keeps streaming.
pub fn input_finished(read: usize, stream_mode: bool) -> (r: bool)
    ensures
        r == (read == 0 && !stream_mode),
{
    read == 0 && !stream_mode
}

} // verus!
