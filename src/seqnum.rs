//! 16-bit wire sequence numbers and their wrap-aware ordering.
use vstd::prelude::*;

verus! {

/// The last sequence number before the counter wraps to zero.
pub const WRAP_SEQ: u16 = 0xFFFF;

/// A frame whose sequence number lies fewer than this many steps ahead of the
/// expected one is newer than it; anything further ahead is taken as stale.
pub const AHEAD_WINDOW: u16 = 0xC000;

/// The wire sequence number of the packet with the given running count.
pub open spec fn wire_seq(count: nat) -> u16 {
    (count % 0x10000) as u16
}

/// `s` advanced by `k` steps, modulo 2^16.
pub open spec fn seq_add(s: u16, k: nat) -> u16 {
    ((s + k) % 0x10000) as u16
}

/// How many steps forward `to` lies from `from`, modulo 2^16.
pub open spec fn forward(from: u16, to: u16) -> nat {
    ((to as int - from as int) % 0x10000) as nat
}

/// Where an arriving sequence number stands relative to the expected one.
#[derive(Clone, Copy, Debug, PartialEq, Eq, Structural)]
pub enum Arrival {
    /// It is the expected one.
    Current,
    /// It is newer: frames in between were lost.
    Ahead,
    /// It was delivered already.
    Behind,
}

pub open spec fn arrival(expected: u16, s: u16) -> Arrival {
    if forward(expected, s) == 0 {
        Arrival::Current
    } else if forward(expected, s) < AHEAD_WINDOW {
        Arrival::Ahead
    } else {
        Arrival::Behind
    }
}

pub fn wire_seq_of(count: u64) -> (r: u16)
    ensures
        r == wire_seq(count as nat),
{
    (count % 0x10000) as u16
}

pub fn forward_distance(from: u16, to: u16) -> (r: u16)
    ensures
        r == forward(from, to),
{
    if to >= from {
        to - from
    } else {
        (0x10000u32 - from as u32 + to as u32) as u16
    }
}

pub fn next_seq(s: u16) -> (r: u16)
    ensures
        r == seq_add(s, 1),
{
    if s == WRAP_SEQ {
        0
    } else {
        s + 1
    }
}

pub fn classify(expected: u16, s: u16) -> (r: Arrival)
    ensures
        r == arrival(expected, s),
{
    let d = forward_distance(expected, s);
    if d == 0 {
        Arrival::Current
    } else if d < AHEAD_WINDOW {
        Arrival::Ahead
    } else {
        Arrival::Behind
    }
}

/// Sequence numbers of counts less than 2^16 apart are equal only when the counts are.
pub proof fn lemma_wire_seq_distinct(a: nat, b: nat)
    requires
        a < b + 0x10000,
        b < a + 0x10000,
    ensures
        wire_seq(a) == wire_seq(b) <==> a == b,
{
    if wire_seq(a) == wire_seq(b) {
        assert(a % 0x10000 == b % 0x10000);
        assert(a == b) by (nonlinear_arith)
            requires
                a % 0x10000 == b % 0x10000,
                a < b + 0x10000,
                b < a + 0x10000,
        ;
    }
}

} // verus!
