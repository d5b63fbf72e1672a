//! What the receiver hands its consumer over a whole run of arriving frames.
//!
//! The run is modelled with the same spec functions that `read_safe` is
//! specified by, folded over the datagrams in their order of arrival.
use vstd::prelude::*;
use crate::engine::{accepts, next_count, read_record};
use crate::frame::{frame, lemma_frame_round_trip, PacketKind};
use crate::seqnum::{lemma_wire_seq_distinct, wire_seq};

verus! {

/// The receiver's count after the datagrams `ds`, starting from count `c`.
pub open spec fn count_after(c: nat, ds: Seq<Seq<u8>>) -> nat
    decreases ds.len(),
{
    if ds.len() == 0 {
        c
    } else {
        next_count(count_after(c, ds.drop_last()), ds.last())
    }
}

/// The records that the reads hand out over the datagrams `ds`, in order.
pub open spec fn delivered(c: nat, ds: Seq<Seq<u8>>) -> Seq<Seq<u8>>
    decreases ds.len(),
{
    if ds.len() == 0 {
        Seq::empty()
    } else {
        let before = delivered(c, ds.drop_last());
        match read_record(count_after(c, ds.drop_last()), ds.last()) {
            Some(r) => before.push(r),
            None => before,
        }
    }
}

/// The datagrams that arrive when the frames of records `p` arrive in the order
/// `sched` (indices into `p`, in any order, repeated or missing at will).
pub open spec fn wire(p: Seq<Seq<u8>>, sched: Seq<nat>) -> Seq<Seq<u8>> {
    Seq::new(sched.len(), |j: int| frame(wire_seq(sched[j]), PacketKind::Write, p[sched[j] as int]))
}

/// Every frame arrives fewer than 2^16 records away from the one the receiver
/// expects at that moment, so that no sequence number is taken for another.
pub open spec fn within_window(c: nat, p: Seq<Seq<u8>>, sched: Seq<nat>) -> bool
    decreases sched.len(),
{
    if sched.len() == 0 {
        true
    } else {
        let k = count_after(c, wire(p, sched.drop_last()));
        &&& within_window(c, p, sched.drop_last())
        &&& sched.last() < k + 0x10000
        &&& k < sched.last() + 0x10000
    }
}

/// Every index of `sched` names a record of `p`.
pub open spec fn indices_in(p: Seq<Seq<u8>>, sched: Seq<nat>) -> bool {
    forall|j: int| 0 <= j < sched.len() ==> #[trigger] sched[j] < p.len()
}

proof fn lemma_wire_drop_last(p: Seq<Seq<u8>>, sched: Seq<nat>)
    requires
        sched.len() > 0,
    ensures
        wire(p, sched).drop_last() == wire(p, sched.drop_last()),
        wire(p, sched).last() == frame(wire_seq(sched.last()), PacketKind::Write, p[sched.last() as int]),
{
    assert(wire(p, sched).drop_last() =~= wire(p, sched.drop_last()));
}

/// One more arriving frame: it is accepted exactly when it is the expected one.
proof fn lemma_step(c: nat, p: Seq<Seq<u8>>, sched: Seq<nat>)
    requires
        sched.len() > 0,
        sched.last() < p.len(),
        sched.last() < count_after(c, wire(p, sched.drop_last())) + 0x10000,
        count_after(c, wire(p, sched.drop_last())) < sched.last() + 0x10000,
    ensures
        ({
            let k = count_after(c, wire(p, sched.drop_last()));
            let i = sched.last();
            &&& count_after(c, wire(p, sched)) == (if i == k { k + 1 } else { k })
            &&& delivered(c, wire(p, sched)) == (if i == k {
                delivered(c, wire(p, sched.drop_last())).push(p[i as int])
            } else {
                delivered(c, wire(p, sched.drop_last()))
            })
        }),
{
    let k = count_after(c, wire(p, sched.drop_last()));
    let i = sched.last();
    lemma_wire_drop_last(p, sched);
    lemma_frame_round_trip(wire_seq(i), PacketKind::Write, p[i as int]);
    lemma_wire_seq_distinct(i, k);
    let f = wire(p, sched).last();
    assert(f[2] == 0);
    assert(accepts(k, f) == (i == k));
    if i == k {
        assert(f.subrange(3, f.len() as int) == p[i as int]);
    }
}

proof fn lemma_window_prefix(c: nat, p: Seq<Seq<u8>>, sched: Seq<nat>, j: int)
    requires
        within_window(c, p, sched),
        0 <= j <= sched.len(),
    ensures
        within_window(c, p, sched.subrange(0, j)),
    decreases sched.len(),
{
    if j < sched.len() {
        assert(sched.drop_last() =~= sched.subrange(0, sched.len() - 1));
        lemma_window_prefix(c, p, sched.drop_last(), j);
        assert(sched.drop_last().subrange(0, j) =~= sched.subrange(0, j));
    } else {
        assert(sched.subrange(0, j) =~= sched);
    }
}

proof fn lemma_count_monotone(c: nat, p: Seq<Seq<u8>>, sched: Seq<nat>, j1: int, j2: int)
    requires
        0 <= j1 <= j2 <= sched.len(),
    ensures
        c <= count_after(c, wire(p, sched.subrange(0, j1))),
        count_after(c, wire(p, sched.subrange(0, j1))) <= count_after(c, wire(p, sched.subrange(0, j2))),
    decreases j2,
{
    if j2 > 0 {
        let s2 = sched.subrange(0, j2);
        lemma_wire_drop_last(p, s2);
        assert(s2.drop_last() =~= sched.subrange(0, j2 - 1));
        if j1 < j2 {
            lemma_count_monotone(c, p, sched, j1, j2 - 1);
        } else {
            lemma_count_monotone(c, p, sched, j2 - 1, j2 - 1);
        }
    } else {
        assert(wire(p, sched.subrange(0, 0)).len() == 0);
    }
}

/// Ordered delivery: whatever the order in which the frames of records `p`
/// arrive, and however often each arrives, the reads hand out `p[c]`,
/// `p[c + 1]`, ... in order, each once, skipping none: what has been handed out
/// is always a prefix of what remains of the stream.
pub proof fn lemma_ordered_delivery(c: nat, p: Seq<Seq<u8>>, sched: Seq<nat>)
    requires
        c <= p.len(),
        indices_in(p, sched),
        within_window(c, p, sched),
    ensures
        c <= count_after(c, wire(p, sched)) <= p.len(),
        delivered(c, wire(p, sched)) == p.subrange(c as int, count_after(c, wire(p, sched)) as int),
    decreases sched.len(),
{
    if sched.len() == 0 {
        assert(p.subrange(c as int, c as int) =~= Seq::<Seq<u8>>::empty());
    } else {
        let pre = sched.drop_last();
        assert(indices_in(p, pre));
        lemma_ordered_delivery(c, p, pre);
        assert(sched.last() < p.len());
        lemma_step(c, p, sched);
        let k = count_after(c, wire(p, pre));
        if sched.last() == k {
            assert(p.subrange(c as int, k + 1 as int) =~= p.subrange(c as int, k as int).push(p[k as int]));
        }
    }
}

/// Once the frames of the first `k` records have arrived in turn (the last of
/// them at `pos[k - 1]`), at least `k` records have been accepted.
proof fn lemma_accepted_in_turn(p: Seq<Seq<u8>>, sched: Seq<nat>, pos: Seq<int>, k: int)
    requires
        indices_in(p, sched),
        within_window(0, p, sched),
        pos.len() == p.len(),
        forall|i: int| 0 <= i < pos.len() ==> 0 <= #[trigger] pos[i] < sched.len() && sched[pos[i]] == i,
        forall|i: int| 0 < i < pos.len() ==> pos[i - 1] < #[trigger] pos[i],
        0 < k <= p.len(),
    ensures
        count_after(0, wire(p, sched.subrange(0, pos[k - 1] + 1))) >= k,
    decreases k,
{
    let j = pos[k - 1];
    let before = sched.subrange(0, j);
    let upto = sched.subrange(0, j + 1);
    if k > 1 {
        lemma_accepted_in_turn(p, sched, pos, k - 1);
        lemma_count_monotone(0, p, sched, pos[k - 2] + 1, j);
    }
    lemma_count_monotone(0, p, sched, 0, j);
    lemma_window_prefix(0, p, sched, j + 1);
    assert(upto.drop_last() =~= before);
    assert(upto.last() == k - 1);
    assert(indices_in(p, upto));
    lemma_step(0, p, upto);
}

/// Loss tolerance: if, past losses, reordering and duplicates, the frames of
/// records `p[0]`, `p[1]`, ... each arrive at least once after the one before
/// (at the positions `pos` of the arrival order), every record is handed out,
/// in order, exactly once.
pub proof fn lemma_loss_tolerance(p: Seq<Seq<u8>>, sched: Seq<nat>, pos: Seq<int>)
    requires
        indices_in(p, sched),
        within_window(0, p, sched),
        pos.len() == p.len(),
        forall|k: int| 0 <= k < pos.len() ==> 0 <= #[trigger] pos[k] < sched.len() && sched[pos[k]] == k,
        forall|k: int| 0 < k < pos.len() ==> pos[k - 1] < #[trigger] pos[k],
    ensures
        count_after(0, wire(p, sched)) == p.len(),
        delivered(0, wire(p, sched)) == p,
{
    let n = p.len() as int;
    lemma_ordered_delivery(0, p, sched);
    if n > 0 {
        lemma_accepted_in_turn(p, sched, pos, n);
        lemma_count_monotone(0, p, sched, pos[n - 1] + 1, sched.len() as int);
        assert(sched.subrange(0, sched.len() as int) =~= sched);
    }
    assert(p.subrange(0, n) =~= p);
}

/// Wrap safety: a stream of more than 2^16 records, whose sequence numbers
/// wrap from 0xFFFF to 0, is still handed out in order, each record once.
pub proof fn lemma_wrap_safety(p: Seq<Seq<u8>>, sched: Seq<nat>, pos: Seq<int>)
    requires
        p.len() > 0x10000,
        indices_in(p, sched),
        within_window(0, p, sched),
        pos.len() == p.len(),
        forall|k: int| 0 <= k < pos.len() ==> 0 <= #[trigger] pos[k] < sched.len() && sched[pos[k]] == k,
        forall|k: int| 0 < k < pos.len() ==> pos[k - 1] < #[trigger] pos[k],
    ensures
        wire_seq(0x10000) == wire_seq(0),
        delivered(0, wire(p, sched)) == p,
{
    lemma_loss_tolerance(p, sched, pos);
}

} // verus!
