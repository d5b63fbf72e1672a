//! The rendezvous exchange: phrases, and the helper's pairing of two clients
//! that present the same one.
use vstd::prelude::*;
use crate::address::{addr_text, decimal, format_addr, lemma_decimal_shape, octet, push_decimal, PeerAddr};

verus! {

/// Length of every rendezvous datagram.
pub const PHRASE_LEN: usize = 200;

/// `t` cut or right-padded with zero bytes to `PHRASE_LEN` bytes.
pub open spec fn padded(t: Seq<u8>) -> Seq<u8> {
    Seq::new(PHRASE_LEN as nat, |i: int| if i < t.len() { t[i] } else { 0u8 })
}

/// `t` without its trailing zero bytes.
pub open spec fn strip_trailing_zeros(t: Seq<u8>) -> Seq<u8>
    decreases t.len(),
{
    if t.len() > 0 && t.last() == 0 {
        strip_trailing_zeros(t.drop_last())
    } else {
        t
    }
}

/// `t` cut or right-padded with zero bytes to `PHRASE_LEN` bytes: the datagram
/// a client sends the helper for its phrase, or the helper sends for an address.
pub fn pad_to_frame(t: &[u8]) -> (r: Vec<u8>)
    ensures
        r@ == padded(t@),
{
    let mut v: Vec<u8> = Vec::with_capacity(PHRASE_LEN);
    let mut i: usize = 0;
    while i < PHRASE_LEN
        invariant
            i <= PHRASE_LEN,
            v@.len() == i,
            forall|j: int| 0 <= j < i ==> v@[j] == (if j < t@.len() { t@[j] } else { 0u8 }),
        decreases PHRASE_LEN - i,
    {
        if i < t.len() {
            v.push(t[i]);
        } else {
            v.push(0);
        }
        i = i + 1;
    }
    assert(v@ =~= padded(t@));
    v
}

/// The text of a helper's reply: the datagram without its trailing zero bytes.
pub fn reply_text(d: &[u8]) -> (r: Vec<u8>)
    ensures
        r@ == strip_trailing_zeros(d@),
{
    let mut end: usize = d.len();
    assert(d@.subrange(0, end as int) =~= d@);
    while end > 0 && d[end - 1] == 0
        invariant
            end <= d@.len(),
            strip_trailing_zeros(d@) == strip_trailing_zeros(d@.subrange(0, end as int)),
        decreases end,
    {
        assert(d@.subrange(0, end as int).drop_last() =~= d@.subrange(0, end - 1));
        end = end - 1;
    }
    let mut v: Vec<u8> = Vec::with_capacity(end);
    let mut i: usize = 0;
    while i < end
        invariant
            i <= end <= d@.len(),
            v@ == d@.subrange(0, i as int),
        decreases end - i,
    {
        v.push(d[i]);
        i = i + 1;
        assert(v@ =~= d@.subrange(0, i as int));
    }
    v
}

/// The phrase prefix `my-cool-phrase-` in ASCII.
pub open spec fn phrase_stem() -> Seq<u8> {
    seq![109u8, 121, 45, 99, 111, 111, 108, 45, 112, 104, 114, 97, 115, 101, 45]
}

/// The phrase `my-cool-phrase-<n>`.
pub fn numbered_phrase(n: u16) -> (r: Vec<u8>)
    ensures
        r@ == phrase_stem() + decimal(n as nat),
{
    let mut v: Vec<u8> = vec![109u8, 121, 45, 99, 111, 111, 108, 45, 112, 104, 114, 97, 115, 101, 45];
    assert(v@ =~= phrase_stem());
    push_decimal(&mut v, n);
    v
}

/// Relies on `rand::random`: a value drawn from the thread-local generator;
/// nothing is promised of it.
pub assume_specification<T>[ rand::random::<T> ]() -> T
    where
        rand::distributions::Standard: rand::distributions::Distribution<T>,
;

/// A phrase to suggest to a user: `my-cool-phrase-` and a random number.
pub fn suggested_phrase() -> (r: Vec<u8>)
    ensures
        exists|n: u16| r@ == phrase_stem() + decimal(n as nat),
{
    let n: u16 = rand::random::<u16>();
    numbered_phrase(n)
}

/// The two datagrams a pairing sends.
pub struct Pairing {
    /// The client that arrived first with the phrase.
    pub first: PeerAddr,
    /// For the first client: the second one's address.
    pub to_first: Vec<u8>,
    /// For the second client: the first one's address.
    pub to_second: Vec<u8>,
}

/// The pairing due when `from` sends `d` while `m` holds the waiting clients:
/// the first client, and the datagrams for it and for `from`.
pub open spec fn pairing_of(m: Map<Seq<u8>, PeerAddr>, d: Seq<u8>, from: PeerAddr) -> Option<
    (PeerAddr, Seq<u8>, Seq<u8>),
> {
    if d.len() == PHRASE_LEN && m.contains_key(d) {
        Some((m[d], padded(addr_text(from)), padded(addr_text(m[d]))))
    } else {
        None
    }
}

/// The waiting clients after `from` sends `d`: a phrase seen for the first time
/// waits; a phrase seen the second time is paired and forgotten.
pub open spec fn waiting_after(m: Map<Seq<u8>, PeerAddr>, d: Seq<u8>, from: PeerAddr) -> Map<
    Seq<u8>,
    PeerAddr,
> {
    if d.len() != PHRASE_LEN {
        m
    } else if m.contains_key(d) {
        m.remove(d)
    } else {
        m.insert(d, from)
    }
}

proof fn lemma_strip_padding(t: Seq<u8>, m: nat)
    requires
        t.len() >= 1,
        t.last() != 0,
    ensures
        strip_trailing_zeros(t + Seq::new(m, |i: int| 0u8)) == t,
    decreases m,
{
    let z = Seq::new(m, |i: int| 0u8);
    if m == 0 {
        assert(t + z =~= t);
    } else {
        let z1 = Seq::new((m - 1) as nat, |i: int| 0u8);
        assert((t + z).drop_last() =~= t + z1);
        lemma_strip_padding(t, (m - 1) as nat);
    }
}

/// A client that strips the zero padding from the helper's reply reads exactly
/// the partner's address text.
pub proof fn lemma_reply_recovers_address(a: PeerAddr)
    ensures
        addr_text(a).len() <= 21,
        strip_trailing_zeros(padded(addr_text(a))) == addr_text(a),
{
    let t = addr_text(a);
    lemma_decimal_shape(octet(a.ip, 0));
    lemma_decimal_shape(octet(a.ip, 1));
    lemma_decimal_shape(octet(a.ip, 2));
    lemma_decimal_shape(octet(a.ip, 3));
    lemma_decimal_shape(a.port as nat);
    assert(t.last() == decimal(a.port as nat).last());
    let m = (PHRASE_LEN - t.len()) as nat;
    assert(padded(t) =~= t + Seq::new(m, |i: int| 0u8));
    lemma_strip_padding(t, m);
}

/// Helper pairing: when two clients send the same phrase, one after the other,
/// to a helper where that phrase is not waiting, the second arrival pairs them:
/// the first gets the second's address and the second the first's, both
/// zero-padded to `PHRASE_LEN` bytes, and the phrase is forgotten.
pub proof fn lemma_helper_pairs_same_phrase(
    m: Map<Seq<u8>, PeerAddr>,
    phrase: Seq<u8>,
    a: PeerAddr,
    b: PeerAddr,
)
    requires
        phrase.len() == PHRASE_LEN,
        !m.contains_key(phrase),
    ensures
        pairing_of(m, phrase, a) is None,
        pairing_of(waiting_after(m, phrase, a), phrase, b) == Some(
            (a, padded(addr_text(b)), padded(addr_text(a))),
        ),
        !waiting_after(waiting_after(m, phrase, a), phrase, b).contains_key(phrase),
{
}

/// Clients with different phrases, neither of them waiting, are not paired:
/// neither arrival sends anything.
pub proof fn lemma_helper_keeps_distinct_phrases(
    m: Map<Seq<u8>, PeerAddr>,
    p1: Seq<u8>,
    p2: Seq<u8>,
    a: PeerAddr,
    b: PeerAddr,
)
    requires
        p1 != p2,
        !m.contains_key(p1),
        !m.contains_key(p2),
    ensures
        pairing_of(m, p1, a) is None,
        pairing_of(waiting_after(m, p1, a), p2, b) is None,
{
}

/// The helper's state: each phrase that one client has presented, with that
/// client's address.
pub struct Helper {
    waiting: Vec<(Vec<u8>, PeerAddr)>,
}

impl View for Helper {
    type V = Map<Seq<u8>, PeerAddr>;

    closed spec fn view(&self) -> Map<Seq<u8>, PeerAddr> {
        Map::new(
            |k: Seq<u8>| exists|i: int| 0 <= i < self.waiting@.len() && (#[trigger] self.waiting@[i]).0@ == k,
            |k: Seq<u8>| self.waiting@[self.index_of(k)].1,
        )
    }
}

impl Helper {
    spec fn index_of(&self, k: Seq<u8>) -> int {
        choose|i: int| 0 <= i < self.waiting@.len() && self.waiting@[i].0@ == k
    }

    /// No phrase waits twice.
    pub closed spec fn wf(&self) -> bool {
        forall|i: int, j: int|
            0 <= i < self.waiting@.len() && 0 <= j < self.waiting@.len() && i != j ==> (
            #[trigger] self.waiting@[i]).0@ != (#[trigger] self.waiting@[j]).0@
    }

    pub fn new() -> (r: Helper)
        ensures
            r.wf(),
            r@ == Map::<Seq<u8>, PeerAddr>::empty(),
    {
        let r = Helper { waiting: Vec::new() };
        assert(r@ =~= Map::<Seq<u8>, PeerAddr>::empty());
        r
    }

    proof fn lemma_at(&self, i: int)
        requires
            self.wf(),
            0 <= i < self.waiting@.len(),
        ensures
            self@.contains_key(self.waiting@[i].0@),
            self@[self.waiting@[i].0@] == self.waiting@[i].1,
    {
        let k = self.waiting@[i].0@;
        assert(self@.contains_key(k));
        let j = self.index_of(k);
        assert(self.waiting@[j].0@ == k);
    }

    fn find(&self, d: &[u8]) -> (r: Option<usize>)
        requires
            self.wf(),
        ensures
            match r {
                Some(i) => i < self.waiting@.len() && self.waiting@[i as int].0@ == d@,
                None => !self@.contains_key(d@),
            },
    {
        let mut i: usize = 0;
        while i < self.waiting.len()
            invariant
                i <= self.waiting@.len(),
                forall|j: int| 0 <= j < i ==> (#[trigger] self.waiting@[j]).0@ != d@,
            decreases self.waiting@.len() - i,
        {
            if bytes_equal(self.waiting[i].0.as_slice(), d) {
                return Some(i);
            }
            i = i + 1;
        }
        None
    }

    /// Whether a client waits with phrase `d`.
    pub fn is_waiting(&self, d: &[u8]) -> (r: bool)
        requires
            self.wf(),
        ensures
            r == self@.contains_key(d@),
    {
        match self.find(d) {
            Some(i) => {
                proof {
                    self.lemma_at(i as int);
                }
                true
            },
            None => false,
        }
    }

    /// Handles one datagram `d` from `from`. Datagrams that are not
    /// `PHRASE_LEN` bytes long are ignored. A phrase seen for the first time
    /// waits with its sender's address; the second sender of a waiting phrase
    /// is paired with the first: each gets the other's address, and the phrase
    /// is forgotten.
    pub fn arrive(&mut self, d: &[u8], from: PeerAddr) -> (r: Option<Pairing>)
        requires
            old(self).wf(),
        ensures
            final(self).wf(),
            final(self)@ == waiting_after(old(self)@, d@, from),
            match pairing_of(old(self)@, d@, from) {
                None => r is None,
                Some((first, to_first, to_second)) => r matches Some(pr) && pr.first == first
                    && pr.to_first@ == to_first && pr.to_second@ == to_second,
            },
    {
        if d.len() != PHRASE_LEN {
            return None;
        }
        match self.find(d) {
            Some(i) => {
                proof {
                    self.lemma_at(i as int);
                }
                let first = self.waiting[i].1;
                let to_first = pad_to_frame(format_addr(&from).as_slice());
                let to_second = pad_to_frame(format_addr(&first).as_slice());
                let ghost before = self.waiting@;
                self.waiting.remove(i);
                proof {
                    assert forall|k: Seq<u8>| #[trigger] self@.contains_key(k) == old(self)@.remove(d@).contains_key(k) by {
                        if self@.contains_key(k) {
                            let j = choose|j: int| 0 <= j < self.waiting@.len() && (#[trigger] self.waiting@[j]).0@ == k;
                            if j < i {
                                assert(before[j] == self.waiting@[j]);
                            } else {
                                assert(before[j + 1] == self.waiting@[j]);
                            }
                        }
                        if old(self)@.remove(d@).contains_key(k) {
                            let j = choose|j: int| 0 <= j < before.len() && (#[trigger] before[j]).0@ == k;
                            if j < i {
                                assert(self.waiting@[j] == before[j]);
                            } else {
                                assert(self.waiting@[j - 1] == before[j]);
                            }
                        }
                    }
                    assert forall|k: Seq<u8>| #[trigger] self@.contains_key(k) implies self@[k] == old(self)@.remove(d@)[k] by {
                        let j = self.index_of(k);
                        if j < i {
                            assert(before[j] == self.waiting@[j]);
                            old(self).lemma_at(j);
                        } else {
                            assert(before[j + 1] == self.waiting@[j]);
                            old(self).lemma_at(j + 1);
                        }
                    }
                    assert(self@ =~= old(self)@.remove(d@));
                }
                Some(Pairing { first, to_first, to_second })
            },
            None => {
                let key = slice_copy(d);
                let ghost before = self.waiting@;
                self.waiting.push((key, from));
                proof {
                    let n = before.len() as int;
                    assert(self.waiting@[n].0@ == d@);
                    assert forall|k: Seq<u8>| #[trigger] self@.contains_key(k) == old(self)@.insert(d@, from).contains_key(k) by {
                        if old(self)@.contains_key(k) && k != d@ {
                            let j = choose|j: int| 0 <= j < before.len() && (#[trigger] before[j]).0@ == k;
                            assert(self.waiting@[j] == before[j]);
                        }
                    }
                    assert forall|k: Seq<u8>| #[trigger] self@.contains_key(k) implies self@[k] == old(self)@.insert(d@, from)[k] by {
                        let j = self.index_of(k);
                        if j < n {
                            assert(before[j] == self.waiting@[j]);
                            old(self).lemma_at(j);
                        } else {
                            assert(j == n);
                        }
                    }
                    assert(self@ =~= old(self)@.insert(d@, from));
                }
                None
            },
        }
    }
}

fn bytes_equal(a: &[u8], b: &[u8]) -> (r: bool)
    ensures
        r == (a@ == b@),
{
    if a.len() != b.len() {
        return false;
    }
    let mut i: usize = 0;
    while i < a.len()
        invariant
            i <= a@.len() == b@.len(),
            forall|j: int| 0 <= j < i ==> a@[j] == b@[j],
        decreases a@.len() - i,
    {
        if a[i] != b[i] {
            return false;
        }
        i = i + 1;
    }
    assert(a@ =~= b@);
    true
}

fn slice_copy(d: &[u8]) -> (r: Vec<u8>)
    ensures
        r@ == d@,
{
    let mut v: Vec<u8> = Vec::with_capacity(d.len());
    let mut i: usize = 0;
    while i < d.len()
        invariant
            i <= d@.len(),
            v@ == d@.subrange(0, i as int),
        decreases d@.len() - i,
    {
        v.push(d[i]);
        i = i + 1;
        assert(v@ =~= d@.subrange(0, i as int));
    }
    assert(v@ =~= d@);
    v
}

} // verus!
