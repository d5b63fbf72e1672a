//! IPv4 endpoints and their text `a.b.c.d:port`, written and read back.
use vstd::prelude::*;

verus! {

/// An IPv4 endpoint as the helper observes it.
#[derive(Clone, Copy, Debug, PartialEq, Eq, Structural)]
pub struct PeerAddr {
    /// The address as a big-endian number: `a.b.c.d` is `a * 2^24 + b * 2^16 + c * 2^8 + d`.
    pub ip: u32,
    pub port: u16,
}

/// The ASCII decimal digits of `n`, without leading zeros.
pub open spec fn decimal(n: nat) -> Seq<u8>
    decreases n,
{
    if n < 10 {
        seq![(48 + n) as u8]
    } else {
        decimal(n / 10).push((48 + n % 10) as u8)
    }
}

/// Octet `i` (0 to 3, most significant first) of an IPv4 address.
pub open spec fn octet(ip: u32, i: int) -> nat {
    if i == 0 {
        (ip / 0x100_0000) as nat
    } else if i == 1 {
        (ip / 0x1_0000 % 0x100) as nat
    } else if i == 2 {
        (ip / 0x100 % 0x100) as nat
    } else {
        (ip % 0x100) as nat
    }
}

/// The text `a.b.c.d:port` of an endpoint.
pub open spec fn addr_text(a: PeerAddr) -> Seq<u8> {
    decimal(octet(a.ip, 0)) + seq![46u8] + decimal(octet(a.ip, 1)) + seq![46u8] + decimal(
        octet(a.ip, 2),
    ) + seq![46u8] + decimal(octet(a.ip, 3)) + seq![58u8] + decimal(a.port as nat)
}

/// Whether a byte is an ASCII decimal digit.
pub open spec fn is_digit(b: u8) -> bool {
    48 <= b <= 57
}

/// The number that a run of decimal digits spells.
pub open spec fn digits_value(s: Seq<u8>) -> nat
    decreases s.len(),
{
    if s.len() == 0 {
        0
    } else {
        digits_value(s.drop_last()) * 10 + (s.last() - 48) as nat
    }
}

/// A number as `decimal` writes it: digits only, at least one, and no leading zero.
pub open spec fn canonical(s: Seq<u8>) -> bool {
    &&& s.len() >= 1
    &&& forall|i: int| 0 <= i < s.len() ==> is_digit(#[trigger] s[i])
    &&& (s.len() == 1 || s[0] != 48)
}

/// Where the run of digits that starts at `i` ends.
pub open spec fn run_end(t: Seq<u8>, i: int) -> int
    decreases t.len() - i,
{
    if 0 <= i < t.len() && is_digit(t[i]) {
        run_end(t, i + 1)
    } else {
        i
    }
}

/// The number at `start`, and where it ends: the whole run of digits there,
/// written as `decimal` writes it and at most `max`.
pub open spec fn field_at(t: Seq<u8>, start: int, max: nat) -> Option<(nat, int)> {
    let e = run_end(t, start);
    let s = t.subrange(start, e);
    if canonical(s) && digits_value(s) <= max {
        Some((digits_value(s), e))
    } else {
        None
    }
}

/// The endpoint that the text `a.b.c.d:port` names.
pub open spec fn parse_addr_spec(t: Seq<u8>) -> Option<PeerAddr> {
    match field_at(t, 0, 255) {
        None => None,
        Some((a, e0)) => if e0 >= t.len() || t[e0] != 46 {
            None
        } else {
            match field_at(t, e0 + 1, 255) {
                None => None,
                Some((b, e1)) => if e1 >= t.len() || t[e1] != 46 {
                    None
                } else {
                    match field_at(t, e1 + 1, 255) {
                        None => None,
                        Some((c, e2)) => if e2 >= t.len() || t[e2] != 46 {
                            None
                        } else {
                            match field_at(t, e2 + 1, 255) {
                                None => None,
                                Some((d, e3)) => if e3 >= t.len() || t[e3] != 58 {
                                    None
                                } else {
                                    match field_at(t, e3 + 1, 65535) {
                                        None => None,
                                        Some((port, e4)) => if e4 != t.len() {
                                            None
                                        } else {
                                            Some(
                                                PeerAddr {
                                                    ip: (a * 0x100_0000 + b * 0x1_0000 + c * 0x100
                                                        + d) as u32,
                                                    port: port as u16,
                                                },
                                            )
                                        },
                                    }
                                },
                            }
                        },
                    }
                },
            }
        },
    }
}

proof fn lemma_decimal_canonical(n: nat)
    ensures
        canonical(decimal(n)),
        digits_value(decimal(n)) == n,
        n >= 1 ==> decimal(n)[0] != 48,
    decreases n,
{
    let s = decimal(n);
    if n >= 10 {
        lemma_decimal_canonical(n / 10);
        assert(s.drop_last() == decimal(n / 10));
        assert(s[0] == decimal(n / 10)[0]);
        assert(n == (n / 10) * 10 + n % 10);
    } else {
        assert(s.drop_last() =~= Seq::<u8>::empty());
        assert(digits_value(s.drop_last()) == 0);
    }
}

proof fn lemma_canonical_value_positive(s: Seq<u8>)
    requires
        canonical(s),
        s.len() >= 2,
    ensures
        digits_value(s) >= 10,
        digits_value(s.drop_last()) >= 1,
    decreases s.len(),
{
    let p = s.drop_last();
    if p.len() >= 2 {
        assert(canonical(p));
        lemma_canonical_value_positive(p);
    } else {
        assert(p.drop_last() =~= Seq::<u8>::empty());
        assert(digits_value(p.drop_last()) == 0);
        assert(p.last() == s[0]);
        assert(digits_value(p) == (p[0] - 48) as nat);
    }
}

proof fn lemma_canonical_is_decimal(s: Seq<u8>)
    requires
        canonical(s),
    ensures
        s == decimal(digits_value(s)),
    decreases s.len(),
{
    let v = digits_value(s);
    if s.len() == 1 {
        assert(s.drop_last() =~= Seq::<u8>::empty());
        assert(digits_value(s.drop_last()) == 0);
        assert(v == s[0] - 48);
        assert(s =~= seq![(48 + v) as u8]);
    } else {
        let p = s.drop_last();
        assert(canonical(p));
        lemma_canonical_is_decimal(p);
        lemma_canonical_value_positive(s);
        let w = digits_value(p);
        let d = (s.last() - 48) as nat;
        assert(v == w * 10 + d);
        assert(v / 10 == w && v % 10 == d) by (nonlinear_arith)
            requires
                v == w * 10 + d,
                d < 10,
        ;
        assert(s =~= decimal(w).push((48 + d) as u8));
    }
}

/// The digits of `n` at `start`, followed by a non-digit or the end, form the run there.
proof fn lemma_run_of_decimal(t: Seq<u8>, start: int, n: nat, i: int)
    requires
        0 <= start <= i <= start + decimal(n).len(),
        start + decimal(n).len() <= t.len(),
        t.subrange(start, start + decimal(n).len()) == decimal(n),
        start + decimal(n).len() == t.len() || !is_digit(t[start + decimal(n).len()]),
    ensures
        run_end(t, i) == start + decimal(n).len(),
    decreases start + decimal(n).len() - i,
{
    lemma_decimal_canonical(n);
    let e = start + decimal(n).len();
    if i < e {
        assert(t[i] == decimal(n)[i - start]);
        lemma_run_of_decimal(t, start, n, i + 1);
    }
}

/// The field at `start` reads back a number written there by `decimal`.
proof fn lemma_field_of_decimal(t: Seq<u8>, start: int, n: nat, max: nat)
    requires
        0 <= start,
        n <= max,
        start + decimal(n).len() <= t.len(),
        t.subrange(start, start + decimal(n).len()) == decimal(n),
        start + decimal(n).len() == t.len() || !is_digit(t[start + decimal(n).len()]),
    ensures
        field_at(t, start, max) == Some((n, start + decimal(n).len())),
{
    lemma_run_of_decimal(t, start, n, start);
    lemma_decimal_canonical(n);
}

proof fn lemma_octets(a: u32, b: u32, c: u32, d: u32)
    requires
        a < 256,
        b < 256,
        c < 256,
        d < 256,
    ensures
        octet((a * 0x100_0000 + b * 0x1_0000 + c * 0x100 + d) as u32, 0) == a,
        octet((a * 0x100_0000 + b * 0x1_0000 + c * 0x100 + d) as u32, 1) == b,
        octet((a * 0x100_0000 + b * 0x1_0000 + c * 0x100 + d) as u32, 2) == c,
        octet((a * 0x100_0000 + b * 0x1_0000 + c * 0x100 + d) as u32, 3) == d,
{
    assert(((a * 0x100_0000 + b * 0x1_0000 + c * 0x100 + d) as u32) / 0x100_0000 == a
        && ((a * 0x100_0000 + b * 0x1_0000 + c * 0x100 + d) as u32) / 0x1_0000 % 0x100 == b
        && ((a * 0x100_0000 + b * 0x1_0000 + c * 0x100 + d) as u32) / 0x100 % 0x100 == c
        && ((a * 0x100_0000 + b * 0x1_0000 + c * 0x100 + d) as u32) % 0x100 == d) by (bit_vector)
        requires
            a < 256,
            b < 256,
            c < 256,
            d < 256,
    ;
}

proof fn lemma_octets_split(ip: u32)
    ensures
        octet(ip, 0) < 256,
        octet(ip, 1) < 256,
        octet(ip, 2) < 256,
        octet(ip, 3) < 256,
        ip == (octet(ip, 0) * 0x100_0000 + octet(ip, 1) * 0x1_0000 + octet(ip, 2) * 0x100 + octet(ip, 3)) as u32,
{
    assert(ip / 0x100_0000 < 256 && ip == ((ip / 0x100_0000) * 0x100_0000 + (ip / 0x1_0000 % 0x100)
        * 0x1_0000 + (ip / 0x100 % 0x100) * 0x100 + ip % 0x100)) by (bit_vector);
}

/// Address round trip: the text of an endpoint parses back to that endpoint.
pub proof fn lemma_address_round_trip(a: PeerAddr)
    ensures
        parse_addr_spec(addr_text(a)) == Some(a),
{
    let t = addr_text(a);
    let (o0, o1, o2, o3) = (octet(a.ip, 0), octet(a.ip, 1), octet(a.ip, 2), octet(a.ip, 3));
    lemma_octets_split(a.ip);
    let (d0, d1, d2, d3, d4) = (decimal(o0), decimal(o1), decimal(o2), decimal(o3), decimal(a.port as nat));
    let e0 = d0.len() as int;
    let e1 = e0 + 1 + d1.len();
    let e2 = e1 + 1 + d2.len();
    let e3 = e2 + 1 + d3.len();
    let e4 = e3 + 1 + d4.len();
    assert(t.len() == e4);
    assert(t.subrange(0, e0) =~= d0);
    assert(t.subrange(e0 + 1, e1) =~= d1);
    assert(t.subrange(e1 + 1, e2) =~= d2);
    assert(t.subrange(e2 + 1, e3) =~= d3);
    assert(t.subrange(e3 + 1, e4) =~= d4);
    assert(t[e0] == 46 && t[e1] == 46 && t[e2] == 46 && t[e3] == 58);
    lemma_field_of_decimal(t, 0, o0, 255);
    lemma_field_of_decimal(t, e0 + 1, o1, 255);
    lemma_field_of_decimal(t, e1 + 1, o2, 255);
    lemma_field_of_decimal(t, e2 + 1, o3, 255);
    lemma_field_of_decimal(t, e3 + 1, a.port as nat, 65535);
}

/// Only the text of an endpoint parses, and it parses to that endpoint.
pub proof fn lemma_parse_sound(t: Seq<u8>)
    ensures
        parse_addr_spec(t) matches Some(a) ==> t == addr_text(a),
{
    if let Some(a) = parse_addr_spec(t) {
        let (v0, e0) = field_at(t, 0, 255)->Some_0;
        let (v1, e1) = field_at(t, e0 + 1, 255)->Some_0;
        let (v2, e2) = field_at(t, e1 + 1, 255)->Some_0;
        let (v3, e3) = field_at(t, e2 + 1, 255)->Some_0;
        let (v4, e4) = field_at(t, e3 + 1, 65535)->Some_0;
        lemma_run_bounds(t, 0);
        lemma_run_bounds(t, e0 + 1);
        lemma_run_bounds(t, e1 + 1);
        lemma_run_bounds(t, e2 + 1);
        lemma_run_bounds(t, e3 + 1);
        lemma_canonical_is_decimal(t.subrange(0, e0));
        lemma_canonical_is_decimal(t.subrange(e0 + 1, e1));
        lemma_canonical_is_decimal(t.subrange(e1 + 1, e2));
        lemma_canonical_is_decimal(t.subrange(e2 + 1, e3));
        lemma_canonical_is_decimal(t.subrange(e3 + 1, e4));
        lemma_octets(v0 as u32, v1 as u32, v2 as u32, v3 as u32);
        assert(t =~= addr_text(a));
    }
}

proof fn lemma_run_bounds(t: Seq<u8>, i: int)
    requires
        0 <= i,
    ensures
        i <= run_end(t, i),
        i <= t.len() ==> run_end(t, i) <= t.len(),
    decreases t.len() - i,
{
    if 0 <= i < t.len() && is_digit(t[i]) {
        lemma_run_bounds(t, i + 1);
    }
}

/// `10^n`.
pub open spec fn ten_pow(n: nat) -> nat
    decreases n,
{
    if n == 0 {
        1
    } else {
        10 * ten_pow((n - 1) as nat)
    }
}

proof fn lemma_small_ten_pow(m: nat)
    ensures
        m <= 5 ==> ten_pow(m) <= 100000,
        m <= 4 ==> ten_pow(m) <= 10000,
        m <= 3 ==> ten_pow(m) <= 1000,
        m <= 2 ==> ten_pow(m) <= 100,
        m <= 1 ==> ten_pow(m) <= 10,
    decreases m,
{
    if m > 0 {
        lemma_small_ten_pow((m - 1) as nat);
    }
}

/// The number at `start`, and where it ends, as `field_at` reads it.
fn parse_field(t: &[u8], start: usize, max: u32) -> (r: Option<(u32, usize)>)
    requires
        start <= t@.len(),
        max <= 65535,
    ensures
        match r {
            None => field_at(t@, start as int, max as nat) is None,
            Some((v, e)) => field_at(t@, start as int, max as nat) == Some((v as nat, e as int)),
        },
{
    let mut i: usize = start;
    while i < t.len() && t[i] >= 48 && t[i] <= 57
        invariant
            start <= i <= t@.len(),
            run_end(t@, start as int) == run_end(t@, i as int),
            forall|j: int| start <= j < i ==> is_digit(#[trigger] t@[j]),
        decreases t@.len() - i,
    {
        i = i + 1;
    }
    let e = i;
    let ghost run = t@.subrange(start as int, e as int);
    assert(run_end(t@, start as int) == e);
    if e == start {
        return None;
    }
    if e - start > 5 {
        proof {
            if canonical(run) {
                lemma_canonical_is_decimal(run);
                lemma_decimal_shape(digits_value(run));
            }
        }
        return None;
    }
    if e - start > 1 && t[start] == 48 {
        return None;
    }
    let mut v: u32 = 0;
    let mut k: usize = start;
    while k < e
        invariant
            start <= k <= e <= t@.len(),
            e - start <= 5,
            forall|j: int| start <= j < e ==> is_digit(#[trigger] t@[j]),
            v == digits_value(t@.subrange(start as int, k as int)),
            v < ten_pow((k - start) as nat),
        decreases e - k,
    {
        proof {
            lemma_small_ten_pow((k - start) as nat);
            assert(t@.subrange(start as int, k + 1).drop_last() =~= t@.subrange(start as int, k as int));
        }
        let d = t[k] - 48;
        v = v * 10 + d as u32;
        k = k + 1;
    }
    assert(canonical(run));
    if v <= max {
        Some((v, e))
    } else {
        None
    }
}

/// Reads the text `a.b.c.d:port` that a helper's reply carries: exactly the
/// texts that `format_addr` writes are read, each as the endpoint it was written for.
pub fn parse_addr(t: &[u8]) -> (r: Option<PeerAddr>)
    ensures
        r == parse_addr_spec(t@),
        r matches Some(a) ==> t@ == addr_text(a),
        forall|a: PeerAddr| t@ == addr_text(a) ==> r == Some(a),
{
    let r = parse_fields(t);
    proof {
        lemma_parse_sound(t@);
        assert forall|a: PeerAddr| t@ == addr_text(a) implies parse_addr_spec(t@) == Some(a) by {
            lemma_address_round_trip(a);
        }
    }
    r
}

fn parse_fields(t: &[u8]) -> (r: Option<PeerAddr>)
    ensures
        r == parse_addr_spec(t@),
{
    let (a, e0) = match parse_field(t, 0, 255) {
        Some(x) => x,
        None => return None,
    };
    if e0 >= t.len() || t[e0] != 46 {
        return None;
    }
    let (b, e1) = match parse_field(t, e0 + 1, 255) {
        Some(x) => x,
        None => return None,
    };
    if e1 >= t.len() || t[e1] != 46 {
        return None;
    }
    let (c, e2) = match parse_field(t, e1 + 1, 255) {
        Some(x) => x,
        None => return None,
    };
    if e2 >= t.len() || t[e2] != 46 {
        return None;
    }
    let (d, e3) = match parse_field(t, e2 + 1, 255) {
        Some(x) => x,
        None => return None,
    };
    if e3 >= t.len() || t[e3] != 58 {
        return None;
    }
    let (port, e4) = match parse_field(t, e3 + 1, 65535) {
        Some(x) => x,
        None => return None,
    };
    if e4 != t.len() {
        return None;
    }
    let ip: u32 = a * 0x100_0000 + b * 0x1_0000 + c * 0x100 + d;
    Some(PeerAddr { ip, port: port as u16 })
}


/// Appends the decimal digits of `n`.
pub(crate) fn push_decimal(v: &mut Vec<u8>, n: u16)
    ensures
        final(v)@ == old(v)@ + decimal(n as nat),
    decreases n,
{
    if n >= 10 {
        push_decimal(v, n / 10);
    }
    v.push(48 + (n % 10) as u8);
    proof {
        if n >= 10 {
            assert(old(v)@ + decimal(n as nat) =~= old(v)@ + decimal((n / 10) as nat) + seq![
                (48 + n % 10) as u8,
            ]);
        } else {
            assert(old(v)@ + decimal(n as nat) =~= old(v)@.push((48 + n) as u8));
        }
    }
}

/// The text `a.b.c.d:port` of an endpoint.
pub fn format_addr(a: &PeerAddr) -> (r: Vec<u8>)
    ensures
        r@ == addr_text(*a),
{
    let mut v: Vec<u8> = Vec::new();
    push_decimal(&mut v, (a.ip / 0x100_0000) as u16);
    v.push(46);
    push_decimal(&mut v, (a.ip / 0x1_0000 % 0x100) as u16);
    v.push(46);
    push_decimal(&mut v, (a.ip / 0x100 % 0x100) as u16);
    v.push(46);
    push_decimal(&mut v, (a.ip % 0x100) as u16);
    v.push(58);
    push_decimal(&mut v, a.port);
    assert(v@ =~= addr_text(*a));
    v
}


/// The digits of `n` never end in a zero byte, and there are at most as
/// many as the bound on `n` allows.
pub proof fn lemma_decimal_shape(n: nat)
    ensures
        decimal(n).len() >= 1,
        decimal(n).last() != 0,
        n < 10 ==> decimal(n).len() == 1,
        n < 100 ==> decimal(n).len() <= 2,
        n < 1000 ==> decimal(n).len() <= 3,
        n < 10000 ==> decimal(n).len() <= 4,
        n < 100000 ==> decimal(n).len() <= 5,
    decreases n,
{
    if n >= 10 {
        lemma_decimal_shape(n / 10);
        assert(n < 100 ==> n / 10 < 10);
        assert(n < 1000 ==> n / 10 < 100);
        assert(n < 10000 ==> n / 10 < 1000);
        assert(n < 100000 ==> n / 10 < 10000);
    }
}


} // verus!
