use vstd::prelude::*;

verus! {

/// An ASCII decimal digit.
pub open spec fn is_digit(c: u8) -> bool {
    48 <= c && c <= 57
}

/// The canonical decimal text of `n`: no leading zeros, "0" for zero.
pub open spec fn dec(n: nat) -> Seq<u8>
    decreases n,
{
    if n < 10 {
        seq![(n + 48) as u8]
    } else {
        dec(n / 10).push((n % 10 + 48) as u8)
    }
}

/// The number that a run of decimal digits denotes.
pub open spec fn digits_value(s: Seq<u8>) -> nat
    decreases s.len(),
{
    if s.len() == 0 {
        0
    } else {
        digits_value(s.drop_last()) * 10 + (s.last() - 48) as nat
    }
}

/// A non-empty run of digits without a leading zero (but for "0" itself).
pub open spec fn canonical_digits(s: Seq<u8>) -> bool {
    &&& s.len() >= 1
    &&& forall|k: int| 0 <= k < s.len() ==> is_digit(#[trigger] s[k])
    &&& (s.len() > 1 ==> s[0] != 48)
}

/// The four octets of an IPv4 address, most significant first.
#[derive(Clone, Copy, Debug, PartialEq, Eq, Hash, Structural)]
pub struct Ipv4 {
    pub a: u8,
    pub b: u8,
    pub c: u8,
    pub d: u8,
}

/// An endpoint of the simulated network: an IPv4 address and a port.
#[derive(Clone, Copy, Debug, PartialEq, Eq, Hash, Structural)]
pub struct PeerAddress {
    pub ip: Ipv4,
    pub port: u16,
}

/// The scheme part of every request target, `http://`.
pub open spec fn scheme() -> Seq<u8> {
    seq![104u8, 116u8, 116u8, 112u8, 58u8, 47u8, 47u8]
}

pub open spec fn dot() -> u8 {
    46
}

pub open spec fn colon() -> u8 {
    58
}

pub open spec fn slash() -> u8 {
    47
}

pub open spec fn question() -> u8 {
    63
}

/// `http://a.b.c.d:port`: the scheme and authority of a target toward `a`.
pub open spec fn origin(a: PeerAddress) -> Seq<u8> {
    scheme() + dec(a.ip.a as nat).push(dot()) + dec(a.ip.b as nat).push(dot()) + dec(
        a.ip.c as nat,
    ).push(dot()) + dec(a.ip.d as nat).push(colon()) + dec(a.port as nat)
}

/// The target `t` names `a` as its destination: it starts with `origin(a)`,
/// followed by nothing, a path or a query.
pub open spec fn targets(t: Seq<u8>, a: PeerAddress) -> bool {
    let n = origin(a).len();
    &&& t.len() >= n
    &&& t.subrange(0, n as int) == origin(a)
    &&& (t.len() == n || t[n as int] == slash() || t[n as int] == question())
}

/// The full target of a request toward `a`: `origin(a)/path`, and `?query`
/// where a query is given.
pub open spec fn target_text(a: PeerAddress, path: Seq<u8>, query: Option<Seq<u8>>) -> Seq<u8> {
    let base = origin(a).push(slash()) + path;
    match query {
        Some(q) => base.push(question()) + q,
        None => base,
    }
}

/// The address of the simulated endpoint on the loopback interface at `port`.
pub open spec fn loopback_spec(port: u16) -> PeerAddress {
    PeerAddress { ip: Ipv4 { a: 127, b: 0, c: 0, d: 1 }, port }
}

pub proof fn lemma_dec_digits(n: nat)
    ensures
        canonical_digits(dec(n)),
        n >= 1 ==> dec(n)[0] != 48,
        digits_value(dec(n)) == n,
        n < 256 ==> dec(n).len() <= 3,
        n < 65536 ==> dec(n).len() <= 5,
    decreases n,
{
    if n >= 10 {
        lemma_dec_digits(n / 10);
        let s = dec(n);
        assert(s.drop_last() =~= dec(n / 10));
        assert(forall|k: int| 0 <= k < s.len() - 1 ==> s[k] == dec(n / 10)[k]);
        assert(digits_value(s) == digits_value(dec(n / 10)) * 10 + (s.last() - 48) as nat);
        assert(n == (n / 10) * 10 + n % 10) by (nonlinear_arith);
        assert(n < 256 ==> n / 10 < 26) by (nonlinear_arith);
        assert(n < 65536 ==> n / 10 < 6554) by (nonlinear_arith);
        assert(n < 100 ==> n / 10 < 10) by (nonlinear_arith);
        assert(n < 1000 ==> n / 10 < 100) by (nonlinear_arith);
        assert(n < 10000 ==> n / 10 < 1000) by (nonlinear_arith);
        assert(n < 65536 ==> dec(n).len() <= 5) by {
            if n < 65536 {
                lemma_dec_len(n / 10);
            }
        }
        assert(n < 256 ==> dec(n).len() <= 3) by {
            if n < 256 {
                lemma_dec_len(n / 10);
            }
        }
    } else {
        assert(dec(n).drop_last() =~= Seq::<u8>::empty());
        reveal_with_fuel(digits_value, 2);
    }
}

proof fn lemma_dec_len(n: nat)
    ensures
        dec(n).len() >= 1,
        n < 10 ==> dec(n).len() == 1,
        n < 100 ==> dec(n).len() <= 2,
        n < 1000 ==> dec(n).len() <= 3,
        n < 10000 ==> dec(n).len() <= 4,
        n < 100000 ==> dec(n).len() <= 5,
    decreases n,
{
    if n >= 10 {
        lemma_dec_len(n / 10);
        assert(n < 100 ==> n / 10 < 10) by (nonlinear_arith);
        assert(n < 1000 ==> n / 10 < 100) by (nonlinear_arith);
        assert(n < 10000 ==> n / 10 < 1000) by (nonlinear_arith);
        assert(n < 100000 ==> n / 10 < 10000) by (nonlinear_arith);
    }
}

proof fn lemma_value_positive(s: Seq<u8>)
    requires
        s.len() >= 1,
        forall|k: int| 0 <= k < s.len() ==> is_digit(#[trigger] s[k]),
        s[0] != 48,
    ensures
        digits_value(s) >= 1,
    decreases s.len(),
{
    if s.len() > 1 {
        lemma_value_positive(s.drop_last());
    }
}

pub proof fn lemma_canonical_dec(s: Seq<u8>)
    requires
        canonical_digits(s),
    ensures
        dec(digits_value(s)) == s,
    decreases s.len(),
{
    if s.len() > 1 {
        let p = s.drop_last();
        assert(canonical_digits(p));
        lemma_canonical_dec(p);
        lemma_value_positive(p);
        let v = digits_value(s);
        assert(v / 10 == digits_value(p) && v % 10 == (s.last() - 48) as nat) by (nonlinear_arith)
            requires
                v == digits_value(p) * 10 + (s.last() - 48) as nat,
                0 <= s.last() - 48 < 10,
        ;
        assert(dec(v) =~= s);
    } else {
        assert(s.drop_last() =~= Seq::<u8>::empty());
        reveal_with_fuel(digits_value, 2);
        assert(digits_value(s) == (s[0] - 48) as nat);
        let v = digits_value(s);
        assert(v < 10);
        assert(dec(v) == seq![(v + 48) as u8]);
        assert(dec(v) =~= s);
    }
}

/// Appends the decimal text of `n` to `buf`.
fn push_dec(buf: &mut Vec<u8>, n: u16)
    ensures
        final(buf)@ == old(buf)@ + dec(n as nat),
    decreases n,
{
    if n >= 10 {
        push_dec(buf, n / 10);
    }
    buf.push((n % 10 + 48) as u8);
    proof {
        assert(final(buf)@ =~= old(buf)@ + dec(n as nat));
    }
}

/// The digits of `n` stand in `t` from `i`, and no further digit follows.
pub open spec fn dec_at(t: Seq<u8>, i: int, n: nat) -> bool {
    let e = i + dec(n).len();
    &&& 0 <= i
    &&& e <= t.len()
    &&& t.subrange(i, e) == dec(n)
    &&& (e == t.len() || !is_digit(t[e]))
}

pub open spec fn opt_view(q: Option<&[u8]>) -> Option<Seq<u8>> {
    match q {
        Some(q) => Some(q@),
        None => None,
    }
}

proof fn lemma_targets_parts(t: Seq<u8>, a: PeerAddress)
    requires
        targets(t, a),
    ensures
        t.len() >= 7,
        t.subrange(0, 7) == scheme(),
        ({
            let p1: int = 7 + dec(a.ip.a as nat).len() as int + 1;
            let p2: int = p1 + dec(a.ip.b as nat).len() + 1;
            let p3: int = p2 + dec(a.ip.c as nat).len() + 1;
            let p4: int = p3 + dec(a.ip.d as nat).len() + 1;
            &&& dec_at(t, 7, a.ip.a as nat)
            &&& t[p1 - 1] == dot()
            &&& dec_at(t, p1, a.ip.b as nat)
            &&& t[p2 - 1] == dot()
            &&& dec_at(t, p2, a.ip.c as nat)
            &&& t[p3 - 1] == dot()
            &&& dec_at(t, p3, a.ip.d as nat)
            &&& t[p4 - 1] == colon()
            &&& dec_at(t, p4, a.port as nat)
            &&& p4 + dec(a.port as nat).len() == origin(a).len()
        }),
{
    let d0 = dec(a.ip.a as nat);
    let d1 = dec(a.ip.b as nat);
    let d2 = dec(a.ip.c as nat);
    let d3 = dec(a.ip.d as nat);
    let dp = dec(a.port as nat);
    let o = origin(a);
    let p1: int = 7 + d0.len() as int + 1;
    let p2: int = p1 + d1.len() + 1;
    let p3: int = p2 + d2.len() + 1;
    let p4: int = p3 + d3.len() + 1;
    let n = o.len();
    assert(t.subrange(0, n as int) == o);
    assert(forall|k: int| 0 <= k < n ==> t[k] == #[trigger] o[k]) by {
        assert forall|k: int| 0 <= k < n implies t[k] == #[trigger] o[k] by {
            assert(t.subrange(0, n as int)[k] == t[k]);
        }
    }
    lemma_dec_digits(a.ip.a as nat);
    lemma_dec_digits(a.ip.b as nat);
    lemma_dec_digits(a.ip.c as nat);
    lemma_dec_digits(a.ip.d as nat);
    lemma_dec_digits(a.port as nat);
    let o1 = scheme() + d0.push(dot());
    let o2 = o1 + d1.push(dot());
    let o3 = o2 + d2.push(dot());
    let o4 = o3 + d3.push(colon());
    assert(o == o4 + dp);
    assert(forall|k: int| 0 <= k < o4.len() ==> o[k] == #[trigger] o4[k]);
    assert(forall|k: int| 0 <= k < o3.len() ==> o4[k] == #[trigger] o3[k]);
    assert(forall|k: int| 0 <= k < o2.len() ==> o3[k] == #[trigger] o2[k]);
    assert(forall|k: int| 0 <= k < o1.len() ==> o2[k] == #[trigger] o1[k]);
    assert(t.subrange(0, 7) =~= scheme());
    assert forall|j: int| 0 <= j < d0.len() implies t.subrange(7, p1 - 1)[j] == d0[j] by {
        assert(t[7 + j] == o[7 + j]);
        assert(o[7 + j] == o4[7 + j]);
        assert(o4[7 + j] == o3[7 + j]);
        assert(o3[7 + j] == o2[7 + j]);
        assert(o2[7 + j] == o1[7 + j]);
    }
    assert(t.subrange(7, p1 - 1) =~= d0);
    assert forall|j: int| 0 <= j < d1.len() implies t.subrange(p1, p2 - 1)[j] == d1[j] by {
        assert(t[p1 + j] == o[p1 + j]);
        assert(o[p1 + j] == o4[p1 + j]);
        assert(o4[p1 + j] == o3[p1 + j]);
        assert(o3[p1 + j] == o2[p1 + j]);
    }
    assert(t.subrange(p1, p2 - 1) =~= d1);
    assert forall|j: int| 0 <= j < d2.len() implies t.subrange(p2, p3 - 1)[j] == d2[j] by {
        assert(t[p2 + j] == o[p2 + j]);
        assert(o[p2 + j] == o4[p2 + j]);
        assert(o4[p2 + j] == o3[p2 + j]);
    }
    assert(t.subrange(p2, p3 - 1) =~= d2);
    assert forall|j: int| 0 <= j < d3.len() implies t.subrange(p3, p4 - 1)[j] == d3[j] by {
        assert(t[p3 + j] == o[p3 + j]);
        assert(o[p3 + j] == o4[p3 + j]);
    }
    assert(t.subrange(p3, p4 - 1) =~= d3);
    assert forall|j: int| 0 <= j < dp.len() implies t.subrange(p4, n as int)[j] == dp[j] by {
        assert(t[p4 + j] == o[p4 + j]);
    }
    assert(t.subrange(p4, n as int) =~= dp);
    assert(t[p1 - 1] == o[p1 - 1] && o[p1 - 1] == o4[p1 - 1] && o4[p1 - 1] == o3[p1 - 1]
        && o3[p1 - 1] == o2[p1 - 1] && o2[p1 - 1] == o1[p1 - 1]);
    assert(t[p2 - 1] == o[p2 - 1] && o[p2 - 1] == o4[p2 - 1] && o4[p2 - 1] == o3[p2 - 1]
        && o3[p2 - 1] == o2[p2 - 1]);
    assert(t[p3 - 1] == o[p3 - 1] && o[p3 - 1] == o4[p3 - 1] && o4[p3 - 1] == o3[p3 - 1]);
    assert(t[p4 - 1] == o[p4 - 1] && o[p4 - 1] == o4[p4 - 1]);
    assert(dec_at(t, 7, a.ip.a as nat));
    assert(dec_at(t, p1, a.ip.b as nat));
    assert(dec_at(t, p2, a.ip.c as nat));
    assert(dec_at(t, p3, a.ip.d as nat));
    assert(dec_at(t, p4, a.port as nat));
}

impl PeerAddress {
    /// The endpoint on the loopback interface at `port`.
    pub fn loopback(port: u16) -> (r: PeerAddress)
        ensures
            r == loopback_spec(port),
    {
        PeerAddress { ip: Ipv4 { a: 127, b: 0, c: 0, d: 1 }, port }
    }

    /// The scheme and authority of every target toward this address,
    /// `http://a.b.c.d:port`.
    pub fn origin(&self) -> (r: Vec<u8>)
        ensures
            r@ == origin(*self),
    {
        let mut r: Vec<u8> = Vec::new();
        r.push(104u8);
        r.push(116u8);
        r.push(116u8);
        r.push(112u8);
        r.push(58u8);
        r.push(47u8);
        r.push(47u8);
        assert(r@ =~= scheme());
        push_dec(&mut r, self.ip.a as u16);
        r.push(46u8);
        push_dec(&mut r, self.ip.b as u16);
        r.push(46u8);
        push_dec(&mut r, self.ip.c as u16);
        r.push(46u8);
        push_dec(&mut r, self.ip.d as u16);
        r.push(58u8);
        push_dec(&mut r, self.port);
        assert(r@ =~= origin(*self));
        r
    }
}

/// Appends the bytes of `s` to `buf`.
fn push_all(buf: &mut Vec<u8>, s: &[u8])
    ensures
        final(buf)@ == old(buf)@ + s@,
{
    let mut i: usize = 0;
    while i < s.len()
        invariant
            i <= s@.len(),
            buf@ == old(buf)@ + s@.subrange(0, i as int),
        decreases s@.len() - i,
    {
        buf.push(s[i]);
        i = i + 1;
        assert(buf@ =~= old(buf)@ + s@.subrange(0, i as int));
    }
    assert(s@.subrange(0, i as int) =~= s@);
}

/// The request target `http://a.b.c.d:port/path`, followed by `?query` where
/// a query is given.
pub fn target(a: PeerAddress, path: &[u8], query: Option<&[u8]>) -> (r: Vec<u8>)
    ensures
        r@ == target_text(a, path@, opt_view(query)),
{
    let mut r = a.origin();
    r.push(47u8);
    push_all(&mut r, path);
    match query {
        Some(q) => {
            r.push(63u8);
            push_all(&mut r, q);
        },
        None => {},
    }
    r
}

spec fn pow10(n: nat) -> nat
    decreases n,
{
    if n == 0 {
        1
    } else {
        10 * pow10((n - 1) as nat)
    }
}

/// Reads the run of digits that starts at `i`, of at most `max_len` digits and
/// without a leading zero, and the index just past it.
fn parse_num(t: &[u8], i: usize, max_len: usize) -> (r: Option<(u32, usize)>)
    requires
        i <= t@.len(),
        1 <= max_len <= 5,
    ensures
        r matches Some((v, e)) ==> {
            &&& i < e <= t@.len()
            &&& e == i + dec(v as nat).len()
            &&& dec_at(t@, i as int, v as nat)
        },
        forall|n: nat|
            dec_at(t@, i as int, n) && dec(n).len() <= max_len ==> r == Some(
                (n as u32, (i + dec(n).len()) as usize),
            ),
{
    let mut j: usize = i;
    while j < t.len() && j - i <= max_len && 48 <= t[j] && t[j] <= 57
        invariant
            i <= j <= t@.len(),
            j - i <= max_len + 1,
            forall|k: int| i <= k < j ==> is_digit(#[trigger] t@[k]),
        decreases t@.len() - j,
    {
        j = j + 1;
    }
    proof {
        assert forall|n: nat| dec_at(t@, i as int, n) && dec(n).len() <= max_len implies j == i
            + dec(n).len() by {
            lemma_dec_digits(n);
            let e = i + dec(n).len();
            if j < e {
                assert(t@.subrange(i as int, e)[j - i] == t@[j as int]);
            } else if j > e {
                assert(is_digit(t@[e]));
            }
        }
    }
    if j == i || j - i > max_len || (j - i > 1 && t[i] == 48) {
        proof {
            assert forall|n: nat| dec_at(t@, i as int, n) && dec(n).len() <= max_len implies false by {
                lemma_dec_digits(n);
                assert(t@.subrange(i as int, j as int)[0] == t@[i as int]);
            }
        }
        return None;
    }
    let mut v: u32 = 0;
    let mut k: usize = i;
    while k < j
        invariant
            i <= k <= j <= t@.len(),
            j - i <= max_len,
            max_len <= 5,
            forall|m: int| i <= m < j ==> is_digit(#[trigger] t@[m]),
            v == digits_value(t@.subrange(i as int, k as int)),
            v < pow10((k - i) as nat),
        decreases j - k,
    {
        proof {
            reveal_with_fuel(pow10, 6);
            assert(pow10((k - i) as nat) <= 10000);
        }
        let ghost old_k = k;
        v = v * 10 + (t[k] - 48) as u32;
        k = k + 1;
        proof {
            assert(t@.subrange(i as int, k as int).drop_last() =~= t@.subrange(i as int, old_k as int));
        }
    }
    proof {
        let s = t@.subrange(i as int, j as int);
        assert(canonical_digits(s));
        lemma_canonical_dec(s);
        assert forall|n: nat| dec_at(t@, i as int, n) && dec(n).len() <= max_len implies n == v by {
            lemma_dec_digits(n);
        }
    }
    Some((v, j))
}

proof fn lemma_parts_targets(t: Seq<u8>, a: PeerAddress)
    requires
        t.len() >= 7,
        t.subrange(0, 7) == scheme(),
        ({
            let p1: int = 7 + dec(a.ip.a as nat).len() as int + 1;
            let p2: int = p1 + dec(a.ip.b as nat).len() + 1;
            let p3: int = p2 + dec(a.ip.c as nat).len() + 1;
            let p4: int = p3 + dec(a.ip.d as nat).len() + 1;
            let n: int = p4 + dec(a.port as nat).len();
            &&& dec_at(t, 7, a.ip.a as nat)
            &&& t[p1 - 1] == dot()
            &&& dec_at(t, p1, a.ip.b as nat)
            &&& t[p2 - 1] == dot()
            &&& dec_at(t, p2, a.ip.c as nat)
            &&& t[p3 - 1] == dot()
            &&& dec_at(t, p3, a.ip.d as nat)
            &&& t[p4 - 1] == colon()
            &&& dec_at(t, p4, a.port as nat)
            &&& (n == t.len() || t[n] == slash() || t[n] == question())
        }),
    ensures
        targets(t, a),
{
    let d0 = dec(a.ip.a as nat);
    let d1 = dec(a.ip.b as nat);
    let d2 = dec(a.ip.c as nat);
    let d3 = dec(a.ip.d as nat);
    let dp = dec(a.port as nat);
    let p1: int = 7 + d0.len() as int + 1;
    let p2: int = p1 + d1.len() + 1;
    let p3: int = p2 + d2.len() + 1;
    let p4: int = p3 + d3.len() + 1;
    let n: int = p4 + dp.len();
    let o1 = scheme() + d0.push(dot());
    let o2 = o1 + d1.push(dot());
    let o3 = o2 + d2.push(dot());
    let o4 = o3 + d3.push(colon());
    assert forall|k: int| 0 <= k < 7 implies t[k] == scheme()[k] by {
        assert(t.subrange(0, 7)[k] == t[k]);
    }
    assert forall|j: int| 0 <= j < d0.len() implies t[7 + j] == d0[j] by {
        assert(t.subrange(7, p1 - 1)[j] == t[7 + j]);
    }
    assert(t.subrange(0, p1) =~= o1);
    assert forall|j: int| 0 <= j < d1.len() implies t[p1 + j] == d1[j] by {
        assert(t.subrange(p1, p2 - 1)[j] == t[p1 + j]);
    }
    assert(t.subrange(0, p2) =~= o2) by {
        assert forall|k: int| 0 <= k < p1 implies t[k] == o1[k] by {
            assert(t.subrange(0, p1)[k] == t[k]);
        }
    }
    assert forall|j: int| 0 <= j < d2.len() implies t[p2 + j] == d2[j] by {
        assert(t.subrange(p2, p3 - 1)[j] == t[p2 + j]);
    }
    assert(t.subrange(0, p3) =~= o3) by {
        assert forall|k: int| 0 <= k < p2 implies t[k] == o2[k] by {
            assert(t.subrange(0, p2)[k] == t[k]);
        }
    }
    assert forall|j: int| 0 <= j < d3.len() implies t[p3 + j] == d3[j] by {
        assert(t.subrange(p3, p4 - 1)[j] == t[p3 + j]);
    }
    assert(t.subrange(0, p4) =~= o4) by {
        assert forall|k: int| 0 <= k < p3 implies t[k] == o3[k] by {
            assert(t.subrange(0, p3)[k] == t[k]);
        }
    }
    assert forall|j: int| 0 <= j < dp.len() implies t[p4 + j] == dp[j] by {
        assert(t.subrange(p4, n)[j] == t[p4 + j]);
    }
    assert(t.subrange(0, n) =~= origin(a)) by {
        assert forall|k: int| 0 <= k < p4 implies t[k] == o4[k] by {
            assert(t.subrange(0, p4)[k] == t[k]);
        }
    }
}

/// Reads an octet of at most three digits that ends with the byte `sep`, and
/// the index just past `sep`.
fn parse_octet(t: &[u8], i: usize, sep: u8) -> (r: Option<(u8, usize)>)
    requires
        i <= t@.len(),
        !is_digit(sep),
    ensures
        r matches Some((v, p)) ==> {
            &&& dec_at(t@, i as int, v as nat)
            &&& p == i + dec(v as nat).len() + 1
            &&& p <= t@.len()
            &&& t@[p - 1] == sep
        },
        forall|n: u8|
            dec_at(t@, i as int, n as nat) && i + dec(n as nat).len() < t@.len() && t@[i
                + dec(n as nat).len()] == sep ==> r == Some((n, (i + dec(n as nat).len() + 1) as usize)),
{
    let parsed = parse_num(t, i, 3);
    proof {
        assert forall|n: u8| dec_at(t@, i as int, n as nat) implies parsed == Some(
            (n as u32, (i + dec(n as nat).len()) as usize),
        ) by {
            lemma_dec_digits(n as nat);
        }
    }
    match parsed {
        Some((v, e)) => {
            if v <= 255 && e < t.len() && t[e] == sep {
                Some((v as u8, e + 1))
            } else {
                None
            }
        },
        None => None,
    }
}

/// The destination that the request target `t` names in its authority: the
/// address `a` such that `t` starts with `http://a.b.c.d:port` and goes on
/// with nothing, a path or a query.
#[verifier::spinoff_prover]
#[verifier::rlimit(60)]
pub fn destination_of(t: &[u8]) -> (r: Option<PeerAddress>)
    ensures
        r matches Some(a) ==> targets(t@, a),
        forall|a: PeerAddress| targets(t@, a) ==> r == Some(a),
{
    if t.len() < 7 || t[0] != 104 || t[1] != 116 || t[2] != 116 || t[3] != 112 || t[4] != 58
        || t[5] != 47 || t[6] != 47 {
        proof {
            assert forall|a: PeerAddress| !targets(t@, a) by {
                if targets(t@, a) {
                    lemma_targets_parts(t@, a);
                    assert(t@.subrange(0, 7)[0] == t@[0]);
                    assert(t@.subrange(0, 7)[1] == t@[1]);
                    assert(t@.subrange(0, 7)[2] == t@[2]);
                    assert(t@.subrange(0, 7)[3] == t@[3]);
                    assert(t@.subrange(0, 7)[4] == t@[4]);
                    assert(t@.subrange(0, 7)[5] == t@[5]);
                    assert(t@.subrange(0, 7)[6] == t@[6]);
                }
            }
        }
        return None;
    }
    proof {
        assert(t@.subrange(0, 7) =~= scheme());
    }
    let (a, p1) = match parse_octet(t, 7, 46) {
        Some(x) => x,
        None => {
            proof {
                assert forall|x: PeerAddress| !targets(t@, x) by {
                    if targets(t@, x) {
                        lemma_targets_parts(t@, x);
                    }
                }
            }
            return None;
        },
    };
    let (b, p2) = match parse_octet(t, p1, 46) {
        Some(x) => x,
        None => {
            proof {
                assert forall|x: PeerAddress| !targets(t@, x) by {
                    if targets(t@, x) {
                        lemma_targets_parts(t@, x);
                    }
                }
            }
            return None;
        },
    };
    let (c, p3) = match parse_octet(t, p2, 46) {
        Some(x) => x,
        None => {
            proof {
                assert forall|x: PeerAddress| !targets(t@, x) by {
                    if targets(t@, x) {
                        lemma_targets_parts(t@, x);
                    }
                }
            }
            return None;
        },
    };
    let (d, p4) = match parse_octet(t, p3, 58) {
        Some(x) => x,
        None => {
            proof {
                assert forall|x: PeerAddress| !targets(t@, x) by {
                    if targets(t@, x) {
                        lemma_targets_parts(t@, x);
                    }
                }
            }
            return None;
        },
    };
    let parsed = parse_num(t, p4, 5);
    proof {
        assert forall|x: PeerAddress| targets(t@, x) implies parsed == Some(
            (x.port as u32, (p4 + dec(x.port as nat).len()) as usize),
        ) && x.ip == (Ipv4 { a, b, c, d }) by {
            lemma_targets_parts(t@, x);
            lemma_dec_digits(x.port as nat);
        }
    }
    match parsed {
        Some((port, n)) => {
            if port <= 65535 && (n == t.len() || t[n] == 47 || t[n] == 63) {
                let r = PeerAddress { ip: Ipv4 { a, b, c, d }, port: port as u16 };
                proof {
                    lemma_parts_targets(t@, r);
                }
                Some(r)
            } else {
                proof {
                    assert forall|x: PeerAddress| !targets(t@, x) by {
                        if targets(t@, x) {
                            lemma_targets_parts(t@, x);
                        }
                    }
                }
                None
            }
        },
        None => {
            proof {
                assert forall|x: PeerAddress| !targets(t@, x) by {
                    if targets(t@, x) {
                        lemma_targets_parts(t@, x);
                    }
                }
            }
            None
        },
    }
}

/// A target built toward `a` names `a` as its destination, whatever its path
/// and query: the destination can always be read back from the target.
pub proof fn lemma_target_names_destination(
    a: PeerAddress,
    path: Seq<u8>,
    query: Option<Seq<u8>>,
)
    ensures
        targets(target_text(a, path, query), a),
{
    let t = target_text(a, path, query);
    let o = origin(a);
    let base = o.push(slash()) + path;
    assert(forall|k: int| 0 <= k < base.len() ==> t[k] == #[trigger] base[k]);
    assert(t.subrange(0, o.len() as int) =~= o);
    assert(t[o.len() as int] == base[o.len() as int]);
}

proof fn lemma_dec_at_unique(t: Seq<u8>, i: int, n: nat, m: nat)
    requires
        dec_at(t, i, n),
        dec_at(t, i, m),
    ensures
        n == m,
{
    lemma_dec_digits(n);
    lemma_dec_digits(m);
    let ln = dec(n).len() as int;
    let lm = dec(m).len() as int;
    if ln < lm {
        assert(t.subrange(i, i + lm)[ln] == t[i + ln]);
    } else if lm < ln {
        assert(t.subrange(i, i + ln)[lm] == t[i + lm]);
    }
}

/// A target names at most one destination.
pub proof fn lemma_targets_unique(t: Seq<u8>, a: PeerAddress, b: PeerAddress)
    requires
        targets(t, a),
        targets(t, b),
    ensures
        a == b,
{
    lemma_targets_parts(t, a);
    lemma_targets_parts(t, b);
    lemma_dec_at_unique(t, 7, a.ip.a as nat, b.ip.a as nat);
    let p1: int = 7 + dec(a.ip.a as nat).len() as int + 1;
    lemma_dec_at_unique(t, p1, a.ip.b as nat, b.ip.b as nat);
    let p2: int = p1 + dec(a.ip.b as nat).len() + 1;
    lemma_dec_at_unique(t, p2, a.ip.c as nat, b.ip.c as nat);
    let p3: int = p2 + dec(a.ip.c as nat).len() + 1;
    lemma_dec_at_unique(t, p3, a.ip.d as nat, b.ip.d as nat);
    let p4: int = p3 + dec(a.ip.d as nat).len() + 1;
    lemma_dec_at_unique(t, p4, a.port as nat, b.port as nat);
}

} // verus!
