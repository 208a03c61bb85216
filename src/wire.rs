use vstd::prelude::*;
use vstd::utf8::*;
use crate::handshake::{opt_view, HandshakeMessage, HandshakeView};

verus! {

/// Lower-case hexadecimal digit of a value below sixteen.
pub open spec fn hex_digit(n: u8) -> u8 {
    if n < 10 {
        (n + 48) as u8
    } else {
        (n + 87) as u8
    }
}

/// How one byte of a string's UTF-8 form appears between the quotes of a JSON string.
pub open spec fn escape_byte(b: u8) -> Seq<u8> {
    if b == 34 {
        seq![92u8, 34u8]
    } else if b == 92 {
        seq![92u8, 92u8]
    } else if b == 8 {
        seq![92u8, 98u8]
    } else if b == 9 {
        seq![92u8, 116u8]
    } else if b == 10 {
        seq![92u8, 110u8]
    } else if b == 12 {
        seq![92u8, 102u8]
    } else if b == 13 {
        seq![92u8, 114u8]
    } else if b < 32 {
        seq![92u8, 117u8, 48u8, 48u8, hex_digit(b / 16), hex_digit(b % 16)]
    } else {
        seq![b]
    }
}

pub open spec fn escape(bs: Seq<u8>) -> Seq<u8>
    decreases bs.len(),
{
    if bs.len() == 0 {
        Seq::empty()
    } else {
        escape(bs.drop_last()) + escape_byte(bs.last())
    }
}

/// A JSON string literal holding the given bytes.
pub open spec fn quoted_bytes(bs: Seq<u8>) -> Seq<u8> {
    seq![34u8] + escape(bs) + seq![34u8]
}

/// A JSON string literal holding the given text.
pub open spec fn quoted(s: Seq<char>) -> Seq<u8> {
    quoted_bytes(encode_utf8(s))
}

/// Decimal digits of a natural number, without leading zeros.
pub open spec fn decimal(n: nat) -> Seq<u8>
    decreases n,
{
    if n < 10 {
        seq![(n + 48) as u8]
    } else {
        decimal(n / 10).push(((n % 10) + 48) as u8)
    }
}

pub open spec fn is_digit(b: u8) -> bool {
    48 <= b <= 57
}

pub open spec fn digits_value(s: Seq<u8>) -> nat
    decreases s.len(),
{
    if s.len() == 0 {
        0
    } else {
        digits_value(s.drop_last()) * 10 + (s.last() - 48) as nat
    }
}

/// `{"node_name":`
pub open spec fn node_name_key() -> Seq<u8> {
    seq![123u8, 34, 110, 111, 100, 101, 95, 110, 97, 109, 101, 34, 58]
}

/// `null`
pub open spec fn null_text() -> Seq<u8> {
    seq![110u8, 117, 108, 108]
}

/// `,"peer_id":`
pub open spec fn peer_id_key() -> Seq<u8> {
    seq![44u8, 34, 112, 101, 101, 114, 95, 105, 100, 34, 58]
}

/// `,"timestamp":`
pub open spec fn timestamp_key() -> Seq<u8> {
    seq![44u8, 34, 116, 105, 109, 101, 115, 116, 97, 109, 112, 34, 58]
}

/// `,"message":`
pub open spec fn message_key() -> Seq<u8> {
    seq![44u8, 34, 109, 101, 115, 115, 97, 103, 101, 34, 58]
}

pub open spec fn name_field(name: Option<Seq<char>>) -> Seq<u8> {
    match name {
        Some(n) => quoted(n),
        None => null_text(),
    }
}

/// The wire form of a handshake: a compact JSON object with the fields in a fixed order.
pub open spec fn encoding(v: HandshakeView) -> Seq<u8> {
    node_name_key() + name_field(v.node_name) + peer_id_key() + quoted(v.peer_id)
        + timestamp_key() + decimal(v.timestamp as nat) + message_key() + quoted(v.message)
        + seq![125u8]
}

pub proof fn lemma_escape_single(b: u8)
    ensures
        escape(seq![b]) == escape_byte(b),
{
    assert(seq![b].drop_last() =~= Seq::<u8>::empty());
    assert(escape(Seq::<u8>::empty()) + escape_byte(b) =~= escape_byte(b));
}

pub proof fn lemma_escape_concat(p: Seq<u8>, q: Seq<u8>)
    ensures
        escape(p + q) == escape(p) + escape(q),
    decreases q.len(),
{
    if q.len() == 0 {
        assert(p + q =~= p);
        assert(escape(p) + escape(q) =~= escape(p));
    } else {
        assert((p + q).drop_last() =~= p + q.drop_last());
        assert((p + q).last() == q.last());
        lemma_escape_concat(p, q.drop_last());
        assert(escape(p + q) =~= escape(p) + escape(q));
    }
}

pub proof fn lemma_escape_first(u: Seq<u8>)
    requires
        u.len() > 0,
    ensures
        escape(u) == escape_byte(u[0]) + escape(u.drop_first()),
{
    assert(u =~= seq![u[0]] + u.drop_first());
    lemma_escape_concat(seq![u[0]], u.drop_first());
    lemma_escape_single(u[0]);
}

pub proof fn lemma_escape_byte_shape(b: u8)
    ensures
        escape_byte(b).len() >= 1,
        escape_byte(b)[0] != 34,
        escape_byte(b)[0] >= 32,
{
}

/// Two escaped bytes that both start the same sequence are the same byte.
pub proof fn lemma_escape_byte_prefix_free(x: u8, y: u8, d: Seq<u8>)
    requires
        escape_byte(x).len() <= d.len(),
        escape_byte(y).len() <= d.len(),
        d.take(escape_byte(x).len() as int) == escape_byte(x),
        d.take(escape_byte(y).len() as int) == escape_byte(y),
    ensures
        x == y,
{
    let ex = escape_byte(x);
    let ey = escape_byte(y);
    assert(ex[0] == d[0]);
    assert(ey[0] == d[0]);
    if ex.len() >= 2 && ey.len() >= 2 {
        assert(ex[1] == d[1]);
        assert(ey[1] == d[1]);
        if ex.len() == 6 && ey.len() == 6 {
            assert(ex[4] == d[4]);
            assert(ey[4] == d[4]);
            assert(ex[5] == d[5]);
            assert(ey[5] == d[5]);
            assert(x == (x / 16) * 16 + x % 16);
            assert(y == (y / 16) * 16 + y % 16);
        }
    }
}

/// Where a decoded prefix `a` stands inside the escaped form of `u` followed by a quote.
pub proof fn lemma_escape_align(a: Seq<u8>, u: Seq<u8>, t: Seq<u8>, w: Seq<u8>)
    requires
        escape(a) + t == escape(u) + w,
        w.len() > 0,
        w[0] == 34,
    ensures
        a.len() <= u.len(),
        u.take(a.len() as int) == a,
        a.len() < u.len() ==> escape_byte(u[a.len() as int]).len() <= t.len() && t.take(
            escape_byte(u[a.len() as int]).len() as int,
        ) == escape_byte(u[a.len() as int]),
        a.len() == u.len() ==> t == w,
    decreases a.len(),
{
    if a.len() == 0 {
        assert(escape(a) =~= Seq::<u8>::empty());
        assert(t =~= escape(u) + w);
        if u.len() > 0 {
            lemma_escape_first(u);
            let e = escape_byte(u[0]);
            assert(t =~= e + (escape(u.drop_first()) + w));
            assert(t.take(e.len() as int) =~= e);
        } else {
            assert(escape(u) =~= Seq::<u8>::empty());
            assert(t =~= w);
        }
        assert(u.take(0) =~= a);
    } else {
        lemma_escape_first(a);
        let ea = escape_byte(a[0]);
        lemma_escape_byte_shape(a[0]);
        let d = escape(a) + t;
        assert(d =~= ea + (escape(a.drop_first()) + t));
        if u.len() == 0 {
            assert(escape(u) =~= Seq::<u8>::empty());
            assert(d =~= w);
            assert(d[0] == ea[0]);
            assert(false);
        }
        lemma_escape_first(u);
        let eu = escape_byte(u[0]);
        assert(d =~= eu + (escape(u.drop_first()) + w));
        assert(d.take(ea.len() as int) =~= ea);
        assert(d.take(eu.len() as int) =~= eu);
        lemma_escape_byte_prefix_free(a[0], u[0], d);
        let n = ea.len() as int;
        assert(d.skip(n) =~= escape(a.drop_first()) + t);
        assert(d.skip(n) =~= escape(u.drop_first()) + w);
        lemma_escape_align(a.drop_first(), u.drop_first(), t, w);
        assert forall|i: int| 0 <= i < a.len() implies u[i] == a[i] by {
            if i > 0 {
                assert(u.drop_first().take(a.len() - 1)[i - 1] == a.drop_first()[i - 1]);
            }
        }
        assert(u.take(a.len() as int) =~= a);
        if a.len() < u.len() {
            assert(u[a.len() as int] == u.drop_first()[a.drop_first().len() as int]);
        }
    }
}

pub proof fn lemma_decimal(n: nat)
    ensures
        decimal(n).len() >= 1,
        forall|i: int| 0 <= i < decimal(n).len() ==> is_digit(#[trigger] decimal(n)[i]),
        digits_value(decimal(n)) == n,
    decreases n,
{
    if n >= 10 {
        lemma_decimal(n / 10);
        assert(decimal(n).drop_last() =~= decimal(n / 10));
        assert(decimal(n).last() == ((n % 10) + 48) as u8);
        assert(n == (n / 10) * 10 + n % 10);
        assert(digits_value(decimal(n)) == digits_value(decimal(n / 10)) * 10 + (n % 10));
    } else {
        assert(decimal(n).drop_last() =~= Seq::<u8>::empty());
        assert(digits_value(decimal(n)) == digits_value(Seq::<u8>::empty()) * 10 + n);
    }
}

fn hex_char(n: u8) -> (r: u8)
    requires
        n < 16,
    ensures
        r == hex_digit(n),
{
    if n < 10 {
        n + 48
    } else {
        n + 87
    }
}

fn escape_unit(b: u8) -> (r: Vec<u8>)
    ensures
        r@ == escape_byte(b),
{
    if b == 34 {
        vec![92u8, 34u8]
    } else if b == 92 {
        vec![92u8, 92u8]
    } else if b == 8 {
        vec![92u8, 98u8]
    } else if b == 9 {
        vec![92u8, 116u8]
    } else if b == 10 {
        vec![92u8, 110u8]
    } else if b == 12 {
        vec![92u8, 102u8]
    } else if b == 13 {
        vec![92u8, 114u8]
    } else if b < 32 {
        vec![92u8, 117u8, 48u8, 48u8, hex_char(b / 16), hex_char(b % 16)]
    } else {
        vec![b]
    }
}

fn push_all(out: &mut Vec<u8>, src: &[u8])
    ensures
        final(out)@ == old(out)@ + src@,
{
    let mut i: usize = 0;
    while i < src.len()
        invariant
            i <= src@.len(),
            out@ == old(out)@ + src@.take(i as int),
        decreases src@.len() - i,
    {
        out.push(src[i]);
        i = i + 1;
        assert(out@ =~= old(out)@ + src@.take(i as int));
    }
    assert(src@.take(i as int) =~= src@);
}

fn push_quoted(out: &mut Vec<u8>, s: &str)
    ensures
        final(out)@ == old(out)@ + quoted(s@),
{
    let bytes = s.as_bytes();
    out.push(34u8);
    let mut i: usize = 0;
    while i < bytes.len()
        invariant
            i <= bytes@.len(),
            bytes@ == encode_utf8(s@),
            out@ == old(out)@ + seq![34u8] + escape(bytes@.take(i as int)),
        decreases bytes@.len() - i,
    {
        let unit = escape_unit(bytes[i]);
        push_all(out, unit.as_slice());
        assert(bytes@.take(i + 1).drop_last() =~= bytes@.take(i as int));
        i = i + 1;
        assert(out@ =~= old(out)@ + seq![34u8] + escape(bytes@.take(i as int)));
    }
    out.push(34u8);
    assert(bytes@.take(i as int) =~= bytes@);
    assert(out@ =~= old(out)@ + quoted(s@));
}

fn push_decimal(out: &mut Vec<u8>, n: u64)
    ensures
        final(out)@ == old(out)@ + decimal(n as nat),
    decreases n,
{
    if n >= 10 {
        push_decimal(out, n / 10);
    }
    out.push((n % 10 + 48) as u8);
    assert(out@ =~= old(out)@ + decimal(n as nat));
}

fn node_name_key_bytes() -> (r: Vec<u8>)
    ensures
        r@ == node_name_key(),
{
    vec![123u8, 34, 110, 111, 100, 101, 95, 110, 97, 109, 101, 34, 58]
}

fn null_bytes() -> (r: Vec<u8>)
    ensures
        r@ == null_text(),
{
    vec![110u8, 117, 108, 108]
}

fn peer_id_key_bytes() -> (r: Vec<u8>)
    ensures
        r@ == peer_id_key(),
{
    vec![44u8, 34, 112, 101, 101, 114, 95, 105, 100, 34, 58]
}

fn timestamp_key_bytes() -> (r: Vec<u8>)
    ensures
        r@ == timestamp_key(),
{
    vec![44u8, 34, 116, 105, 109, 101, 115, 116, 97, 109, 112, 34, 58]
}

fn message_key_bytes() -> (r: Vec<u8>)
    ensures
        r@ == message_key(),
{
    vec![44u8, 34, 109, 101, 115, 115, 97, 103, 101, 34, 58]
}

/// Serialises a handshake into its wire form.
pub fn encode(m: &HandshakeMessage) -> (r: Vec<u8>)
    ensures
        r@ == encoding(m@),
{
    let mut out: Vec<u8> = Vec::new();
    push_all(&mut out, node_name_key_bytes().as_slice());
    match &m.node_name {
        Some(n) => push_quoted(&mut out, n.as_str()),
        None => push_all(&mut out, null_bytes().as_slice()),
    }
    push_all(&mut out, peer_id_key_bytes().as_slice());
    push_quoted(&mut out, m.peer_id.as_str());
    push_all(&mut out, timestamp_key_bytes().as_slice());
    push_decimal(&mut out, m.timestamp);
    push_all(&mut out, message_key_bytes().as_slice());
    push_quoted(&mut out, m.message.as_str());
    out.push(125u8);
    assert(out@ =~= encoding(m@));
    out
}

pub open spec fn hex_value(c: u8) -> Option<u8> {
    if 48 <= c <= 57 {
        Some((c - 48) as u8)
    } else if 97 <= c <= 102 {
        Some((c - 87) as u8)
    } else {
        None
    }
}

/// The byte that the escape unit at the start of `t` stands for, if it has that shape.
pub open spec fn unit_candidate(t: Seq<u8>) -> Option<u8> {
    if t.len() == 0 {
        None
    } else if t[0] != 92 {
        Some(t[0])
    } else if t.len() < 2 {
        None
    } else if t[1] == 34 {
        Some(34u8)
    } else if t[1] == 92 {
        Some(92u8)
    } else if t[1] == 98 {
        Some(8u8)
    } else if t[1] == 116 {
        Some(9u8)
    } else if t[1] == 110 {
        Some(10u8)
    } else if t[1] == 102 {
        Some(12u8)
    } else if t[1] == 114 {
        Some(13u8)
    } else if t[1] == 117 && t.len() >= 6 && hex_value(t[4]) is Some && hex_value(t[5]) is Some
        && hex_value(t[4])->0 < 2 {
        Some((hex_value(t[4])->0 * 16 + hex_value(t[5])->0) as u8)
    } else {
        None
    }
}

pub proof fn lemma_unit_candidate(y: u8, t: Seq<u8>)
    requires
        escape_byte(y).len() <= t.len(),
        t.take(escape_byte(y).len() as int) == escape_byte(y),
    ensures
        unit_candidate(t) == Some(y),
{
    let e = escape_byte(y);
    assert(t[0] == e[0]);
    if e.len() >= 2 {
        assert(t[1] == e[1]);
    }
    if e.len() == 6 {
        assert(t[4] == e[4]);
        assert(t[5] == e[5]);
        assert(y == (y / 16) * 16 + y % 16);
    }
}

/// `d` holds the JSON string literal of `u` at `pos`.
pub open spec fn quoted_at(d: Seq<u8>, pos: int, u: Seq<u8>) -> bool {
    &&& 0 <= pos
    &&& pos + quoted_bytes(u).len() <= d.len()
    &&& d.subrange(pos, pos + quoted_bytes(u).len()) == quoted_bytes(u)
}

/// `d` holds the decimal digits of `n` at `pos`, followed by a byte that is no digit.
pub open spec fn decimal_at(d: Seq<u8>, pos: int, n: nat) -> bool {
    &&& 0 <= pos
    &&& pos + decimal(n).len() < d.len()
    &&& d.subrange(pos, pos + decimal(n).len()) == decimal(n)
    &&& !is_digit(d[pos + decimal(n).len()])
}

fn hex_value_of(c: u8) -> (r: Option<u8>)
    ensures
        r == hex_value(c),
{
    if 48 <= c && c <= 57 {
        Some(c - 48)
    } else if 97 <= c && c <= 102 {
        Some(c - 87)
    } else {
        None
    }
}

fn unit_candidate_at(data: &[u8], i: usize) -> (r: Option<u8>)
    requires
        i <= data@.len(),
    ensures
        r == unit_candidate(data@.skip(i as int)),
{
    let ghost t = data@.skip(i as int);
    if i >= data.len() {
        return None;
    }
    if data[i] != 92 {
        return Some(data[i]);
    }
    if data.len() - i < 2 {
        return None;
    }
    let c = data[i + 1];
    if c == 34 {
        Some(34)
    } else if c == 92 {
        Some(92)
    } else if c == 98 {
        Some(8)
    } else if c == 116 {
        Some(9)
    } else if c == 110 {
        Some(10)
    } else if c == 102 {
        Some(12)
    } else if c == 114 {
        Some(13)
    } else if c == 117 && data.len() - i >= 6 {
        match (hex_value_of(data[i + 4]), hex_value_of(data[i + 5])) {
            (Some(hi), Some(lo)) => {
                if hi < 2 {
                    Some(hi * 16 + lo)
                } else {
                    None
                }
            },
            _ => None,
        }
    } else {
        None
    }
}

fn starts_with_at(data: &[u8], pos: usize, lit: &[u8]) -> (r: bool)
    requires
        pos <= data@.len(),
    ensures
        r == (pos + lit@.len() <= data@.len() && data@.subrange(
            pos as int,
            pos + lit@.len(),
        ) == lit@),
{
    if data.len() - pos < lit.len() {
        return false;
    }
    let n = data.len();
    let mut k: usize = 0;
    while k < lit.len()
        invariant
            n == data@.len(),
            k <= lit@.len(),
            pos <= data@.len(),
            pos + lit@.len() <= data@.len(),
            forall|j: int| 0 <= j < k ==> data@[pos + j] == lit@[j],
        decreases lit@.len() - k,
    {
        if data[pos + k] != lit[k] {
            assert(data@.subrange(pos as int, pos + lit@.len())[k as int] != lit@[k as int]);
            return false;
        }
        k = k + 1;
    }
    assert(data@.subrange(pos as int, pos + lit@.len()) =~= lit@);
    true
}

proof fn lemma_split_at(d: Seq<u8>, pos: int, a: Seq<u8>, b: Seq<u8>)
    requires
        0 <= pos <= d.len(),
        d.skip(pos) == a + b,
    ensures
        pos + a.len() <= d.len(),
        d.subrange(pos, pos + a.len()) == a,
        d.skip(pos + a.len()) == b,
{
    assert(d.subrange(pos, pos + a.len()) =~= (a + b).take(a.len() as int));
    assert(d.skip(pos + a.len()) =~= (a + b).skip(a.len() as int));
}

/// Reads the JSON string literal at `pos`; when `d` holds the literal of `u` there, finds exactly `u`.
fn parse_string(data: &[u8], pos: usize, Ghost(u): Ghost<Seq<u8>>) -> (r: Option<(Vec<u8>, usize)>)
    requires
        pos <= data@.len(),
    ensures
        r matches Some((_, end)) ==> end <= data@.len(),
        quoted_at(data@, pos as int, u) ==> (r matches Some((v, end)) && v@ == u && end == pos
            + quoted_bytes(u).len()),
{
    proof {
        if quoted_at(data@, pos as int, u) {
            let q = quoted_bytes(u);
            assert(data@.subrange(pos as int, pos + q.len())[0] == q[0]);
            assert(data@.subrange(pos + 1, pos + 1 + escape(u).len()) =~= q.subrange(
                1,
                1 + escape(u).len() as int,
            ));
            assert(q.subrange(1, 1 + escape(u).len() as int) =~= escape(u));
            assert(data@.subrange(pos as int, pos + q.len())[q.len() - 1] == q[q.len() - 1]);
        }
    }
    if pos >= data.len() || data[pos] != 34 {
        return None;
    }
    let mut out: Vec<u8> = Vec::new();
    let mut i: usize = pos + 1;
    assert(data@.subrange(pos + 1, pos + 1) =~= escape(out@));
    loop
        invariant
            pos + 1 <= i <= data@.len(),
            escape(out@) == data@.subrange(pos + 1, i as int),
            quoted_at(data@, pos as int, u) ==> data@.subrange(pos + 1, pos + 1 + escape(u).len())
                == escape(u) && pos + 1 + escape(u).len() < data@.len() && data@[pos + 1
                + escape(u).len()] == 34,
        decreases data@.len() - i,
    {
        let ghost t = data@.skip(i as int);
        let ghost w = data@.skip(pos + 1 + escape(u).len());
        proof {
            if quoted_at(data@, pos as int, u) {
                let q = quoted_bytes(u);
                assert(data@.skip(pos + 1) =~= escape(out@) + t);
                assert(w[0] == 34);
                assert(data@.skip(pos + 1) =~= escape(u) + w);
                lemma_escape_align(out@, u, t, w);
                if out@.len() < u.len() {
                    lemma_escape_byte_shape(u[out@.len() as int]);
                }
            }
        }
        if i >= data.len() {
            return None;
        }
        if data[i] == 34 {
            proof {
                if quoted_at(data@, pos as int, u) {
                    assert(t[0] == 34);
                    assert(u.take(u.len() as int) =~= u);
                }
            }
            return Some((out, i + 1));
        }
        let c = unit_candidate_at(data, i);
        proof {
            if quoted_at(data@, pos as int, u) {
                lemma_unit_candidate(u[out@.len() as int], t);
            }
        }
        match c {
            None => {
                return None;
            },
            Some(x) => {
                let unit = escape_unit(x);
                if !starts_with_at(data, i, unit.as_slice()) {
                    proof {
                        if quoted_at(data@, pos as int, u) {
                            assert(data@.subrange(i as int, i + unit@.len()) =~= t.take(
                                unit@.len() as int,
                            ));
                        }
                    }
                    return None;
                }
                proof {
                    assert(out@.push(x).drop_last() =~= out@);
                    assert(data@.subrange(pos + 1, i + unit@.len()) =~= data@.subrange(
                        pos + 1,
                        i as int,
                    ) + data@.subrange(i as int, i + unit@.len()));
                }
                out.push(x);
                i = i + unit.len();
            },
        }
    }
}

pub open spec fn capped(x: nat) -> nat {
    if x < 0x1_0000_0000_0000_0000 {
        x
    } else {
        0x1_0000_0000_0000_0000
    }
}

/// Reads the decimal number at `pos`; when `d` holds the digits of `n` there, finds exactly `n`.
fn parse_u64(data: &[u8], pos: usize, Ghost(n): Ghost<nat>) -> (r: Option<(u64, usize)>)
    requires
        pos <= data@.len(),
    ensures
        r matches Some((_, end)) ==> end <= data@.len(),
        decimal_at(data@, pos as int, n) && n <= u64::MAX ==> (r matches Some((x, end)) && x
            == n && end == pos + decimal(n).len()),
{
    let len = data.len();
    let mut i: usize = pos;
    let mut v: u128 = 0;
    assert(data@.subrange(pos as int, pos as int) =~= Seq::<u8>::empty());
    while i < len && 48 <= data[i] && data[i] <= 57
        invariant
            len == data@.len(),
            pos <= i <= len,
            forall|j: int| pos <= j < i ==> is_digit(#[trigger] data@[j]),
            v as nat == capped(digits_value(data@.subrange(pos as int, i as int))),
        decreases len - i,
    {
        let d = (data[i] - 48) as u128;
        let nv = v * 10 + d;
        v = if nv > 0x1_0000_0000_0000_0000 {
            0x1_0000_0000_0000_0000
        } else {
            nv
        };
        assert(data@.subrange(pos as int, i + 1).drop_last() =~= data@.subrange(
            pos as int,
            i as int,
        ));
        i = i + 1;
    }
    proof {
        if decimal_at(data@, pos as int, n) && n <= u64::MAX {
            lemma_decimal(n);
            let l = decimal(n).len();
            if i < pos + l {
                assert(data@[i as int] == decimal(n)[i - pos]);
            }
            if i > pos + l {
                assert(is_digit(data@[pos + l]));
            }
            assert(data@.subrange(pos as int, i as int) == decimal(n));
        }
    }
    if i == pos || v > 0xffff_ffff_ffff_ffff {
        return None;
    }
    Some((v as u64, i))
}

/// Relies on String::from_utf8: it succeeds exactly on valid UTF-8, and the string then has those bytes.
#[verifier::external_body]
fn string_from_utf8(bytes: Vec<u8>) -> (r: Option<String>)
    ensures
        r is Some <==> valid_utf8(bytes@),
        r matches Some(s) ==> encode_utf8(s@) == bytes@,
{
    String::from_utf8(bytes).ok()
}

/// Reads the JSON string literal at `pos` as text; when it holds `s`, finds exactly `s`.
fn parse_text(data: &[u8], pos: usize, Ghost(s): Ghost<Seq<char>>) -> (r: Option<(String, usize)>)
    requires
        pos <= data@.len(),
    ensures
        r matches Some((_, end)) ==> end <= data@.len(),
        quoted_at(data@, pos as int, encode_utf8(s)) ==> (r matches Some((t, end)) && t@ == s
            && end == pos + quoted(s).len()),
{
    match parse_string(data, pos, Ghost(encode_utf8(s))) {
        None => None,
        Some((raw, end)) => {
            proof {
                broadcast use encode_utf8_valid_utf8, encode_utf8_decode_utf8;

            }
            let ghost raw_view = raw@;
            match string_from_utf8(raw) {
                None => None,
                Some(t) => {
                    proof {
                        broadcast use encode_utf8_decode_utf8;

                        if quoted_at(data@, pos as int, encode_utf8(s)) {
                            assert(decode_utf8(encode_utf8(t@)) == t@);
                            assert(decode_utf8(encode_utf8(s)) == s);
                        }
                    }
                    Some((t, end))
                },
            }
        },
    }
}

fn parse_name_field(data: &[u8], pos: usize, Ghost(name): Ghost<Option<Seq<char>>>) -> (r:
    Option<(Option<String>, usize)>)
    requires
        pos <= data@.len(),
    ensures
        r matches Some((_, end)) ==> end <= data@.len(),
        pos + name_field(name).len() <= data@.len() && data@.subrange(
            pos as int,
            pos + name_field(name).len(),
        ) == name_field(name) ==> (r matches Some((o, end)) && opt_view(o) == name && end == pos
            + name_field(name).len()),
{
    let total = data.len();
    let null = null_bytes();
    let ghost text = match name {
        Some(n) => n,
        None => Seq::empty(),
    };
    if starts_with_at(data, pos, null.as_slice()) {
        proof {
            if name is Some && pos + name_field(name).len() <= data@.len() && data@.subrange(
                pos as int,
                pos + name_field(name).len(),
            ) == name_field(name) {
                assert(data@.subrange(pos as int, pos + name_field(name).len())[0] == 34);
                assert(data@.subrange(pos as int, pos + 4)[0] == 110);
            }
        }
        Some((None, pos + null.len()))
    } else {
        match parse_text(data, pos, Ghost(text)) {
            None => None,
            Some((t, end)) => Some((Some(t), end)),
        }
    }
}

/// Reads the fields of a handshake; when `data` is the wire form of `v`, finds exactly `v`.
fn parse_fields(data: &[u8], Ghost(v): Ghost<HandshakeView>) -> (r: Option<HandshakeMessage>)
    ensures
        encoding(v) == data@ ==> (r matches Some(m) && m@ == v),
{
    let ghost d = data@;
    let ghost nf = name_field(v.node_name);
    let ghost qp = quoted(v.peer_id);
    let ghost dd = decimal(v.timestamp as nat);
    let ghost qm = quoted(v.message);
    let ghost canonical = encoding(v) == d;
    let total = data.len();
    proof {
        if canonical {
            lemma_decimal(v.timestamp as nat);
            assert(d.skip(0) =~= node_name_key() + (nf + (peer_id_key() + (qp + (timestamp_key() + (
            dd + (message_key() + (qm + seq![125u8]))))))));
            lemma_split_at(d, 0, node_name_key(), nf + (peer_id_key() + (qp + (timestamp_key() + (
            dd + (message_key() + (qm + seq![125u8])))))));
        }
    }
    let k1 = node_name_key_bytes();
    if !starts_with_at(data, 0, k1.as_slice()) {
        return None;
    }
    let name_at = k1.len();
    proof {
        if canonical {
            lemma_split_at(d, name_at as int, nf, peer_id_key() + (qp + (timestamp_key() + (dd + (
            message_key() + (qm + seq![125u8]))))));
        }
    }
    let (node_name, peer_key_at) = match parse_name_field(data, name_at, Ghost(v.node_name)) {
        None => {
            return None;
        },
        Some(x) => x,
    };
    proof {
        if canonical {
            lemma_split_at(d, peer_key_at as int, peer_id_key(), qp + (timestamp_key() + (dd + (
            message_key() + (qm + seq![125u8])))));
        }
    }
    let k2 = peer_id_key_bytes();
    if !starts_with_at(data, peer_key_at, k2.as_slice()) {
        return None;
    }
    let peer_at = peer_key_at + k2.len();
    proof {
        if canonical {
            lemma_split_at(d, peer_at as int, qp, timestamp_key() + (dd + (message_key() + (qm
                + seq![125u8]))));
        }
    }
    let (peer_id, time_key_at) = match parse_text(data, peer_at, Ghost(v.peer_id)) {
        None => {
            return None;
        },
        Some(x) => x,
    };
    proof {
        if canonical {
            lemma_split_at(d, time_key_at as int, timestamp_key(), dd + (message_key() + (qm
                + seq![125u8])));
        }
    }
    let k3 = timestamp_key_bytes();
    if !starts_with_at(data, time_key_at, k3.as_slice()) {
        return None;
    }
    let time_at = time_key_at + k3.len();
    proof {
        if canonical {
            lemma_split_at(d, time_at as int, dd, message_key() + (qm + seq![125u8]));
            assert(d[time_at + dd.len()] == d.skip(time_at + dd.len())[0]);
        }
    }
    let (timestamp, msg_key_at) = match parse_u64(data, time_at, Ghost(v.timestamp as nat)) {
        None => {
            return None;
        },
        Some(x) => x,
    };
    proof {
        if canonical {
            lemma_split_at(d, msg_key_at as int, message_key(), qm + seq![125u8]);
        }
    }
    let k4 = message_key_bytes();
    if !starts_with_at(data, msg_key_at, k4.as_slice()) {
        return None;
    }
    let msg_at = msg_key_at + k4.len();
    proof {
        if canonical {
            lemma_split_at(d, msg_at as int, qm, seq![125u8]);
        }
    }
    let (message, _end) = match parse_text(data, msg_at, Ghost(v.message)) {
        None => {
            return None;
        },
        Some(x) => x,
    };
    Some(HandshakeMessage { node_name, peer_id, timestamp, message })
}

fn bytes_equal(a: &[u8], b: &[u8]) -> (r: bool)
    ensures
        r == (a@ == b@),
{
    if a.len() != b.len() {
        return false;
    }
    let mut i: usize = 0;
    while i < a.len()
        invariant
            a@.len() == b@.len(),
            i <= a@.len(),
            forall|j: int| 0 <= j < i ==> a@[j] == b@[j],
        decreases a@.len() - i,
    {
        if a[i] != b[i] {
            return false;
        }
        i = i + 1;
    }
    assert(a@ =~= b@);
    true
}

/// Why a payload was refused.
#[derive(Debug, Clone, PartialEq, Eq)]
pub enum DecodeError {
    /// The bytes are not the wire form of any handshake.
    Malformed,
}

/// The bytes are the wire form of some handshake.
pub open spec fn is_encoding(d: Seq<u8>) -> bool {
    exists|v: HandshakeView| encoding(v) == d
}

/// `r` is what reading `data` must give: a handshake exactly when `data` is the wire form of one,
/// and then a handshake with that wire form.
pub open spec fn decodes_to(data: Seq<u8>, r: Result<HandshakeMessage, DecodeError>) -> bool {
    &&& r is Ok <==> is_encoding(data)
    &&& r matches Ok(m) ==> encoding(m@) == data
}

/// Reads a handshake from its wire form, refusing every other payload.
pub fn decode(data: &[u8]) -> (r: Result<HandshakeMessage, DecodeError>)
    ensures
        decodes_to(data@, r),
{
    let ghost target = choose|v: HandshakeView| encoding(v) == data@;
    match parse_fields(data, Ghost(target)) {
        None => Err(DecodeError::Malformed),
        Some(m) => {
            let again = encode(&m);
            if bytes_equal(again.as_slice(), data) {
                Ok(m)
            } else {
                Err(DecodeError::Malformed)
            }
        },
    }
}

proof fn lemma_quoted_unique(b1: Seq<u8>, b2: Seq<u8>, r1: Seq<u8>, r2: Seq<u8>)
    requires
        quoted_bytes(b1) + r1 == quoted_bytes(b2) + r2,
    ensures
        b1 == b2,
        r1 == r2,
{
    let d = quoted_bytes(b1) + r1;
    assert(d.skip(1) =~= escape(b1) + (seq![34u8] + r1));
    assert(d.skip(1) =~= escape(b2) + (seq![34u8] + r2));
    lemma_escape_align(b1, b2, seq![34u8] + r1, seq![34u8] + r2);
    if b1.len() < b2.len() {
        lemma_escape_byte_shape(b2[b1.len() as int]);
        assert((seq![34u8] + r1)[0] == 34);
        assert(false);
    }
    assert(b2.take(b1.len() as int) =~= b2);
    assert(r1 =~= (seq![34u8] + r1).skip(1));
    assert(r2 =~= (seq![34u8] + r2).skip(1));
}

proof fn lemma_text_unique(s1: Seq<char>, s2: Seq<char>, r1: Seq<u8>, r2: Seq<u8>)
    requires
        quoted(s1) + r1 == quoted(s2) + r2,
    ensures
        s1 == s2,
        r1 == r2,
{
    broadcast use encode_utf8_decode_utf8;

    lemma_quoted_unique(encode_utf8(s1), encode_utf8(s2), r1, r2);
    assert(decode_utf8(encode_utf8(s1)) == s1);
}

proof fn lemma_decimal_unique(n1: nat, n2: nat, r1: Seq<u8>, r2: Seq<u8>)
    requires
        decimal(n1) + r1 == decimal(n2) + r2,
        r1.len() > 0,
        !is_digit(r1[0]),
        r2.len() > 0,
        !is_digit(r2[0]),
    ensures
        n1 == n2,
        r1 == r2,
{
    lemma_decimal(n1);
    lemma_decimal(n2);
    let d = decimal(n1) + r1;
    let l1 = decimal(n1).len() as int;
    let l2 = decimal(n2).len() as int;
    if l1 < l2 {
        assert(d[l1] == r1[0]);
        assert(d[l1] == decimal(n2)[l1]);
        assert(false);
    }
    if l2 < l1 {
        assert(d[l2] == r2[0]);
        assert(d[l2] == decimal(n1)[l2]);
        assert(false);
    }
    assert(decimal(n1) =~= d.take(l1));
    assert(decimal(n2) =~= d.take(l1));
    assert(r1 =~= d.skip(l1));
    assert(r2 =~= d.skip(l1));
}

proof fn lemma_name_unique(o1: Option<Seq<char>>, o2: Option<Seq<char>>, r1: Seq<u8>, r2: Seq<u8>)
    requires
        name_field(o1) + r1 == name_field(o2) + r2,
    ensures
        o1 == o2,
        r1 == r2,
{
    let d = name_field(o1) + r1;
    match (o1, o2) {
        (Some(s1), Some(s2)) => {
            lemma_text_unique(s1, s2, r1, r2);
        },
        (None, None) => {
            assert(r1 =~= d.skip(4));
            assert(r2 =~= d.skip(4));
        },
        (Some(s1), None) => {
            assert(d[0] == quoted(s1)[0]);
            assert(d[0] == null_text()[0]);
        },
        (None, Some(s2)) => {
            assert(d[0] == quoted(s2)[0]);
            assert(d[0] == null_text()[0]);
        },
    }
}

proof fn lemma_strip_prefix(k: Seq<u8>, a: Seq<u8>, b: Seq<u8>)
    requires
        k + a == k + b,
    ensures
        a == b,
{
    assert(a =~= (k + a).skip(k.len() as int));
    assert(b =~= (k + b).skip(k.len() as int));
}

/// No wire form of a handshake is followed by more bytes in the wire form of another.
#[verifier::rlimit(40)]
pub proof fn lemma_encoding_prefix_free(v1: HandshakeView, v2: HandshakeView, x: Seq<u8>)
    requires
        encoding(v1) + x == encoding(v2),
    ensures
        v1 == v2,
        x.len() == 0,
{
    let close = seq![125u8];
    let t1 = message_key() + (quoted(v1.message) + (close + x));
    let t2 = message_key() + (quoted(v2.message) + close);
    let s1 = timestamp_key() + (decimal(v1.timestamp as nat) + t1);
    let s2 = timestamp_key() + (decimal(v2.timestamp as nat) + t2);
    let after_name1 = peer_id_key() + (quoted(v1.peer_id) + s1);
    let after_name2 = peer_id_key() + (quoted(v2.peer_id) + s2);
    assert(encoding(v1) + x =~= node_name_key() + (name_field(v1.node_name) + after_name1));
    assert(encoding(v2) =~= node_name_key() + (name_field(v2.node_name) + after_name2));
    lemma_strip_prefix(node_name_key(), name_field(v1.node_name) + after_name1, name_field(v2.node_name) + after_name2);
    lemma_name_unique(v1.node_name, v2.node_name, after_name1, after_name2);
    lemma_strip_prefix(peer_id_key(), quoted(v1.peer_id) + s1, quoted(v2.peer_id) + s2);
    lemma_text_unique(v1.peer_id, v2.peer_id, s1, s2);
    lemma_strip_prefix(
        timestamp_key(),
        decimal(v1.timestamp as nat) + t1,
        decimal(v2.timestamp as nat) + t2,
    );
    assert(t1[0] == 44);
    assert(t2[0] == 44);
    lemma_decimal_unique(v1.timestamp as nat, v2.timestamp as nat, t1, t2);
    lemma_strip_prefix(message_key(), quoted(v1.message) + (close + x), quoted(v2.message) + close);
    lemma_text_unique(v1.message, v2.message, close + x, close);
    assert((close + x).len() == close.len());
}

/// Distinct handshakes have distinct wire forms.
pub proof fn lemma_encoding_injective(v1: HandshakeView, v2: HandshakeView)
    requires
        encoding(v1) == encoding(v2),
    ensures
        v1 == v2,
{
    assert(encoding(v1) + Seq::<u8>::empty() =~= encoding(v1));
    lemma_encoding_prefix_free(v1, v2, Seq::empty());
}

/// A wire form cut short anywhere is the wire form of no handshake, so reading it fails.
pub proof fn lemma_truncation_rejected(v: HandshakeView, k: int)
    requires
        0 <= k < encoding(v).len(),
    ensures
        !is_encoding(encoding(v).take(k)),
{
    if is_encoding(encoding(v).take(k)) {
        let w = choose|w: HandshakeView| encoding(w) == encoding(v).take(k);
        assert(encoding(w) + encoding(v).skip(k) =~= encoding(v));
        lemma_encoding_prefix_free(w, v, encoding(v).skip(k));
    }
}

/// Reading the wire form of a handshake gives back that same handshake, every field included.
pub proof fn lemma_round_trip(m: HandshakeMessage, r: Result<HandshakeMessage, DecodeError>)
    requires
        decodes_to(encoding(m@), r),
    ensures
        r matches Ok(back) && back@ == m@,
{
    assert(is_encoding(encoding(m@)));
    if let Ok(back) = r {
        lemma_encoding_injective(back@, m@);
    }
}

} // verus!
