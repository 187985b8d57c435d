//! RFC 4648 standard-alphabet base64, encode and decode.
//!
//! OSC 52 carries its payload as base64. The decoder is deliberately lenient
//! about interleaved whitespace — some terminals and multiplexers fold long
//! sequences across lines before they reach us.

use vstd::prelude::*;
use crate::numtext::{dec_chars, hex2_chars, push_dec, push_hex2};
use crate::text::push_char;
use vstd::string::StringSliceAdditionalSpecFns;
use vstd::utf8::{encode_utf8, is_ascii_chars, is_ascii_chars_encode_utf8};

verus! {

// ------------------------------------------------------------------ alphabet

/// ASCII code of the alphabet symbol for a sextet value `v` (0..64).
pub open spec fn symbol_byte(v: int) -> u8 {
    if v < 26 {
        (65 + v) as u8
    } else if v < 52 {
        (71 + v) as u8
    } else if v < 62 {
        (v - 4) as u8
    } else if v == 62 {
        43u8
    } else {
        47u8
    }
}

/// The alphabet symbol for a sextet value `v` (0..64).
pub open spec fn symbol(v: int) -> char {
    symbol_byte(v) as char
}

/// The padding character.
pub open spec fn pad() -> char {
    '='
}

// ------------------------------------------------------------------ encoding

/// The four symbols for one full group of three bytes.
pub open spec fn encode_triple(b0: u8, b1: u8, b2: u8) -> Seq<char> {
    seq![
        symbol((b0 / 4) as int),
        symbol((b0 % 4) * 16 + b1 / 16),
        symbol((b1 % 16) * 4 + b2 / 64),
        symbol((b2 % 64) as int),
    ]
}

/// Padded standard base64 of `d`, as characters.
pub open spec fn encode_chars(d: Seq<u8>) -> Seq<char>
    decreases d.len(),
{
    if d.len() == 0 {
        seq![]
    } else if d.len() == 1 {
        seq![symbol((d[0] / 4) as int), symbol((d[0] % 4) * 16), pad(), pad()]
    } else if d.len() == 2 {
        seq![symbol((d[0] / 4) as int), symbol((d[0] % 4) * 16 + d[1] / 16), symbol((d[1] % 16) * 4), pad()]
    } else {
        encode_triple(d[0], d[1], d[2]) + encode_chars(d.skip(3))
    }
}

/// Length of the padded base64 text of `n` bytes.
pub open spec fn encoded_len(n: nat) -> nat {
    ((n + 2) / 3 * 4) as nat
}

fn sym(v: u8) -> (c: char)
    requires
        v < 64,
    ensures
        c == symbol(v as int),
{
    if v < 26 {
        (65u8 + v) as char
    } else if v < 52 {
        (71u8 + v) as char
    } else if v < 62 {
        (v - 4) as char
    } else if v == 62 {
        '+'
    } else {
        '/'
    }
}

/// Encode `data` as padded standard base64.
pub fn encode(data: &[u8]) -> (out: String)
    ensures
        out@ == encode_chars(data@),
        out@.len() == encoded_len(data@.len()),
{
    let n = data.len();
    let mut out = String::new();
    let mut i: usize = 0;
    proof {
        assert(data@.skip(0) =~= data@);
    }
    while n - i >= 3
        invariant
            i <= n,
            n == data@.len(),
            encode_chars(data@) == out@ + encode_chars(data@.skip(i as int)),
            out@.len() == i / 3 * 4,
            i % 3 == 0,
        decreases n - i,
    {
        let b0 = data[i];
        let b1 = data[i + 1];
        let b2 = data[i + 2];
        let ghost before = out@;
        push_char(&mut out, sym(b0 / 4));
        push_char(&mut out, sym((b0 % 4) * 16 + b1 / 16));
        push_char(&mut out, sym((b1 % 16) * 4 + b2 / 64));
        push_char(&mut out, sym(b2 % 64));
        proof {
            let rest = data@.skip(i as int);
            assert(rest.skip(3) =~= data@.skip(i + 3));
            assert(out@ =~= before + encode_triple(b0, b1, b2));
            assert(encode_chars(rest) == encode_triple(rest[0], rest[1], rest[2]) + encode_chars(rest.skip(3)));
            assert(encode_chars(data@) =~= out@ + encode_chars(data@.skip(i + 3)));
        }
        i = i + 3;
    }
    let ghost before = out@;
    let rem = n - i;
    if rem == 1 {
        let b0 = data[i];
        push_char(&mut out, sym(b0 / 4));
        push_char(&mut out, sym((b0 % 4) * 16));
        push_char(&mut out, '=');
        push_char(&mut out, '=');
    } else if rem == 2 {
        let b0 = data[i];
        let b1 = data[i + 1];
        push_char(&mut out, sym(b0 / 4));
        push_char(&mut out, sym((b0 % 4) * 16 + b1 / 16));
        push_char(&mut out, sym((b1 % 16) * 4));
        push_char(&mut out, '=');
    }
    proof {
        let rest = data@.skip(i as int);
        assert(rest.len() == rem);
        if rem == 1 {
            assert(rest[0] == data@[i as int]);
        } else if rem == 2 {
            assert(rest[0] == data@[i as int]);
            assert(rest[1] == data@[i + 1]);
        }
        assert(out@ =~= before + encode_chars(rest));
    }
    out
}

// ------------------------------------------------------------------ decoding

/// `u8::is_ascii_whitespace`: space, tab, line feed, form feed, carriage return.
pub open spec fn is_ascii_ws(b: u8) -> bool {
    b == 32 || b == 9 || b == 10 || b == 12 || b == 13
}

/// The sextet value of an alphabet byte, `None` for any other byte.
pub open spec fn sextet_value(b: u8) -> Option<u8> {
    if 65 <= b <= 90 {
        Some((b - 65) as u8)
    } else if 97 <= b <= 122 {
        Some((b - 71) as u8)
    } else if 48 <= b <= 57 {
        Some((b + 4) as u8)
    } else if b == 43 {
        Some(62u8)
    } else if b == 47 {
        Some(63u8)
    } else {
        None
    }
}

/// Whether the decoder passes over `b` without taking a sextet from it.
pub open spec fn is_skipped(b: u8) -> bool {
    is_ascii_ws(b) || b == 61
}

/// The sextets carried by `bytes`, in order; whitespace and `=` are skipped.
pub open spec fn sextets(bytes: Seq<u8>) -> Seq<u8>
    decreases bytes.len(),
{
    if bytes.len() == 0 {
        seq![]
    } else {
        let prev = sextets(bytes.drop_last());
        let b = bytes.last();
        match sextet_value(b) {
            Some(v) => prev.push(v),
            None => prev,
        }
    }
}

/// The byte at `i` makes the input corrupt: it is neither whitespace nor
/// padding, and it either follows a `=` or is not in the alphabet.
pub open spec fn fault_at(bytes: Seq<u8>, i: int) -> bool {
    &&& !is_skipped(bytes[i])
    &&& (bytes.take(i).contains(61u8) || sextet_value(bytes[i]) is None)
}

/// Index of the first faulty byte, if any.
pub open spec fn first_fault(bytes: Seq<u8>) -> Option<int>
    decreases bytes.len(),
{
    if bytes.len() == 0 {
        None
    } else {
        match first_fault(bytes.drop_last()) {
            Some(j) => Some(j),
            None => if fault_at(bytes, bytes.len() - 1) {
                Some(bytes.len() - 1)
            } else {
                None
            },
        }
    }
}

/// The error reported for the faulty byte at `i`.
pub open spec fn fault_message(bytes: Seq<u8>, i: int) -> Seq<char> {
    if bytes.take(i).contains(61u8) {
        "data after '=' padding at byte "@ + dec_chars(i as nat)
    } else {
        "invalid base64 byte 0x"@ + hex2_chars(bytes[i]) + " at "@ + dec_chars(i as nat)
    }
}

/// The error reported when one sextet is left over at the end.
pub open spec fn truncated_message() -> Seq<char> {
    "truncated base64: lone trailing sextet"@
}

/// First decoded byte of a group starting with sextets `s0`, `s1`.
pub open spec fn first_byte(s0: u8, s1: u8) -> u8 {
    (s0 * 4 + s1 / 16) as u8
}

/// Second decoded byte of a group with sextets `s1`, `s2` in positions 1, 2.
pub open spec fn second_byte(s1: u8, s2: u8) -> u8 {
    ((s1 % 16) * 16 + s2 / 4) as u8
}

/// Third decoded byte of a group with sextets `s2`, `s3` in positions 2, 3.
pub open spec fn third_byte(s2: u8, s3: u8) -> u8 {
    ((s2 % 4) * 64 + s3) as u8
}

/// The bytes that a sequence of sextets stands for: three per full group of
/// four, then one for a tail of two and two for a tail of three.
pub open spec fn sextets_to_bytes(s: Seq<u8>) -> Seq<u8>
    decreases s.len(),
{
    if s.len() < 2 {
        seq![]
    } else if s.len() == 2 {
        seq![first_byte(s[0], s[1])]
    } else if s.len() == 3 {
        seq![first_byte(s[0], s[1]), second_byte(s[1], s[2])]
    } else {
        seq![first_byte(s[0], s[1]), second_byte(s[1], s[2]), third_byte(s[2], s[3])]
            + sextets_to_bytes(s.skip(4))
    }
}

/// What `decode` returns for the UTF-8 bytes of its argument.
pub open spec fn decode_bytes(bytes: Seq<u8>) -> Result<Seq<u8>, Seq<char>> {
    match first_fault(bytes) {
        Some(i) => Err(fault_message(bytes, i)),
        None => {
            let s = sextets(bytes);
            if s.len() % 4 == 1 {
                Err(truncated_message())
            } else {
                Ok(sextets_to_bytes(s))
            }
        },
    }
}

proof fn lemma_sextets_to_bytes_split(a: Seq<u8>, b: Seq<u8>)
    requires
        a.len() % 4 == 0,
    ensures
        sextets_to_bytes(a + b) == sextets_to_bytes(a) + sextets_to_bytes(b),
    decreases a.len(),
{
    if a.len() == 0 {
        assert(a + b =~= b);
        assert(sextets_to_bytes(a) =~= seq![]);
        assert(sextets_to_bytes(a + b) =~= sextets_to_bytes(a) + sextets_to_bytes(b));
    } else {
        assert((a + b).skip(4) =~= a.skip(4) + b);
        lemma_sextets_to_bytes_split(a.skip(4), b);
        assert(sextets_to_bytes(a + b) =~= sextets_to_bytes(a) + sextets_to_bytes(b));
    }
}

proof fn lemma_first_fault_prefix(bytes: Seq<u8>, k: int)
    requires
        0 <= k <= bytes.len(),
        first_fault(bytes.take(k)) is Some,
    ensures
        first_fault(bytes) == first_fault(bytes.take(k)),
    decreases bytes.len(),
{
    if k == bytes.len() {
        assert(bytes.take(k) =~= bytes);
    } else {
        assert(bytes.drop_last().take(k) =~= bytes.take(k));
        lemma_first_fault_prefix(bytes.drop_last(), k);
    }
}

fn sextet(b: u8) -> (r: Option<u8>)
    ensures
        r == sextet_value(b),
{
    if 65 <= b && b <= 90 {
        Some(b - 65)
    } else if 97 <= b && b <= 122 {
        Some(b - 71)
    } else if 48 <= b && b <= 57 {
        Some(b + 4)
    } else if b == 43 {
        Some(62)
    } else if b == 47 {
        Some(63)
    } else {
        None
    }
}

/// Decode standard base64. ASCII whitespace is skipped; `=` padding is
/// accepted but not required (unpadded tails of 2 or 3 sextets decode fine).
/// Any other non-alphabet byte is an error.
pub fn decode(s: &str) -> (r: Result<Vec<u8>, String>)
    ensures
        match decode_bytes(s.spec_bytes()) {
            Ok(d) => r matches Ok(v) && v@ == d,
            Err(m) => r matches Err(e) && e@ == m,
        },
{
    let bytes = s.as_bytes();
    let ghost bs = bytes@;
    let n = bytes.len();
    let mut out: Vec<u8> = Vec::new();
    let mut pending: Vec<u8> = Vec::new();
    let mut seen_pad = false;
    let mut i: usize = 0;
    while i < n
        invariant
            n == bs.len(),
            bytes@ == bs,
            bs == s.spec_bytes(),
            i <= n,
            first_fault(bs.take(i as int)) is None,
            seen_pad == bs.take(i as int).contains(61u8),
            pending.len() < 4,
            forall|k: int| 0 <= k < pending.len() ==> pending@[k] < 64,
            ({
                let sx = sextets(bs.take(i as int));
                let full = sx.len() - pending.len();
                &&& full >= 0
                &&& full % 4 == 0
                &&& pending@ == sx.subrange(full, sx.len() as int)
                &&& out@ == sextets_to_bytes(sx.take(full))
            }),
        decreases n - i,
    {
        let b = bytes[i];
        let ghost pre = bs.take(i as int);
        let ghost post = bs.take(i + 1);
        proof {
            assert(post.drop_last() =~= pre);
            assert(post.last() == b);
            assert(post.take(i as int) =~= pre);
        }
        if b == 32 || b == 9 || b == 10 || b == 12 || b == 13 {
            proof {
                assert(sextets(post) == sextets(pre));
                assert(pre.contains(61u8) == post.contains(61u8)) by {
                    if post.contains(61u8) {
                        let j = choose|j: int| 0 <= j < post.len() && post[j] == 61u8;
                        assert(pre[j] == 61u8);
                    }
                }
            }
            i = i + 1;
        } else if b == 61 {
            proof {
                assert(sextets(post) == sextets(pre));
                assert(post[i as int] == 61u8);
            }
            seen_pad = true;
            i = i + 1;
        } else {
            let v = sextet(b);
            if seen_pad || v.is_none() {
                proof {
                    assert(fault_at(post, i as int));
                    assert(first_fault(post) == Some(i as int));
                    lemma_first_fault_prefix(bs, i + 1);
                    assert(bs.take(i as int) =~= pre);
                    assert(bs[i as int] == b);
                }
                if seen_pad {
                    let mut msg = "data after '=' padding at byte ".to_owned();
                    push_dec(&mut msg, i as u64);
                    return Err(msg);
                } else {
                    let mut msg = "invalid base64 byte 0x".to_owned();
                    push_hex2(&mut msg, b);
                    msg.append(" at ");
                    push_dec(&mut msg, i as u64);
                    return Err(msg);
                }
            }
            let v = v.unwrap();
            let ghost sx = sextets(pre);
            let ghost full = sx.len() - pending.len();
            proof {
                assert(!fault_at(post, i as int));
                assert(sextets(post) == sx.push(v));
                assert(pre.contains(61u8) == post.contains(61u8)) by {
                    if post.contains(61u8) {
                        let j = choose|j: int| 0 <= j < post.len() && post[j] == 61u8;
                        assert(pre[j] == 61u8);
                    }
                }
            }
            if pending.len() == 3 {
                let s0 = pending[0];
                let s1 = pending[1];
                let s2 = pending[2];
                out.push((s0 * 4 + s1 / 16) as u8);
                out.push(((s1 % 16) * 16 + s2 / 4) as u8);
                out.push(((s2 % 4) * 64 + v) as u8);
                pending = Vec::new();
                proof {
                    let sx2 = sx.push(v);
                    let g = sx2.subrange(full, full + 4);
                    assert(sx2.take(full + 4) =~= sx.take(full) + g);
                    lemma_sextets_to_bytes_split(sx.take(full), g);
                    assert(g.len() == 4);
                    assert(g.skip(4) =~= Seq::<u8>::empty());
                    assert(sextets_to_bytes(g.skip(4)) =~= Seq::<u8>::empty());
                    assert(g[0] == s0 && g[1] == s1 && g[2] == s2 && g[3] == v);
                    assert(sextets_to_bytes(g) =~= seq![first_byte(s0, s1), second_byte(s1, s2), third_byte(s2, v)]);
                    assert(pending@ =~= sx2.subrange(full + 4, sx2.len() as int));
                }
            } else {
                pending.push(v);
                proof {
                    let sx2 = sx.push(v);
                    assert(sx2.take(full) =~= sx.take(full));
                    assert(pending@ =~= sx2.subrange(full, sx2.len() as int));
                }
            }
            i = i + 1;
        }
    }
    proof {
        assert(bs.take(n as int) =~= bs);
    }
    let ghost sx = sextets(bs);
    let ghost full = sx.len() - pending.len();
    let ghost head = sx.take(full);
    proof {
        assert(sx =~= head + pending@);
        lemma_sextets_to_bytes_split(head, pending@);
    }
    let np = pending.len();
    if np == 1 {
        return Err("truncated base64: lone trailing sextet".to_owned());
    } else if np == 2 {
        let s0 = pending[0];
        let s1 = pending[1];
        out.push((s0 * 4 + s1 / 16) as u8);
        proof {
            assert(sextets_to_bytes(pending@) =~= seq![first_byte(s0, s1)]);
        }
    } else if np == 3 {
        let s0 = pending[0];
        let s1 = pending[1];
        let s2 = pending[2];
        out.push((s0 * 4 + s1 / 16) as u8);
        out.push(((s1 % 16) * 16 + s2 / 4) as u8);
        proof {
            assert(sextets_to_bytes(pending@) =~= seq![first_byte(s0, s1), second_byte(s1, s2)]);
        }
    } else {
        proof {
            assert(sextets_to_bytes(pending@) =~= Seq::<u8>::empty());
        }
    }
    proof {
        assert(out@ =~= sextets_to_bytes(sx));
    }
    Ok(out)
}

// ------------------------------------------------------------------ laws

/// The bytes of an ASCII character sequence.
pub open spec fn ascii_bytes(cs: Seq<char>) -> Seq<u8> {
    Seq::new(cs.len(), |i: int| cs[i] as u8)
}

proof fn lemma_sextets_concat(a: Seq<u8>, b: Seq<u8>)
    ensures
        sextets(a + b) == sextets(a) + sextets(b),
    decreases b.len(),
{
    if b.len() == 0 {
        assert(a + b =~= a);
        assert(sextets(a) + sextets(b) =~= sextets(a));
    } else {
        assert((a + b).drop_last() =~= a + b.drop_last());
        assert((a + b).last() == b.last());
        lemma_sextets_concat(a, b.drop_last());
        match sextet_value(b.last()) {
            Some(v) => {
                assert(sextets(a + b) =~= sextets(a) + sextets(b));
            },
            None => {
                assert(sextets(a + b) =~= sextets(a) + sextets(b));
            },
        }
    }
}

proof fn lemma_no_fault(bytes: Seq<u8>)
    requires
        forall|i: int| 0 <= i < bytes.len() ==> !fault_at(bytes, i),
    ensures
        first_fault(bytes) is None,
    decreases bytes.len(),
{
    if bytes.len() > 0 {
        let p = bytes.drop_last();
        assert forall|i: int| 0 <= i < p.len() implies !fault_at(p, i) by {
            assert(p.take(i) =~= bytes.take(i));
            assert(p[i] == bytes[i]);
            assert(!fault_at(bytes, i));
        }
        lemma_no_fault(p);
        assert(!fault_at(bytes, bytes.len() - 1));
    }
}

/// The ASCII bytes of encoded text: alphabet symbols, then only padding.
spec fn well_padded(e: Seq<u8>) -> bool {
    &&& forall|i: int| 0 <= i < e.len() ==> (#[trigger] sextet_value(e[i]) is Some || e[i] == 61u8)
    &&& forall|i: int, j: int| #![trigger e[i], e[j]] 0 <= i < j < e.len() && e[i] == 61u8 ==> e[j] == 61u8
}

proof fn lemma_well_padded_no_fault(e: Seq<u8>)
    requires
        well_padded(e),
    ensures
        first_fault(e) is None,
{
    assert forall|i: int| 0 <= i < e.len() implies !fault_at(e, i) by {
        if sextet_value(e[i]) is Some {
            if e.take(i).contains(61u8) {
                let j = choose|j: int| 0 <= j < e.take(i).len() && e.take(i)[j] == 61u8;
                assert(e[j] == 61u8);
                assert(e[i] == 61u8);
            }
        }
    }
    lemma_no_fault(e);
}

proof fn lemma_symbol_sextet(v: int)
    requires
        0 <= v < 64,
    ensures
        symbol(v) as u8 == symbol_byte(v),
        sextet_value(symbol_byte(v)) == Some(v as u8),
{
}

proof fn lemma_group_bytes(b0: u8, b1: u8, b2: u8)
    ensures
        first_byte(b0 / 4, ((b0 % 4) * 16 + b1 / 16) as u8) == b0,
        second_byte(((b0 % 4) * 16 + b1 / 16) as u8, ((b1 % 16) * 4 + b2 / 64) as u8) == b1,
        third_byte(((b1 % 16) * 4 + b2 / 64) as u8, b2 % 64) == b2,
        first_byte(b0 / 4, ((b0 % 4) * 16) as u8) == b0,
        second_byte(((b0 % 4) * 16 + b1 / 16) as u8, ((b1 % 16) * 4) as u8) == b1,
{
    assert(first_byte(b0 / 4, ((b0 % 4) * 16 + b1 / 16) as u8) == b0) by (bit_vector);
    assert(second_byte(((b0 % 4) * 16 + b1 / 16) as u8, ((b1 % 16) * 4 + b2 / 64) as u8) == b1)
        by (bit_vector);
    assert(third_byte(((b1 % 16) * 4 + b2 / 64) as u8, b2 % 64) == b2) by (bit_vector);
    assert(first_byte(b0 / 4, ((b0 % 4) * 16) as u8) == b0) by (bit_vector);
    assert(second_byte(((b0 % 4) * 16 + b1 / 16) as u8, ((b1 % 16) * 4) as u8) == b1)
        by (bit_vector);
}

/// The sextets a single byte contributes.
spec fn sextets_of_byte(x: u8) -> Seq<u8> {
    match sextet_value(x) {
        Some(v) => seq![v],
        None => seq![],
    }
}

proof fn lemma_sextets4(x0: u8, x1: u8, x2: u8, x3: u8)
    ensures
        sextets(seq![x0, x1, x2, x3]) == sextets_of_byte(x0) + sextets_of_byte(x1)
            + sextets_of_byte(x2) + sextets_of_byte(x3),
{
    let s4 = seq![x0, x1, x2, x3];
    let s3 = seq![x0, x1, x2];
    let s2 = seq![x0, x1];
    let s1 = seq![x0];
    let s0 = Seq::<u8>::empty();
    assert(s4.drop_last() =~= s3);
    assert(s3.drop_last() =~= s2);
    assert(s2.drop_last() =~= s1);
    assert(s1.drop_last() =~= s0);
    assert(sextets(s0) =~= Seq::<u8>::empty());
    assert(sextets(s1) =~= sextets_of_byte(x0));
    assert(sextets(s2) =~= sextets_of_byte(x0) + sextets_of_byte(x1));
    assert(sextets(s3) =~= sextets_of_byte(x0) + sextets_of_byte(x1) + sextets_of_byte(x2));
    assert(sextets(s4) =~= sextets_of_byte(x0) + sextets_of_byte(x1) + sextets_of_byte(x2)
        + sextets_of_byte(x3));
}

proof fn lemma_encode_tail1(b0: u8)
    ensures
        ({
            let e = ascii_bytes(encode_chars(seq![b0]));
            &&& well_padded(e)
            &&& sextets(e).len() == 2
            &&& sextets_to_bytes(sextets(e)) == seq![b0]
            &&& is_ascii_chars(encode_chars(seq![b0]))
        }),
{
    let d = seq![b0];
    let e = ascii_bytes(encode_chars(d));
    let v0 = (b0 / 4) as int;
    let v1 = ((b0 % 4) * 16) as int;
    lemma_symbol_sextet(v0);
    lemma_symbol_sextet(v1);
    assert(e =~= seq![symbol_byte(v0), symbol_byte(v1), 61u8, 61u8]);
    lemma_sextets4(symbol_byte(v0), symbol_byte(v1), 61u8, 61u8);
    assert(sextets(e) =~= seq![v0 as u8, v1 as u8]);
    lemma_group_bytes(b0, 0, 0);
    assert(sextets_to_bytes(sextets(e)) =~= seq![b0]);
}

proof fn lemma_encode_tail2(b0: u8, b1: u8)
    ensures
        ({
            let e = ascii_bytes(encode_chars(seq![b0, b1]));
            &&& well_padded(e)
            &&& sextets(e).len() == 3
            &&& sextets_to_bytes(sextets(e)) == seq![b0, b1]
            &&& is_ascii_chars(encode_chars(seq![b0, b1]))
        }),
{
    let d = seq![b0, b1];
    let e = ascii_bytes(encode_chars(d));
    let v0 = (b0 / 4) as int;
    let v1 = ((b0 % 4) * 16 + b1 / 16) as int;
    let v2 = ((b1 % 16) * 4) as int;
    lemma_symbol_sextet(v0);
    lemma_symbol_sextet(v1);
    lemma_symbol_sextet(v2);
    assert(e =~= seq![symbol_byte(v0), symbol_byte(v1), symbol_byte(v2), 61u8]);
    lemma_sextets4(symbol_byte(v0), symbol_byte(v1), symbol_byte(v2), 61u8);
    assert(sextets(e) =~= seq![v0 as u8, v1 as u8, v2 as u8]);
    lemma_group_bytes(b0, b1, 0);
    assert(sextets_to_bytes(sextets(e)) =~= seq![b0, b1]);
}

proof fn lemma_encode_triple(b0: u8, b1: u8, b2: u8)
    ensures
        ({
            let g = ascii_bytes(encode_triple(b0, b1, b2));
            &&& g.len() == 4
            &&& forall|i: int| 0 <= i < 4 ==> #[trigger] sextet_value(g[i]) is Some
            &&& sextets(g).len() == 4
            &&& sextets_to_bytes(sextets(g)) == seq![b0, b1, b2]
            &&& is_ascii_chars(encode_triple(b0, b1, b2))
        }),
{
    let g = ascii_bytes(encode_triple(b0, b1, b2));
    let v0 = (b0 / 4) as int;
    let v1 = ((b0 % 4) * 16 + b1 / 16) as int;
    let v2 = ((b1 % 16) * 4 + b2 / 64) as int;
    let v3 = (b2 % 64) as int;
    lemma_symbol_sextet(v0);
    lemma_symbol_sextet(v1);
    lemma_symbol_sextet(v2);
    lemma_symbol_sextet(v3);
    assert(g =~= seq![symbol_byte(v0), symbol_byte(v1), symbol_byte(v2), symbol_byte(v3)]);
    lemma_sextets4(symbol_byte(v0), symbol_byte(v1), symbol_byte(v2), symbol_byte(v3));
    let sg = seq![v0 as u8, v1 as u8, v2 as u8, v3 as u8];
    assert(sextets(g) =~= sg);
    lemma_group_bytes(b0, b1, b2);
    assert(sg.skip(4) =~= Seq::<u8>::empty());
    assert(sextets_to_bytes(sg.skip(4)) =~= Seq::<u8>::empty());
    assert(sextets_to_bytes(sg) =~= seq![b0, b1, b2]);
}

proof fn lemma_encode_bytes(d: Seq<u8>)
    ensures
        well_padded(ascii_bytes(encode_chars(d))),
        sextets(ascii_bytes(encode_chars(d))).len() % 4 != 1,
        sextets_to_bytes(sextets(ascii_bytes(encode_chars(d)))) == d,
        is_ascii_chars(encode_chars(d)),
    decreases d.len(),
{
    let e = ascii_bytes(encode_chars(d));
    if d.len() == 0 {
        assert(e =~= Seq::<u8>::empty());
        assert(sextets(e) =~= Seq::<u8>::empty());
        assert(sextets_to_bytes(sextets(e)) =~= d);
    } else if d.len() == 1 {
        assert(d =~= seq![d[0]]);
        lemma_encode_tail1(d[0]);
    } else if d.len() == 2 {
        assert(d =~= seq![d[0], d[1]]);
        lemma_encode_tail2(d[0], d[1]);
    } else {
        let b0 = d[0];
        let b1 = d[1];
        let b2 = d[2];
        let rest = d.skip(3);
        lemma_encode_bytes(rest);
        lemma_encode_triple(b0, b1, b2);
        let er = ascii_bytes(encode_chars(rest));
        let g = ascii_bytes(encode_triple(b0, b1, b2));
        assert(e =~= g + er);
        lemma_sextets_concat(g, er);
        lemma_sextets_to_bytes_split(sextets(g), sextets(er));
        assert(d =~= seq![b0, b1, b2] + rest);
        assert forall|i: int, j: int| #![trigger e[i], e[j]] 0 <= i < j < e.len() && e[i] == 61u8 implies e[j] == 61u8 by {
            if i >= 4 {
                assert(e[i] == er[i - 4]);
                assert(e[j] == er[j - 4]);
            } else {
                assert(e[i] == g[i]);
                assert(sextet_value(g[i]) is Some);
            }
        }
        assert forall|i: int| 0 <= i < e.len() implies (#[trigger] sextet_value(e[i]) is Some || e[i] == 61u8) by {
            if i >= 4 {
                assert(e[i] == er[i - 4]);
            } else {
                assert(e[i] == g[i]);
            }
        }
        let cs = encode_chars(d);
        assert(cs =~= encode_triple(b0, b1, b2) + encode_chars(rest));
        assert forall|i: int| 0 <= i < cs.len() implies '\0' <= #[trigger] cs[i] <= '\u{7f}' by {
            if i >= 4 {
                assert(cs[i] == encode_chars(rest)[i - 4]);
            } else {
                assert(cs[i] == encode_triple(b0, b1, b2)[i]);
            }
        }
    }
}

/// Encoded text is ASCII: every character is an alphabet symbol or `=`.
pub proof fn lemma_encode_ascii(d: Seq<u8>)
    ensures
        is_ascii_chars(encode_chars(d)),
        forall|i: int| 0 <= i < encode_chars(d).len() ==>
            (#[trigger] sextet_value(ascii_bytes(encode_chars(d))[i]) is Some
            || ascii_bytes(encode_chars(d))[i] == 61u8),
{
    lemma_encode_bytes(d);
}

/// Decoding what `encode` produced gives back exactly the encoded bytes.
pub proof fn lemma_decode_encode(d: Seq<u8>)
    ensures
        decode_bytes(encode_utf8(encode_chars(d))) == Ok::<Seq<u8>, Seq<char>>(d),
{
    lemma_encode_bytes(d);
    let cs = encode_chars(d);
    is_ascii_chars_encode_utf8(cs);
    assert(encode_utf8(cs) =~= ascii_bytes(cs));
    lemma_well_padded_no_fault(ascii_bytes(cs));
}

proof fn lemma_fault_free(bytes: Seq<u8>)
    requires
        first_fault(bytes) is None,
    ensures
        forall|i: int| 0 <= i < bytes.len() ==> !fault_at(bytes, i),
    decreases bytes.len(),
{
    if bytes.len() > 0 {
        let p = bytes.drop_last();
        lemma_fault_free(p);
        assert forall|i: int| 0 <= i < bytes.len() implies !fault_at(bytes, i) by {
            if i < p.len() {
                assert(p.take(i) =~= bytes.take(i));
                assert(p[i] == bytes[i]);
                assert(!fault_at(p, i));
            }
        }
    }
}

/// Inserting one whitespace byte keeps exactly the faults there were.
proof fn lemma_faults_with_space(a: Seq<u8>, w: u8, b: Seq<u8>)
    requires
        is_ascii_ws(w),
    ensures
        (first_fault(a + seq![w] + b) is None) == (first_fault(a + b) is None),
{
    let x = a + seq![w] + b;
    let y = a + b;
    let n = a.len() as int;
    assert forall|i: int| 0 <= i < y.len() implies (fault_at(y, i) == fault_at(x, if i < n { i } else { i + 1 })) by {
        if i < n {
            assert(x.take(i) =~= y.take(i));
            assert(x[i] == y[i]);
        } else {
            assert(x[i + 1] == y[i]);
            assert(x.take(i + 1) =~= y.take(n) + seq![w] + y.take(i).skip(n));
            assert(y.take(i) =~= y.take(n) + y.take(i).skip(n));
            if y.take(i).contains(61u8) {
                let k = choose|k: int| 0 <= k < y.take(i).len() && #[trigger] y.take(i)[k] == 61u8;
                assert(x.take(i + 1)[if k < n { k } else { k + 1 }] == 61u8);
            }
            if x.take(i + 1).contains(61u8) {
                let k = choose|k: int| 0 <= k < x.take(i + 1).len() && #[trigger] x.take(i + 1)[k] == 61u8;
                assert(k != n);
                assert(y.take(i)[if k < n { k } else { k - 1 }] == 61u8);
            }
        }
    }
    assert(!fault_at(x, n));
    if first_fault(y) is None {
        lemma_fault_free(y);
        assert forall|i: int| 0 <= i < x.len() implies !fault_at(x, i) by {
            if i < n {
                assert(fault_at(y, i) == fault_at(x, i));
            } else if i > n {
                assert(fault_at(y, i - 1) == fault_at(x, i));
            }
        }
        lemma_no_fault(x);
    }
    if first_fault(x) is None {
        lemma_fault_free(x);
        assert forall|i: int| 0 <= i < y.len() implies !fault_at(y, i) by {
            assert(fault_at(y, i) == fault_at(x, if i < n { i } else { i + 1 }));
        }
        lemma_no_fault(y);
    }
}

/// Whitespace is transparent to decoding: inserting a whitespace byte
/// anywhere leaves the input exactly as decodable, to the same bytes (or the
/// same truncation error); only the byte offsets in other errors move.
pub proof fn lemma_whitespace_transparent(a: Seq<u8>, w: u8, b: Seq<u8>)
    requires
        is_ascii_ws(w),
    ensures
        (decode_bytes(a + seq![w] + b) is Ok) == (decode_bytes(a + b) is Ok),
        first_fault(a + b) is None ==> decode_bytes(a + seq![w] + b) == decode_bytes(a + b),
{
    lemma_faults_with_space(a, w, b);
    lemma_sextets_concat(a, seq![w]);
    lemma_sextets_concat(a + seq![w], b);
    lemma_sextets_concat(a, b);
    assert(seq![w].drop_last() =~= Seq::<u8>::empty());
    assert(seq![w].last() == w);
    assert(sextet_value(w) is None);
    assert(sextets(Seq::<u8>::empty()) =~= Seq::<u8>::empty());
    assert(sextets(seq![w]) =~= Seq::<u8>::empty());
    assert(sextets(a) + sextets(seq![w]) =~= sextets(a));
}

/// The base64 alphabet of RFC 4648 (its table 1), in sextet order.
pub open spec fn standard_alphabet() -> Seq<char> {
    "ABCDEFGHIJKLMNOPQRSTUVWXYZabcdefghijklmnopqrstuvwxyz0123456789+/"@
}

/// Encoding and decoding use the standard alphabet of RFC 4648: sextet `v`
/// is written as the `v`-th symbol of `A`–`Z`, `a`–`z`, `0`–`9`, `+`, `/`;
/// exactly those 64 symbols decode, each to its own position.
pub proof fn lemma_standard_alphabet()
    ensures
        standard_alphabet().len() == 64,
        forall|v: int| 0 <= v < 64 ==> #[trigger] symbol(v) == standard_alphabet()[v],
        forall|v: int| 0 <= v < 64 ==> sextet_value(#[trigger] standard_alphabet()[v] as u8) == Some(v as u8),
        forall|b: u8| #[trigger] sextet_value(b) matches Some(v) ==> v < 64 && standard_alphabet()[v as int] == b as char,
{
    reveal_strlit("ABCDEFGHIJKLMNOPQRSTUVWXYZabcdefghijklmnopqrstuvwxyz0123456789+/");
    let a = standard_alphabet();
    assert(a.len() == 64);
}

/// Base64 as RFC 4648 section 4 describes it: each group of three bytes,
/// read as 24 bits, becomes four symbols of the standard alphabet, six bits
/// each, most significant first; a final group of one or two bytes is
/// filled with zero bits and padded with `=` to four symbols; and the text
/// of a longer input is the texts of its groups in order.
pub proof fn lemma_encode_groups(b0: u8, b1: u8, b2: u8, d: Seq<u8>, e: Seq<u8>)
    requires
        d.len() % 3 == 0,
    ensures
        encode_chars(seq![b0, b1, b2]) == seq![
            standard_alphabet()[(b0 >> 2u8) as int],
            standard_alphabet()[(((b0 & 3u8) << 4u8) | (b1 >> 4u8)) as int],
            standard_alphabet()[(((b1 & 15u8) << 2u8) | (b2 >> 6u8)) as int],
            standard_alphabet()[(b2 & 63u8) as int],
        ],
        encode_chars(seq![b0, b1]) == seq![
            standard_alphabet()[(b0 >> 2u8) as int],
            standard_alphabet()[(((b0 & 3u8) << 4u8) | (b1 >> 4u8)) as int],
            standard_alphabet()[((b1 & 15u8) << 2u8) as int],
            '=',
        ],
        encode_chars(seq![b0]) == seq![
            standard_alphabet()[(b0 >> 2u8) as int],
            standard_alphabet()[((b0 & 3u8) << 4u8) as int],
            '=',
            '=',
        ],
        encode_chars(d + e) == encode_chars(d) + encode_chars(e),
    decreases d.len(),
{
    lemma_standard_alphabet();
    assert((b0 >> 2u8) == b0 / 4) by (bit_vector);
    assert((((b0 & 3u8) << 4u8) | (b1 >> 4u8)) == (b0 % 4) * 16 + b1 / 16) by (bit_vector);
    assert((((b1 & 15u8) << 2u8) | (b2 >> 6u8)) == (b1 % 16) * 4 + b2 / 64) by (bit_vector);
    assert((b2 & 63u8) == b2 % 64) by (bit_vector);
    assert(((b1 & 15u8) << 2u8) == (b1 % 16) * 4) by (bit_vector);
    assert(((b0 & 3u8) << 4u8) == (b0 % 4) * 16) by (bit_vector);
    let t = seq![b0, b1, b2];
    assert(t.skip(3) =~= Seq::<u8>::empty());
    assert(encode_chars(Seq::<u8>::empty()) =~= Seq::<char>::empty());
    assert(encode_chars(t) =~= encode_triple(b0, b1, b2));
    if d.len() == 0 {
        assert(d + e =~= e);
    } else {
        lemma_encode_groups(b0, b1, b2, d.skip(3), e);
        assert((d + e).skip(3) =~= d.skip(3) + e);
        assert((d + e)[0] == d[0] && (d + e)[1] == d[1] && (d + e)[2] == d[2]);
    }
}

} // verus!
