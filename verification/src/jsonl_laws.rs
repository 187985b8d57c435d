//! What `parse` gives back of what `encode` wrote: the codec's round trip,
//! proved over the byte-level grammar of `parse_bytes`.

use vstd::prelude::*;
use vstd::utf8::{
    encode_utf8, encode_scalar, decode_utf8, is_ascii_chars, is_ascii_chars_encode_utf8,
    encode_utf8_first_scalar, encode_utf8_decode_utf8, char_u32_cast, length_of_first_scalar,
    valid_first_scalar, is_leading_byte_width_1, is_leading_byte_width_2, is_leading_byte_width_3,
};
use crate::jsonl::{
    escape_char, escape_chars, string_body, utf8_width, hex4_at, hex_run, hex_value,
    unicode_escape_at, peek_at, is_digit, digits_value, digits_end, lemma_digits_end, value_at,
    value_text, ValueView, is_json_ws, member_text, members_text, object_text, member_at,
    member_step, members_from, parse_bytes, insert_field, key_index, lemma_key_index, distinct_keys,
};
use crate::numtext::{hex4_chars, hex_digit_char, dec_chars, digit_char};

verus! {

/// The bytes of `b` from `pos` on begin with the UTF-8 encoding of `t`.
pub open spec fn spells(b: Seq<u8>, pos: int, t: Seq<char>) -> bool {
    &&& 0 <= pos
    &&& pos + encode_utf8(t).len() <= b.len()
    &&& b.subrange(pos, pos + encode_utf8(t).len()) == encode_utf8(t)
}

/// Encoding a concatenation concatenates the encodings.
proof fn lemma_encode_concat(a: Seq<char>, c: Seq<char>)
    ensures
        encode_utf8(a + c) == encode_utf8(a) + encode_utf8(c),
    decreases a.len(),
{
    if a.len() == 0 {
        assert(a + c =~= c);
        assert(encode_utf8(a) =~= Seq::<u8>::empty());
        assert(encode_utf8(a) + encode_utf8(c) =~= encode_utf8(c));
    } else {
        assert((a + c).drop_first() =~= a.drop_first() + c);
        assert((a + c)[0] == a[0]);
        lemma_encode_concat(a.drop_first(), c);
        assert(encode_utf8(a + c) =~= encode_scalar(a[0] as u32) + (encode_utf8(a.drop_first())
            + encode_utf8(c)));
    }
}

/// Spelling a concatenation is spelling its parts one after the other.
proof fn lemma_spells_split(b: Seq<u8>, pos: int, t1: Seq<char>, t2: Seq<char>)
    requires
        spells(b, pos, t1 + t2),
    ensures
        spells(b, pos, t1),
        spells(b, pos + encode_utf8(t1).len(), t2),
        encode_utf8(t1 + t2).len() == encode_utf8(t1).len() + encode_utf8(t2).len(),
{
    lemma_encode_concat(t1, t2);
    let e1 = encode_utf8(t1);
    let e2 = encode_utf8(t2);
    let whole = b.subrange(pos, pos + e1.len() + e2.len());
    assert(whole == e1 + e2);
    assert(b.subrange(pos, pos + e1.len()) =~= whole.subrange(0, e1.len() as int));
    assert((e1 + e2).subrange(0, e1.len() as int) =~= e1);
    assert(b.subrange(pos + e1.len(), pos + e1.len() + e2.len()) =~= whole.subrange(
        e1.len() as int,
        (e1.len() + e2.len()) as int,
    ));
    assert((e1 + e2).subrange(e1.len() as int, (e1.len() + e2.len()) as int) =~= e2);
}

/// Spelling ASCII text puts each character's code in its byte.
proof fn lemma_spells_ascii(b: Seq<u8>, pos: int, t: Seq<char>)
    requires
        spells(b, pos, t),
        is_ascii_chars(t),
    ensures
        encode_utf8(t).len() == t.len(),
        forall|i: int| 0 <= i < t.len() ==> b[pos + i] == #[trigger] t[i] as u8,
{
    is_ascii_chars_encode_utf8(t);
    assert forall|i: int| 0 <= i < t.len() implies b[pos + i] == #[trigger] t[i] as u8 by {
        assert(b.subrange(pos, pos + t.len())[i] == b[pos + i]);
    }
}

/// `escape_chars` distributes over concatenation.
proof fn lemma_escape_concat(a: Seq<char>, c: Seq<char>)
    ensures
        escape_chars(a + c) == escape_chars(a) + escape_chars(c),
    decreases c.len(),
{
    if c.len() == 0 {
        assert(a + c =~= a);
        assert(escape_chars(a) + escape_chars(c) =~= escape_chars(a));
    } else {
        assert((a + c).drop_last() =~= a + c.drop_last());
        assert((a + c).last() == c.last());
        lemma_escape_concat(a, c.drop_last());
        assert(escape_chars(a + c) =~= escape_chars(a) + (escape_chars(c.drop_last())
            + escape_char(c.last())));
    }
}

/// A string escapes as its first character's escape, then the rest's.
proof fn lemma_escape_front(s: Seq<char>)
    requires
        s.len() > 0,
    ensures
        escape_chars(s) == escape_char(s[0]) + escape_chars(s.drop_first()),
{
    assert(s =~= seq![s[0]] + s.drop_first());
    lemma_escape_concat(seq![s[0]], s.drop_first());
    let one = seq![s[0]];
    assert(one.drop_last() =~= Seq::<char>::empty());
    assert(one.last() == s[0]);
    assert(escape_chars(Seq::<char>::empty()) =~= Seq::<char>::empty());
    assert(escape_chars(one) =~= escape_chars(Seq::<char>::empty()) + escape_char(s[0]));
    assert(escape_chars(one) =~= escape_char(s[0]));
}

/// Reading four hex digits written for a value below 0x20 gives it back.
proof fn lemma_hex4_small(b: Seq<u8>, pos: int, v: nat)
    requires
        v < 0x20,
        spells(b, pos, hex4_chars(v)),
    ensures
        hex4_at(b, pos) == Ok::<(u32, int), Seq<char>>((v as u32, pos + 4)),
{
    let t = hex4_chars(v);
    assert(is_ascii_chars(t));
    lemma_spells_ascii(b, pos, t);
    assert(b[pos] == 48u8 && b[pos + 1] == 48u8);
    let d3: nat = v / 16;
    let d4: nat = v % 16;
    assert(d3 < 2);
    assert(b[pos + 2] == hex_digit_char(d3) as u8);
    assert(b[pos + 3] == hex_digit_char(d4) as u8);
    assert(hex_value(b[pos + 2]) == Some(d3 as u32));
    assert(hex_value(b[pos + 3]) == Some(d4 as u32));
    assert(hex_run(b, pos + 4, 0, v as u32) == Ok::<(u32, int), Seq<char>>((v as u32, pos + 4)));
    assert(hex_run(b, pos + 3, 1, d3 as u32) == hex_run(b, pos + 4, 0, (d3 * 16 + d4) as u32));
    assert(hex_run(b, pos + 2, 2, 0) == hex_run(b, pos + 3, 1, d3 as u32));
    assert(hex_run(b, pos + 1, 3, 0) == hex_run(b, pos + 2, 2, 0));
    assert(hex_run(b, pos, 4, 0) == hex_run(b, pos + 1, 3, 0));
}

/// One escaped character inside a string literal reads back as itself.
proof fn lemma_escape_step(b: Seq<u8>, pos: int, acc: Seq<char>, c: char)
    requires
        spells(b, pos, escape_char(c)),
    ensures
        string_body(b, pos, acc) == string_body(b, pos + encode_utf8(escape_char(c)).len(), acc.push(c)),
{
    let e = escape_char(c);
    let w = encode_utf8(e).len() as int;
    if c == '"' || c == '\\' || c == '\n' || c == '\r' || c == '\t' {
        assert(is_ascii_chars(e));
        lemma_spells_ascii(b, pos, e);
        assert(b[pos] == 92u8);
        assert(w == 2);
    } else if (c as u32) < 0x20 {
        let h = hex4_chars((c as u32) as nat);
        assert(e =~= seq!['\\', 'u'] + h);
        lemma_spells_split(b, pos, seq!['\\', 'u'], h);
        assert(is_ascii_chars(seq!['\\', 'u']));
        lemma_spells_ascii(b, pos, seq!['\\', 'u']);
        assert(is_ascii_chars(h));
        is_ascii_chars_encode_utf8(h);
        assert(b[pos] == 92u8 && b[pos + 1] == 117u8);
        lemma_hex4_small(b, pos + 2, (c as u32) as nat);
        char_u32_cast(c, c as u32);
        assert(w == 6);
        assert(unicode_escape_at(b, pos + 2) == Ok::<(char, int), Seq<char>>((c, pos + 6)));
        assert(peek_at(b, pos + 1) == Some(117u8));
    } else {
        assert(e =~= seq![c]);
        let enc = encode_utf8(seq![c]);
        assert(seq![c].drop_first() =~= Seq::<char>::empty());
        assert(seq![c][0] == c);
        assert(encode_utf8(Seq::<char>::empty()) =~= Seq::<u8>::empty());
        assert(enc =~= encode_scalar(c as u32) + encode_utf8(Seq::<char>::empty()));
        assert(enc =~= encode_scalar(c as u32));
        encode_utf8_first_scalar(seq![c]);
        encode_utf8_decode_utf8(seq![c]);
        assert(b.subrange(pos, pos + w) == enc);
        assert(b[pos] == enc[0]);
        if (c as u32) <= 0x7F {
            assert(is_ascii_chars(seq![c]));
            lemma_spells_ascii(b, pos, seq![c]);
            assert(w == 1);
        } else {
            assert(w >= 2);
            assert(valid_first_scalar(enc));
            assert(length_of_first_scalar(enc) == w);
            assert(!is_leading_byte_width_1(enc[0]));
            assert(enc[0] >= 0xc0);
            assert(utf8_width(enc[0]) == w) by {
                if is_leading_byte_width_2(enc[0]) {
                } else if is_leading_byte_width_3(enc[0]) {
                } else {
                }
            }
        }
        assert(acc + decode_utf8(b.subrange(pos, pos + w)) =~= acc.push(c));
    }
}

/// The body of a string literal written by `encode` reads back as the
/// string, ending after the closing quote.
proof fn lemma_string_body(b: Seq<u8>, pos: int, acc: Seq<char>, s: Seq<char>)
    requires
        spells(b, pos, escape_chars(s) + seq!['"']),
    ensures
        string_body(b, pos, acc) == Ok::<(Seq<char>, int), Seq<char>>(
            (acc + s, pos + encode_utf8(escape_chars(s)).len() + 1),
        ),
    decreases s.len(),
{
    lemma_spells_split(b, pos, escape_chars(s), seq!['"']);
    let p = pos + encode_utf8(escape_chars(s)).len();
    assert(is_ascii_chars(seq!['"']));
    lemma_spells_ascii(b, p, seq!['"']);
    if s.len() == 0 {
        assert(acc + s =~= acc);
        assert(escape_chars(s) =~= Seq::<char>::empty());
        assert(encode_utf8(Seq::<char>::empty()) =~= Seq::<u8>::empty());
        assert(b[pos] == 34u8);
    } else {
        let c = s[0];
        let rest = s.drop_first();
        lemma_escape_front(s);
        assert(escape_chars(s) + seq!['"'] =~= escape_char(c) + (escape_chars(rest) + seq!['"']));
        lemma_spells_split(b, pos, escape_char(c), escape_chars(rest) + seq!['"']);
        lemma_spells_split(b, pos, escape_char(c), escape_chars(rest));
        let w = encode_utf8(escape_char(c)).len();
        lemma_escape_step(b, pos, acc, c);
        lemma_string_body(b, pos + w, acc.push(c), rest);
        assert(acc.push(c) + rest =~= acc + s);
    }
}

/// The decimal digits of `n` are ASCII digits that spell `n`.
proof fn lemma_dec_digits(n: nat)
    ensures
        is_ascii_chars(dec_chars(n)),
        dec_chars(n).len() >= 1,
        encode_utf8(dec_chars(n)).len() == dec_chars(n).len(),
        forall|i: int| 0 <= i < dec_chars(n).len() ==> is_digit(#[trigger] encode_utf8(dec_chars(n))[i]),
        digits_value(encode_utf8(dec_chars(n))) == n,
    decreases n,
{
    let d = dec_chars(n);
    if n < 10 {
        assert(d =~= seq![digit_char(n)]);
        assert(is_ascii_chars(d));
        is_ascii_chars_encode_utf8(d);
        let e = encode_utf8(d);
        assert(e[0] == (48 + n) as u8);
        assert(e.drop_last() =~= Seq::<u8>::empty());
        assert(digits_value(Seq::<u8>::empty()) == 0);
    } else {
        lemma_dec_digits(n / 10);
        let p = dec_chars(n / 10);
        assert(d =~= p.push(digit_char(n % 10)));
        assert(is_ascii_chars(d)) by {
            assert forall|i: int| 0 <= i < d.len() implies '\0' <= #[trigger] d[i] <= '\u{7f}' by {
                if i < p.len() {
                    assert(d[i] == p[i]);
                }
            }
        }
        is_ascii_chars_encode_utf8(d);
        is_ascii_chars_encode_utf8(p);
        let e = encode_utf8(d);
        let ep = encode_utf8(p);
        assert(e.drop_last() =~= ep) by {
            assert forall|i: int| 0 <= i < ep.len() implies e.drop_last()[i] == ep[i] by {
                assert(d[i] == p[i]);
            }
        }
        assert(e.last() == (48 + n % 10) as u8);
        assert forall|i: int| 0 <= i < d.len() implies is_digit(#[trigger] e[i]) by {
            if i < p.len() {
                assert(e[i] == ep[i]);
            }
        }
    }
}

/// A value written by `encode` and followed by `,` or `}` reads back.
proof fn lemma_value_at(b: Seq<u8>, pos: int, v: ValueView)
    requires
        spells(b, pos, value_text(v)),
        pos + encode_utf8(value_text(v)).len() < b.len(),
        b[pos + encode_utf8(value_text(v)).len()] == 44u8 || b[pos + encode_utf8(value_text(v)).len()]
            == 125u8,
    ensures
        value_at(b, pos) == Ok::<(ValueView, int), Seq<char>>((v, pos + encode_utf8(value_text(v)).len())),
        !is_json_ws(b[pos]),
{
    let t = value_text(v);
    let end = pos + encode_utf8(t).len();
    match v {
        ValueView::Str(s) => {
            assert(t =~= seq!['"'] + (escape_chars(s) + seq!['"']));
            lemma_spells_split(b, pos, seq!['"'], escape_chars(s) + seq!['"']);
            assert(is_ascii_chars(seq!['"']));
            lemma_spells_ascii(b, pos, seq!['"']);
            lemma_spells_split(b, pos + 1, escape_chars(s), seq!['"']);
            lemma_spells_ascii(b, pos + 1 + encode_utf8(escape_chars(s)).len(), seq!['"']);
            lemma_string_body(b, pos + 1, Seq::<char>::empty(), s);
            assert(Seq::<char>::empty() + s =~= s);
        },
        ValueView::UInt(n) => {
            lemma_dec_digits(n as nat);
            let e = encode_utf8(t);
            assert(b.subrange(pos, end) == e);
            assert forall|i: int| pos <= i < end implies is_digit(#[trigger] b[i]) by {
                assert(b[i] == b.subrange(pos, end)[i - pos]);
            }
            assert(b[pos] == e[0]);
            lemma_digits_end(b, pos);
            let de = digits_end(b, pos);
            if de < end {
                assert(!is_digit(b[de]));
            }
            if de > end {
                assert(is_digit(b[end]));
            }
            assert(de == end);
        },
        ValueView::Bool(x) => {
            assert(is_ascii_chars(t)) by {
                reveal_strlit("true");
                reveal_strlit("false");
            }
            lemma_spells_ascii(b, pos, t);
            reveal_strlit("true");
            reveal_strlit("false");
        },
    }
}

/// The members of an object, seen from the front.
proof fn lemma_members_front(fs: Seq<(Seq<char>, ValueView)>)
    requires
        fs.len() >= 2,
    ensures
        members_text(fs) == member_text(fs[0].0, fs[0].1) + seq![','] + members_text(fs.drop_first()),
    decreases fs.len(),
{
    let init = fs.drop_last();
    let rest = fs.drop_first();
    if fs.len() == 2 {
        assert(init.len() == 1 && init[0] == fs[0]);
        assert(rest.len() == 1 && rest[0] == fs[1]);
        assert(members_text(init) == member_text(fs[0].0, fs[0].1));
        assert(members_text(rest) == member_text(fs[1].0, fs[1].1));
    } else {
        lemma_members_front(init);
        assert(init.drop_first() =~= rest.drop_last());
        assert(init[0] == fs[0]);
        assert(rest.last() == fs.last());
        assert(members_text(rest) == members_text(rest.drop_last()) + seq![','] + member_text(
            rest.last().0,
            rest.last().1,
        ));
        assert(members_text(fs) =~= member_text(fs[0].0, fs[0].1) + seq![','] + members_text(rest));
    }
}

/// The members of a non-empty object start with a key's opening quote.
proof fn lemma_members_first(fs: Seq<(Seq<char>, ValueView)>)
    requires
        fs.len() >= 1,
    ensures
        members_text(fs).len() >= 1,
        members_text(fs)[0] == '"',
    decreases fs.len(),
{
    if fs.len() >= 2 {
        lemma_members_first(fs.drop_last());
    }
}

/// A member written by `encode` and followed by `,` or `}` reads back.
proof fn lemma_member_at(b: Seq<u8>, pos: int, k: Seq<char>, v: ValueView)
    requires
        spells(b, pos, member_text(k, v)),
        pos + encode_utf8(member_text(k, v)).len() < b.len(),
        b[pos + encode_utf8(member_text(k, v)).len()] == 44u8 || b[pos + encode_utf8(
            member_text(k, v),
        ).len()] == 125u8,
    ensures
        member_at(b, pos) == Ok::<(Seq<char>, ValueView, int), Seq<char>>(
            (k, v, pos + encode_utf8(member_text(k, v)).len()),
        ),
{
    reveal(member_at);
    let lit = escape_chars(k) + seq!['"'];
    let vt = seq![':'] + value_text(v);
    assert(member_text(k, v) =~= seq!['"'] + (lit + vt));
    assert(is_ascii_chars(seq!['"']));
    assert(is_ascii_chars(seq![':']));
    lemma_spells_split(b, pos, seq!['"'], lit + vt);
    lemma_spells_ascii(b, pos, seq!['"']);
    lemma_spells_split(b, pos + 1, lit, vt);
    lemma_spells_split(b, pos + 1, escape_chars(k), seq!['"']);
    lemma_string_body(b, pos + 1, Seq::<char>::empty(), k);
    assert(Seq::<char>::empty() + k =~= k);
    let q1 = pos + 1 + encode_utf8(lit).len();
    lemma_spells_split(b, q1, seq![':'], value_text(v));
    lemma_spells_ascii(b, q1, seq![':']);
    assert(b[q1] == 58u8);
    lemma_value_at(b, q1 + 1, v);
}

/// The members written by `encode`, then `}`, read back onto `acc`.
proof fn lemma_members_from(
    b: Seq<u8>,
    pos: int,
    acc: Seq<(Seq<char>, ValueView)>,
    fs: Seq<(Seq<char>, ValueView)>,
)
    requires
        fs.len() >= 1,
        spells(b, pos, members_text(fs) + seq!['}']),
        distinct_keys(acc + fs),
    ensures
        members_from(b, pos, acc) == Ok::<(Seq<(Seq<char>, ValueView)>, int), Seq<char>>(
            (acc + fs, pos + encode_utf8(members_text(fs)).len() + 1),
        ),
    decreases fs.len(),
{
    reveal(member_step);
    let f0 = fs[0];
    let mt = member_text(f0.0, f0.1);
    lemma_key_index(acc, f0.0);
    if let Some(i) = key_index(acc, f0.0) {
        assert((acc + fs)[i].0 == (acc + fs)[acc.len() as int].0);
    }
    assert(insert_field(acc, f0.0, f0.1) =~= acc.push(f0));
    assert(is_ascii_chars(seq!['}']));
    assert(is_ascii_chars(seq![',']));
    if fs.len() == 1 {
        assert(members_text(fs) == mt);
        lemma_spells_split(b, pos, mt, seq!['}']);
        lemma_spells_ascii(b, pos + encode_utf8(mt).len(), seq!['}']);
        lemma_member_at(b, pos, f0.0, f0.1);
        assert(acc.push(f0) =~= acc + fs);
    } else {
        let rest = fs.drop_first();
        lemma_members_front(fs);
        assert(members_text(fs) + seq!['}'] =~= mt + (seq![','] + (members_text(rest) + seq!['}'])));
        lemma_spells_split(b, pos, mt, seq![','] + (members_text(rest) + seq!['}']));
        let q = pos + encode_utf8(mt).len();
        lemma_spells_split(b, q, seq![','], members_text(rest) + seq!['}']);
        lemma_spells_ascii(b, q, seq![',']);
        lemma_member_at(b, pos, f0.0, f0.1);
        assert(acc.push(f0) + rest =~= acc + fs);
        lemma_members_from(b, q + 1, acc.push(f0), rest);
        assert(members_text(fs) =~= mt + (seq![','] + members_text(rest)));
        lemma_encode_concat(mt, seq![','] + members_text(rest));
        lemma_encode_concat(seq![','], members_text(rest));
    }
}

/// What `parse` gives back of what `encode` wrote: an object whose keys are
/// distinct reads back as exactly its members, in order.
pub proof fn lemma_parse_encode(fs: Seq<(Seq<char>, ValueView)>)
    requires
        distinct_keys(fs),
    ensures
        parse_bytes(encode_utf8(object_text(fs))) == Ok::<Seq<(Seq<char>, ValueView)>, Seq<char>>(fs),
{
    let t = object_text(fs);
    let b = encode_utf8(t);
    let body = members_text(fs) + seq!['}'];
    assert(t =~= seq!['{'] + body);
    assert(b.subrange(0, b.len() as int) =~= b);
    assert(spells(b, 0, t));
    assert(is_ascii_chars(seq!['{']));
    assert(is_ascii_chars(seq!['}']));
    lemma_spells_split(b, 0, seq!['{'], body);
    lemma_spells_ascii(b, 0, seq!['{']);
    assert(b[0] == 123u8);
    lemma_spells_split(b, 1, members_text(fs), seq!['}']);
    lemma_spells_ascii(b, 1 + encode_utf8(members_text(fs)).len() as int, seq!['}']);
    if fs.len() == 0 {
        assert(members_text(fs) =~= Seq::<char>::empty());
        assert(encode_utf8(Seq::<char>::empty()) =~= Seq::<u8>::empty());
        assert(b.len() == 2);
        assert(fs =~= Seq::<(Seq<char>, ValueView)>::empty());
    } else {
        let m = members_text(fs);
        lemma_members_first(fs);
        assert(m =~= seq!['"'] + m.skip(1));
        lemma_spells_split(b, 1, seq!['"'], m.skip(1));
        assert(is_ascii_chars(seq!['"']));
        lemma_spells_ascii(b, 1, seq!['"']);
        assert(b[1] == 34u8);
        assert(Seq::<(Seq<char>, ValueView)>::empty() + fs =~= fs);
        lemma_members_from(b, 1, Seq::<(Seq<char>, ValueView)>::empty(), fs);
    }
}

} // verus!
