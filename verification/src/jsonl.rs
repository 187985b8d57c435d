//! Minimal flat-JSON codec for clipring's history records.
//!
//! Each history entry is one JSON object per line (JSONL). The objects are
//! flat — string, unsigned-integer, and boolean values only — so a full JSON
//! library would be 99% dead weight. This module implements exactly the
//! subset the store needs, strictly (bad lines are rejected, then skipped by
//! the store with a warning rather than corrupting the ring).

use vstd::prelude::*;
use vstd::string::StringSliceAdditionalSpecFns;
use vstd::std_specs::iter::IteratorSpec;
use crate::numtext::{dec_chars, hex_digit_char, hex4_chars, push_dec, push_hex4};
use crate::text::{char_from_u32, push_char, utf8_str};
use vstd::slice::slice_subrange;
use vstd::utf8::{decode_utf8, encode_utf8, is_ascii_chars, is_ascii_chars_encode_utf8, is_scalar, valid_utf8, valid_first_scalar, pop_first_scalar, length_of_first_scalar};

verus! {

/// A flat JSON value.
#[derive(Debug, Clone, PartialEq, Eq)]
pub enum Value {
    Str(String),
    UInt(u64),
    Bool(bool),
}

/// A flat JSON value as a mathematical value.
pub enum ValueView {
    Str(Seq<char>),
    UInt(u64),
    Bool(bool),
}

impl View for Value {
    type V = ValueView;

    open spec fn view(&self) -> ValueView {
        match self {
            Value::Str(s) => ValueView::Str(s@),
            Value::UInt(n) => ValueView::UInt(*n),
            Value::Bool(b) => ValueView::Bool(*b),
        }
    }
}

impl Value {
    pub fn as_str(&self) -> (r: Option<&str>)
        ensures
            match self@ {
                ValueView::Str(s) => r matches Some(t) && t@ == s,
                _ => r is None,
            },
    {
        match self {
            Value::Str(s) => Some(s.as_str()),
            _ => None,
        }
    }

    pub fn as_uint(&self) -> (r: Option<u64>)
        ensures
            match self@ {
                ValueView::UInt(n) => r == Some(n),
                _ => r is None,
            },
    {
        match self {
            Value::UInt(n) => Some(*n),
            _ => None,
        }
    }

    pub fn as_bool(&self) -> (r: Option<bool>)
        ensures
            match self@ {
                ValueView::Bool(b) => r == Some(b),
                _ => r is None,
            },
    {
        match self {
            Value::Bool(b) => Some(*b),
            _ => None,
        }
    }
}

// ------------------------------------------------------------------ encoding

/// How one character is written inside a JSON string literal.
pub open spec fn escape_char(c: char) -> Seq<char> {
    if c == '"' {
        seq!['\\', '"']
    } else if c == '\\' {
        seq!['\\', '\\']
    } else if c == '\n' {
        seq!['\\', 'n']
    } else if c == '\r' {
        seq!['\\', 'r']
    } else if c == '\t' {
        seq!['\\', 't']
    } else if (c as u32) < 0x20 {
        seq!['\\', 'u'] + hex4_chars((c as u32) as nat)
    } else {
        seq![c]
    }
}

/// `s` escaped for embedding in a JSON string literal.
pub open spec fn escape_chars(s: Seq<char>) -> Seq<char>
    decreases s.len(),
{
    if s.len() == 0 {
        seq![]
    } else {
        escape_chars(s.drop_last()) + escape_char(s.last())
    }
}

/// A value as JSON text.
pub open spec fn value_text(v: ValueView) -> Seq<char> {
    match v {
        ValueView::Str(s) => seq!['"'] + escape_chars(s) + seq!['"'],
        ValueView::UInt(n) => dec_chars(n as nat),
        ValueView::Bool(b) => if b { "true"@ } else { "false"@ },
    }
}

/// One `"key":value` member.
pub open spec fn member_text(k: Seq<char>, v: ValueView) -> Seq<char> {
    seq!['"'] + escape_chars(k) + seq!['"', ':'] + value_text(v)
}

/// The members of an object, separated by commas.
pub open spec fn members_text(fs: Seq<(Seq<char>, ValueView)>) -> Seq<char>
    decreases fs.len(),
{
    if fs.len() == 0 {
        seq![]
    } else if fs.len() == 1 {
        member_text(fs[0].0, fs[0].1)
    } else {
        members_text(fs.drop_last()) + seq![','] + member_text(fs.last().0, fs.last().1)
    }
}

/// A whole single-line object, keys in the given order.
pub open spec fn object_text(fs: Seq<(Seq<char>, ValueView)>) -> Seq<char> {
    seq!['{'] + members_text(fs) + seq!['}']
}

/// The fields of an `encode` call as mathematical pairs.
pub open spec fn fields_view(fields: Seq<(&str, Value)>) -> Seq<(Seq<char>, ValueView)> {
    fields.map_values(|f: (&str, Value)| (f.0@, f.1@))
}

/// Serialize fields as a single-line JSON object, keys in the given order.
pub fn encode(fields: &[(&str, Value)]) -> (out: String)
    ensures
        out@ == object_text(fields_view(fields@)),
{
    let ghost fs = fields_view(fields@);
    let mut out = String::new();
    push_char(&mut out, '{');
    let mut i: usize = 0;
    while i < fields.len()
        invariant
            i <= fields@.len(),
            fs == fields_view(fields@),
            out@ == seq!['{'] + members_text(fs.take(i as int)),
        decreases fields@.len() - i,
    {
        let ghost before = out@;
        if i > 0 {
            push_char(&mut out, ',');
        }
        let (k, v) = &fields[i];
        push_member(&mut out, k, v);
        proof {
            let t = fs.take(i + 1);
            assert(t.drop_last() =~= fs.take(i as int));
            assert(t.last() == fs[i as int]);
            assert(fs[i as int] == (k@, v@));
            if i == 0 {
                assert(t.len() == 1);
                assert(fs.take(0) =~= Seq::<(Seq<char>, ValueView)>::empty());
                assert(out@ =~= seq!['{'] + member_text(k@, v@));
            } else {
                assert(out@ =~= before + seq![','] + member_text(k@, v@));
            }
        }
        i = i + 1;
    }
    push_char(&mut out, '}');
    proof {
        assert(fs.take(fields@.len() as int) =~= fs);
    }
    out
}

/// Append one `"key":value` member.
fn push_member(out: &mut String, k: &str, v: &Value)
    ensures
        final(out)@ == old(out)@ + member_text(k@, v@),
{
    push_char(out, '"');
    let ek = escape(k);
    out.append(ek.as_str());
    push_char(out, '"');
    push_char(out, ':');
    match v {
        Value::Str(s) => {
            push_char(out, '"');
            let es = escape(s.as_str());
            out.append(es.as_str());
            push_char(out, '"');
        },
        Value::UInt(n) => {
            push_dec(out, *n);
        },
        Value::Bool(b) => {
            if *b {
                out.append("true");
            } else {
                out.append("false");
            }
        },
    }
    proof {
        assert(final(out)@ =~= old(out)@ + member_text(k@, v@));
    }
}

/// Escape a string for embedding in a JSON string literal.
pub fn escape(s: &str) -> (out: String)
    ensures
        out@ == escape_chars(s@),
{
    let mut out = String::new();
    let mut it = s.chars();
    let ghost all = s@;
    let ghost mut k: int = 0;
    proof {
        broadcast use vstd::string::group_string_axioms;
        assert(it.remaining() == all);
    }
    loop
        invariant_except_break
            0 <= k <= all.len(),
            it.remaining() == all.skip(k),
            out@ == escape_chars(all.take(k)),
        ensures
            out@ == escape_chars(all),
        decreases all.len() - k,
    {
        let ghost prev = it;
        let next = it.next();
        proof {
            broadcast use vstd::string::group_string_axioms;
        }
        match next {
            None => {
                proof {
                    assert(all.skip(k).len() == 0);
                    assert(all.take(k) =~= all);
                }
                break;
            },
            Some(c) => {
                proof {
                    assert(all.skip(k)[0] == c);
                    assert(all.skip(k).drop_first() =~= all.skip(k + 1));
                    assert(all.take(k + 1).drop_last() =~= all.take(k));
                    assert(all.take(k + 1).last() == c);
                }
                let ghost before = out@;
                if c == '"' {
                    push_char(&mut out, '\\');
                    push_char(&mut out, '"');
                    proof { assert(out@ =~= before + escape_char(c)); }
                } else if c == '\\' {
                    push_char(&mut out, '\\');
                    push_char(&mut out, '\\');
                    proof { assert(out@ =~= before + escape_char(c)); }
                } else if c == '\n' {
                    push_char(&mut out, '\\');
                    push_char(&mut out, 'n');
                    proof { assert(out@ =~= before + escape_char(c)); }
                } else if c == '\r' {
                    push_char(&mut out, '\\');
                    push_char(&mut out, 'r');
                    proof { assert(out@ =~= before + escape_char(c)); }
                } else if c == '\t' {
                    push_char(&mut out, '\\');
                    push_char(&mut out, 't');
                    proof { assert(out@ =~= before + escape_char(c)); }
                } else if (c as u32) < 0x20 {
                    push_char(&mut out, '\\');
                    push_char(&mut out, 'u');
                    push_hex4(&mut out, c as u32);
                } else {
                    push_char(&mut out, c);
                }
                proof {
                    assert(out@ =~= before + escape_char(c));
                    k = k + 1;
                }
            },
        }
    }
    out
}

// ------------------------------------------------------------------ fields

/// A parsed object: its members in order of first appearance, each key once
/// (a repeated key keeps its first position and its last value).
#[derive(Debug, PartialEq, Eq)]
pub struct Fields {
    pairs: Vec<(String, Value)>,
}

impl View for Fields {
    type V = Seq<(Seq<char>, ValueView)>;

    closed spec fn view(&self) -> Seq<(Seq<char>, ValueView)> {
        self.pairs@.map_values(|p: (String, Value)| (p.0@, p.1@))
    }
}

/// Index of the member named `k`.
pub open spec fn key_index(fs: Seq<(Seq<char>, ValueView)>, k: Seq<char>) -> Option<int>
    decreases fs.len(),
{
    if fs.len() == 0 {
        None
    } else {
        match key_index(fs.drop_last(), k) {
            Some(i) => Some(i),
            None => if fs.last().0 == k {
                Some(fs.len() - 1)
            } else {
                None
            },
        }
    }
}

/// `fs` with member `k` set to `v`: replaced in place, or appended.
pub open spec fn insert_field(fs: Seq<(Seq<char>, ValueView)>, k: Seq<char>, v: ValueView) -> Seq<
    (Seq<char>, ValueView),
> {
    match key_index(fs, k) {
        Some(i) => fs.update(i, (k, v)),
        None => fs.push((k, v)),
    }
}

/// Whether no two members share a key.
pub open spec fn distinct_keys(fs: Seq<(Seq<char>, ValueView)>) -> bool {
    forall|i: int, j: int| 0 <= i < j < fs.len() ==> #[trigger] fs[i].0 != #[trigger] fs[j].0
}

/// Setting a member keeps the keys distinct.
pub proof fn lemma_insert_distinct(fs: Seq<(Seq<char>, ValueView)>, k: Seq<char>, v: ValueView)
    requires
        distinct_keys(fs),
    ensures
        distinct_keys(insert_field(fs, k, v)),
{
    lemma_key_index(fs, k);
    let r = insert_field(fs, k, v);
    assert forall|i: int, j: int| 0 <= i < j < r.len() implies #[trigger] r[i].0 != #[trigger] r[j].0 by {
        match key_index(fs, k) {
            Some(m) => {
                if i == m {
                    assert(fs[j].0 != fs[m].0);
                } else if j == m {
                    assert(fs[i].0 != fs[m].0);
                } else {
                    assert(fs[i].0 != fs[j].0);
                }
            },
            None => {
                if j == fs.len() {
                    assert(fs[i].0 != k);
                } else {
                    assert(fs[i].0 != fs[j].0);
                }
            },
        }
    }
}

/// The value of member `k`, if present.
pub open spec fn lookup(fs: Seq<(Seq<char>, ValueView)>, k: Seq<char>) -> Option<ValueView> {
    match key_index(fs, k) {
        Some(i) => Some(fs[i].1),
        None => None,
    }
}

pub(crate) proof fn lemma_key_index(fs: Seq<(Seq<char>, ValueView)>, k: Seq<char>)
    ensures
        key_index(fs, k) matches Some(i) ==> 0 <= i < fs.len() && fs[i].0 == k
            && forall|j: int| 0 <= j < i ==> fs[j].0 != k,
        key_index(fs, k) is None ==> forall|j: int| 0 <= j < fs.len() ==> fs[j].0 != k,
    decreases fs.len(),
{
    if fs.len() > 0 {
        lemma_key_index(fs.drop_last(), k);
        assert forall|j: int| 0 <= j < fs.len() - 1 implies fs[j] == fs.drop_last()[j] by {}
    }
}

impl Fields {
    /// No key occurs twice.
    #[verifier::type_invariant]
    spec fn keys_distinct(self) -> bool {
        distinct_keys(self@)
    }

    fn empty() -> (f: Fields)
        ensures
            f@ == Seq::<(Seq<char>, ValueView)>::empty(),
    {
        let f = Fields { pairs: Vec::new() };
        proof {
            assert(f@ =~= Seq::<(Seq<char>, ValueView)>::empty());
        }
        f
    }

    fn position(&self, key: &String) -> (r: Option<usize>)
        ensures
            match r {
                Some(i) => key_index(self@, key@) == Some(i as int),
                None => key_index(self@, key@) is None,
            },
    {
        proof {
            lemma_key_index(self@, key@);
        }
        let mut i: usize = 0;
        while i < self.pairs.len()
            invariant
                i <= self@.len(),
                self@.len() == self.pairs@.len(),
                forall|j: int| 0 <= j < i ==> self@[j].0 != key@,
            decreases self@.len() - i,
        {
            proof {
                assert(self@[i as int].0 == self.pairs@[i as int].0@);
            }
            if self.pairs[i].0 == *key {
                proof {
                    lemma_key_index(self@, key@);
                    if let Some(m) = key_index(self@, key@) {
                        assert(m == i);
                    }
                }
                return Some(i);
            }
            i = i + 1;
        }
        None
    }

    fn with(self, key: String, value: Value) -> (f: Fields)
        ensures
            f@ == insert_field(self@, key@, value@),
    {
        let ghost s = self@;
        proof {
            use_type_invariant(&self);
            lemma_key_index(s, key@);
            lemma_insert_distinct(s, key@, value@);
        }
        let pos = self.position(&key);
        let Fields { pairs } = self;
        let mut pairs = pairs;
        match pos {
            Some(i) => {
                let ghost kv = key@;
                let ghost vv = value@;
                pairs.set(i, (key, value));
                proof {
                    assert(pairs@.map_values(|p: (String, Value)| (p.0@, p.1@)) =~= s.update(
                        i as int,
                        (kv, vv),
                    ));
                }
                Fields { pairs }
            },
            None => {
                let ghost kv = key@;
                let ghost vv = value@;
                pairs.push((key, value));
                proof {
                    assert(pairs@.map_values(|p: (String, Value)| (p.0@, p.1@)) =~= s.push((kv, vv)));
                }
                Fields { pairs }
            },
        }
    }

    /// The value of member `key`, if present.
    pub fn get(&self, key: &str) -> (r: Option<&Value>)
        ensures
            match lookup(self@, key@) {
                Some(v) => r matches Some(x) && x@ == v,
                None => r is None,
            },
    {
        let k = key.to_owned();
        proof {
            lemma_key_index(self@, key@);
        }
        match self.position(&k) {
            Some(i) => {
                proof {
                    assert(self@[i as int].1 == self.pairs@[i as int].1@);
                }
                Some(&self.pairs[i].1)
            },
            None => None,
        }
    }

    /// Number of members.
    pub fn len(&self) -> (n: usize)
        ensures
            n == self@.len(),
    {
        self.pairs.len()
    }

    /// Whether the object has no member.
    pub fn is_empty(&self) -> (b: bool)
        ensures
            b == (self@.len() == 0),
    {
        self.pairs.len() == 0
    }
}

// ------------------------------------------------------------------ parsing

/// Whitespace the parser skips between tokens.
pub open spec fn is_json_ws(b: u8) -> bool {
    b == 32 || b == 9 || b == 10 || b == 13
}

/// The byte at `pos`, if any.
pub open spec fn peek_at(b: Seq<u8>, pos: int) -> Option<u8> {
    if 0 <= pos < b.len() {
        Some(b[pos])
    } else {
        None
    }
}

/// `{:?}` of an optional byte: `Some(120)` or `None`.
pub open spec fn byte_debug(o: Option<u8>) -> Seq<char> {
    match o {
        Some(x) => "Some("@ + dec_chars(x as nat) + ")"@,
        None => "None"@,
    }
}

/// The first position at or after `pos` that is not whitespace.
pub open spec fn skip_ws_from(b: Seq<u8>, pos: int) -> int
    decreases b.len() - pos,
{
    if 0 <= pos < b.len() && is_json_ws(b[pos]) {
        skip_ws_from(b, pos + 1)
    } else {
        pos
    }
}

/// Consume the byte `want` at `pos`.
pub open spec fn expect_at(b: Seq<u8>, pos: int, want: u8) -> Result<int, Seq<char>> {
    if peek_at(b, pos) == Some(want) {
        Ok(pos + 1)
    } else {
        Err("expected '"@ + seq![want as char] + "', got "@ + byte_debug(peek_at(b, pos)))
    }
}

/// Value of a hexadecimal digit (either case).
pub open spec fn hex_value(x: u8) -> Option<u32> {
    if 48 <= x <= 57 {
        Some((x - 48) as u32)
    } else if 97 <= x <= 102 {
        Some((x - 87) as u32)
    } else if 65 <= x <= 70 {
        Some((x - 55) as u32)
    } else {
        None
    }
}

/// Hexadecimal digits read as RFC 8259 and `char::to_digit(16)` read them:
/// each lower-case digit (`0`–`9`, `a`–`f`, as written for escapes) stands
/// for its value, each upper-case letter `A`–`F` for the same value as its
/// lower-case form, and no other byte is a digit.
pub proof fn lemma_hex_digits(x: u8, d: nat)
    ensures
        d < 16 ==> hex_value(hex_digit_char(d) as u8) == Some(d as u32),
        10 <= d < 16 ==> hex_value((hex_digit_char(d) as u8 - 32) as u8) == Some(d as u32),
        65 <= x <= 70 ==> hex_value(x) == hex_value((x + 32) as u8),
        hex_value(x) matches Some(v) ==> v < 16 && (x == hex_digit_char(v as nat) as u8
            || (v >= 10 && x + 32 == hex_digit_char(v as nat) as u8)),
{
}

/// Read `count` hex digits at `pos` onto `acc`.
pub open spec fn hex_run(b: Seq<u8>, pos: int, count: nat, acc: u32) -> Result<(u32, int), Seq<char>>
    decreases count,
{
    if count == 0 {
        Ok((acc, pos))
    } else {
        match peek_at(b, pos) {
            None => Err("truncated \\u escape"@),
            Some(x) => match hex_value(x) {
                None => Err("non-hex in \\u escape"@),
                Some(d) => hex_run(b, pos + 1, (count - 1) as nat, (acc * 16 + d) as u32),
            },
        }
    }
}

/// The four hex digits of a `\u` escape at `pos`.
pub open spec fn hex4_at(b: Seq<u8>, pos: int) -> Result<(u32, int), Seq<char>> {
    hex_run(b, pos, 4, 0)
}

/// The four hex digits of a `\u` escape read as one base-16 number, most
/// significant digit first.
pub proof fn lemma_hex4_value(b: Seq<u8>, pos: int)
    requires
        0 <= pos,
        pos + 4 <= b.len(),
        hex_value(b[pos]) is Some,
        hex_value(b[pos + 1]) is Some,
        hex_value(b[pos + 2]) is Some,
        hex_value(b[pos + 3]) is Some,
    ensures
        hex4_at(b, pos) == Ok::<(u32, int), Seq<char>>((
            (hex_value(b[pos])->Some_0 * 4096 + hex_value(b[pos + 1])->Some_0 * 256
                + hex_value(b[pos + 2])->Some_0 * 16 + hex_value(b[pos + 3])->Some_0) as u32,
            pos + 4,
        )),
{
    let v0 = hex_value(b[pos])->Some_0;
    let v1 = hex_value(b[pos + 1])->Some_0;
    let v2 = hex_value(b[pos + 2])->Some_0;
    let v3 = hex_value(b[pos + 3])->Some_0;
    lemma_hex_digits(b[pos], 0);
    lemma_hex_digits(b[pos + 1], 0);
    lemma_hex_digits(b[pos + 2], 0);
    lemma_hex_digits(b[pos + 3], 0);
    let a1 = v0;
    let a2 = (a1 * 16 + v1) as u32;
    let a3 = (a2 * 16 + v2) as u32;
    let a4 = (a3 * 16 + v3) as u32;
    assert(a2 == v0 * 16 + v1);
    assert(a3 == v0 * 256 + v1 * 16 + v2);
    assert(a4 == v0 * 4096 + v1 * 256 + v2 * 16 + v3);
    assert(hex_run(b, pos + 4, 0, a4) == Ok::<(u32, int), Seq<char>>((a4, pos + 4)));
    assert(hex_run(b, pos + 3, 1, a3) == hex_run(b, pos + 4, 0, a4));
    assert(hex_run(b, pos + 2, 2, a2) == hex_run(b, pos + 3, 1, a3));
    assert(hex_run(b, pos + 1, 3, a1) == hex_run(b, pos + 2, 2, a2));
    assert(hex_run(b, pos, 4, 0) == hex_run(b, pos + 1, 3, (0 * 16 + v0) as u32));
}

/// The character of a `\u` escape whose digits start at `pos` (a high
/// surrogate must be followed by `\u` and a low surrogate).
pub open spec fn unicode_escape_at(b: Seq<u8>, pos: int) -> Result<(char, int), Seq<char>> {
    match hex4_at(b, pos) {
        Err(e) => Err(e),
        Ok((hi, p1)) => {
            if 0xD800 <= hi < 0xDC00 {
                if peek_at(b, p1) != Some(92u8) || peek_at(b, p1 + 1) != Some(117u8) {
                    Err("high surrogate without low surrogate"@)
                } else {
                    match hex4_at(b, p1 + 2) {
                        Err(e) => Err(e),
                        Ok((lo, p2)) => {
                            if !(0xDC00 <= lo < 0xE000) {
                                Err("invalid low surrogate"@)
                            } else {
                                Ok((
                                    (0x10000 + (hi - 0xD800) * 1024 + (lo - 0xDC00)) as char,
                                    p2,
                                ))
                            }
                        },
                    }
                }
            } else if is_scalar(hi) {
                Ok((hi as char, p1))
            } else {
                Err("invalid codepoint \\u"@ + hex4_chars(hi as nat))
            }
        },
    }
}

/// Number of bytes a UTF-8 sequence starting with `first` occupies.
pub open spec fn utf8_width(first: u8) -> int {
    if first <= 0x7F {
        1
    } else if 0xC0 <= first <= 0xDF {
        2
    } else if 0xE0 <= first <= 0xEF {
        3
    } else {
        4
    }
}

/// The rest of a string literal from `pos` (after the opening quote), with
/// `acc` already read: the text and the position after the closing quote.
pub open spec fn string_body(b: Seq<u8>, pos: int, acc: Seq<char>) -> Result<(Seq<char>, int), Seq<char>>
    decreases b.len() - pos,
{
    if !(0 <= pos < b.len()) {
        Err("unterminated string"@)
    } else {
        let x = b[pos];
        if x == 34 {
            Ok((acc, pos + 1))
        } else if x == 92 {
            match peek_at(b, pos + 1) {
                Some(e) => {
                    if e == 34 {
                        string_body(b, pos + 2, acc.push('"'))
                    } else if e == 92 {
                        string_body(b, pos + 2, acc.push('\\'))
                    } else if e == 47 {
                        string_body(b, pos + 2, acc.push('/'))
                    } else if e == 98 {
                        string_body(b, pos + 2, acc.push('\u{8}'))
                    } else if e == 102 {
                        string_body(b, pos + 2, acc.push('\u{c}'))
                    } else if e == 110 {
                        string_body(b, pos + 2, acc.push('\n'))
                    } else if e == 114 {
                        string_body(b, pos + 2, acc.push('\r'))
                    } else if e == 116 {
                        string_body(b, pos + 2, acc.push('\t'))
                    } else if e == 117 {
                        match unicode_escape_at(b, pos + 2) {
                            Err(m) => Err(m),
                            Ok((c, p)) => if pos < p <= b.len() {
                                string_body(b, p, acc.push(c))
                            } else {
                                Err(seq![])
                            },
                        }
                    } else {
                        Err("bad escape "@ + byte_debug(Some(e)))
                    }
                },
                None => Err("bad escape "@ + byte_debug(None)),
            }
        } else if x < 0x20 {
            Err("raw control byte in string"@)
        } else {
            let w = utf8_width(x);
            if pos + w > b.len() {
                Err("truncated UTF-8 sequence"@)
            } else {
                string_body(b, pos + w, acc + decode_utf8(b.subrange(pos, pos + w)))
            }
        }
    }
}

/// A string literal at `pos`.
pub open spec fn string_at(b: Seq<u8>, pos: int) -> Result<(Seq<char>, int), Seq<char>> {
    match expect_at(b, pos, 34) {
        Err(e) => Err(e),
        Ok(p) => string_body(b, p, seq![]),
    }
}

/// Whether `x` is an ASCII digit.
pub open spec fn is_digit(x: u8) -> bool {
    48 <= x <= 57
}

/// The first position at or after `pos` that is not a digit.
pub open spec fn digits_end(b: Seq<u8>, pos: int) -> int
    decreases b.len() - pos,
{
    if 0 <= pos < b.len() && is_digit(b[pos]) {
        digits_end(b, pos + 1)
    } else {
        pos
    }
}

/// The number that a run of decimal digits spells.
pub open spec fn digits_value(s: Seq<u8>) -> nat
    decreases s.len(),
{
    if s.len() == 0 {
        0
    } else {
        digits_value(s.drop_last()) * 10 + (s.last() - 48) as nat
    }
}

/// An unsigned integer at `pos` (which holds a digit).
pub open spec fn number_at(b: Seq<u8>, pos: int) -> Result<(ValueView, int), Seq<char>> {
    let end = digits_end(b, pos);
    if peek_at(b, end) matches Some(x) && (x == 46 || x == 101 || x == 69 || x == 45 || x == 43) {
        Err("floats are not valid in history records"@)
    } else {
        let v = digits_value(b.subrange(pos, end));
        if v > u64::MAX {
            Err("bad integer: number too large to fit in target type"@)
        } else {
            Ok((ValueView::UInt(v as u64), end))
        }
    }
}

/// The literal `word` at `pos`, standing for `v`.
pub open spec fn literal_at(b: Seq<u8>, pos: int, word: Seq<char>, v: ValueView) -> Result<
    (ValueView, int),
    Seq<char>,
> {
    if pos + word.len() <= b.len() && forall|i: int| 0 <= i < word.len() ==> b[pos + i] == word[i] as u8 {
        Ok((v, pos + word.len()))
    } else {
        Err("expected literal '"@ + word + "'"@)
    }
}

/// A value at `pos`.
pub open spec fn value_at(b: Seq<u8>, pos: int) -> Result<(ValueView, int), Seq<char>> {
    let o = peek_at(b, pos);
    if o == Some(34u8) {
        match string_at(b, pos) {
            Err(e) => Err(e),
            Ok((s, p)) => Ok((ValueView::Str(s), p)),
        }
    } else if o matches Some(x) && is_digit(x) {
        number_at(b, pos)
    } else if o == Some(116u8) {
        literal_at(b, pos, "true"@, ValueView::Bool(true))
    } else if o == Some(102u8) {
        literal_at(b, pos, "false"@, ValueView::Bool(false))
    } else {
        Err("unsupported value starting with "@ + byte_debug(o))
    }
}

/// One `"key" : value` member at `pos` (whitespace allowed around each
/// token): the key, the value, and the position after the value.
#[verifier::opaque]
pub open spec fn member_at(b: Seq<u8>, pos: int) -> Result<(Seq<char>, ValueView, int), Seq<char>> {
    let q0 = skip_ws_from(b, pos);
    match string_at(b, q0) {
        Err(e) => Err(e),
        Ok((k, q1)) => {
            let q2 = skip_ws_from(b, q1);
            match expect_at(b, q2, 58) {
                Err(e) => Err(e),
                Ok(q3) => {
                    let q4 = skip_ws_from(b, q3);
                    match value_at(b, q4) {
                        Err(e) => Err(e),
                        Ok((v, q5)) => Ok((k, v, q5)),
                    }
                },
            }
        },
    }
}

/// One member and the separator after it: the members so far, the position
/// after the separator, and whether a `,` (rather than `}`) was read.
#[verifier::opaque]
pub open spec fn member_step(b: Seq<u8>, pos: int, acc: Seq<(Seq<char>, ValueView)>) -> Result<
    (Seq<(Seq<char>, ValueView)>, int, bool),
    Seq<char>,
> {
    match member_at(b, pos) {
        Err(e) => Err(e),
        Ok((k, v, q5)) => {
            let acc2 = insert_field(acc, k, v);
            let q6 = skip_ws_from(b, q5);
            let o = peek_at(b, q6);
            if o == Some(44u8) {
                Ok((acc2, q6 + 1, true))
            } else if o == Some(125u8) {
                Ok((acc2, q6 + 1, false))
            } else {
                Err("expected ',' or '}', got "@ + byte_debug(o))
            }
        },
    }
}

/// Object members from `pos` on, onto `acc`: the members and the position
/// after the closing brace.
pub open spec fn members_from(b: Seq<u8>, pos: int, acc: Seq<(Seq<char>, ValueView)>) -> Result<
    (Seq<(Seq<char>, ValueView)>, int),
    Seq<char>,
>
    decreases b.len() - pos,
{
    match member_step(b, pos, acc) {
        Err(e) => Err(e),
        Ok((acc2, p, more)) => {
            if !more {
                Ok((acc2, p))
            } else if pos < p <= b.len() {
                members_from(b, p, acc2)
            } else {
                Err(seq![])
            }
        },
    }
}

/// What `parse` returns for the UTF-8 bytes of a line.
pub open spec fn parse_bytes(b: Seq<u8>) -> Result<Seq<(Seq<char>, ValueView)>, Seq<char>> {
    let p0 = skip_ws_from(b, 0);
    match expect_at(b, p0, 123) {
        Err(e) => Err(e),
        Ok(p1) => {
            let p2 = skip_ws_from(b, p1);
            let r = if peek_at(b, p2) == Some(125u8) {
                Ok((Seq::<(Seq<char>, ValueView)>::empty(), p2 + 1))
            } else {
                members_from(b, p2, seq![])
            };
            match r {
                Err(e) => Err(e),
                Ok((fs, p3)) => {
                    let p4 = skip_ws_from(b, p3);
                    if p4 != b.len() {
                        Err("trailing bytes at offset "@ + dec_chars(p4 as nat))
                    } else {
                        Ok(fs)
                    }
                },
            }
        },
    }
}

/// Parse one flat JSON object. Unknown value types (nested objects, arrays,
/// null, floats, negative numbers) are errors — history records never
/// contain them, so their presence means the file is not ours or is damaged.
pub fn parse(line: &str) -> (r: Result<Fields, String>)
    ensures
        match parse_bytes(line.spec_bytes()) {
            Ok(fs) => r matches Ok(f) && f@ == fs,
            Err(m) => r matches Err(e) && e@ == m,
        },
        r matches Ok(f) ==> distinct_keys(f@),
{
    let mut p = Parser { bytes: line.as_bytes(), pos: 0 };
    let ghost b = p.bytes@;
    proof {
        lemma_valid_skip0(line@);
    }
    p.skip_ws();
    p.expect(123)?;
    let mut map = Fields::empty();
    p.skip_ws();
    if p.peek() == Some(125u8) {
        proof {
            lemma_ascii_step(b, p.pos as int);
        }
        p.next();
    } else {
        let ghost p2 = p.pos as int;
        loop
            invariant_except_break
                p.bytes@ == b,
                b == line.spec_bytes(),
                p2 <= p.pos <= b.len(),
                valid_utf8(b.skip(p.pos as int)),
                members_from(b, p2, seq![]) == members_from(b, p.pos as int, map@),
                members_from(b, p2, seq![]) is Err ==> parse_bytes(b) == Err::<
                    Seq<(Seq<char>, ValueView)>,
                    Seq<char>,
                >(members_from(b, p2, seq![])->Err_0),
            ensures
                p.bytes@ == b,
                p.pos <= b.len(),
                valid_utf8(b.skip(p.pos as int)),
                members_from(b, p2, seq![]) == Ok::<_, Seq<char>>((map@, p.pos as int)),
            decreases b.len() - p.pos,
        {
            let more = match p.member_and_separator(&mut map) {
                Ok(more) => more,
                Err(e) => {
                    return Err(e);
                },
            };
            if !more {
                break;
            }
        }
    }
    p.skip_ws();
    if p.pos != p.bytes.len() {
        let mut msg = "trailing bytes at offset ".to_owned();
        push_dec(&mut msg, p.pos as u64);
        return Err(msg);
    }
    proof {
        use_type_invariant(&map);
    }
    Ok(map)
}

/// Append `{:?}` of an optional byte.
fn push_byte_debug(s: &mut String, o: Option<u8>)
    ensures
        final(s)@ == old(s)@ + byte_debug(o),
{
    match o {
        Some(x) => {
            s.append("Some(");
            push_dec(s, x as u64);
            s.append(")");
        },
        None => s.append("None"),
    }
}

proof fn lemma_valid_skip0(cs: Seq<char>)
    ensures
        valid_utf8(encode_utf8(cs).skip(0)),
{
    vstd::utf8::encode_utf8_valid_utf8(cs);
    assert(encode_utf8(cs).skip(0) =~= encode_utf8(cs));
}

/// An ASCII byte at a character boundary is a whole character.
proof fn lemma_ascii_step(b: Seq<u8>, p: int)
    requires
        0 <= p < b.len(),
        valid_utf8(b.skip(p)),
        b[p] < 0x80,
    ensures
        valid_utf8(b.skip(p + 1)),
{
    let x = b.skip(p);
    assert(x[0] == b[p]);
    assert(length_of_first_scalar(x) == 1);
    assert(pop_first_scalar(x) =~= b.skip(p + 1));
}

fn hex_digit_value(x: u8) -> (r: Option<u32>)
    ensures
        r == hex_value(x),
{
    if 48 <= x && x <= 57 {
        Some((x - 48) as u32)
    } else if 97 <= x && x <= 102 {
        Some((x - 87) as u32)
    } else if 65 <= x && x <= 70 {
        Some((x - 55) as u32)
    } else {
        None
    }
}

pub(crate) proof fn lemma_digits_end(b: Seq<u8>, p: int)
    requires
        0 <= p <= b.len(),
    ensures
        p <= digits_end(b, p) <= b.len(),
        forall|t: int| p <= t < digits_end(b, p) ==> is_digit(#[trigger] b[t]),
        digits_end(b, p) < b.len() ==> !is_digit(b[digits_end(b, p)]),
    decreases b.len() - p,
{
    if p < b.len() && is_digit(b[p]) {
        lemma_digits_end(b, p + 1);
    }
}

proof fn lemma_digits_grow(s: Seq<u8>, k: int)
    requires
        0 <= k <= s.len(),
    ensures
        digits_value(s.take(k)) <= digits_value(s),
    decreases s.len() - k,
{
    if k < s.len() {
        lemma_digits_grow(s, k + 1);
        assert(s.take(k + 1).drop_last() =~= s.take(k));
    } else {
        assert(s.take(k) =~= s);
    }
}

/// Skipping over ASCII bytes that spell `word` keeps a character boundary.
proof fn lemma_ascii_prefix(b: Seq<u8>, start: int, word: Seq<char>, t: int)
    requires
        0 <= start,
        0 <= t <= word.len(),
        start + word.len() <= b.len(),
        valid_utf8(b.skip(start)),
        is_ascii_chars(word),
        forall|i: int| 0 <= i < word.len() ==> b[start + i] == word[i] as u8,
    ensures
        valid_utf8(b.skip(start + t)),
    decreases t,
{
    if t > 0 {
        lemma_ascii_prefix(b, start, word, t - 1);
        assert(b[start + t - 1] == word[t - 1] as u8);
        assert('\0' <= word[t - 1] <= '\u{7f}');
        lemma_ascii_step(b, start + t - 1);
    }
}

/// At a character boundary, a non-ASCII lead byte starts a whole encoded
/// character of `utf8_width` bytes.
proof fn lemma_scalar_step(b: Seq<u8>, p: int)
    requires
        0 <= p < b.len(),
        valid_utf8(b.skip(p)),
    ensures
        p + utf8_width(b[p]) <= b.len(),
        valid_utf8(b.subrange(p, p + utf8_width(b[p]))),
        valid_utf8(b.skip(p + utf8_width(b[p]))),
{
    let x = b.skip(p);
    let w = utf8_width(b[p]);
    assert(x[0] == b[p]);
    assert(valid_first_scalar(x));
    assert(length_of_first_scalar(x) == w);
    assert(pop_first_scalar(x) =~= b.skip(p + w));
    let c = b.subrange(p, p + w);
    assert(c[0] == x[0]);
    if w > 1 {
        assert(c[1] == x[1]);
    }
    if w > 2 {
        assert(c[2] == x[2]);
    }
    if w > 3 {
        assert(c[3] == x[3]);
    }
    assert(valid_first_scalar(c));
    assert(length_of_first_scalar(c) == w);
    assert(pop_first_scalar(c) =~= Seq::<u8>::empty());
    assert(valid_utf8(Seq::<u8>::empty()));
    assert(valid_utf8(c));
}

struct Parser<'a> {
    bytes: &'a [u8],
    pos: usize,
}

impl<'a> Parser<'a> {
    fn peek(&self) -> (r: Option<u8>)
        ensures
            r == peek_at(self.bytes@, self.pos as int),
    {
        if self.pos < self.bytes.len() {
            Some(self.bytes[self.pos])
        } else {
            None
        }
    }

    fn next(&mut self) -> (r: Option<u8>)
        requires
            old(self).pos <= old(self).bytes@.len(),
        ensures
            r == peek_at(old(self).bytes@, old(self).pos as int),
            final(self).bytes@ == old(self).bytes@,
            final(self).pos == if r is Some { old(self).pos + 1 } else { old(self).pos as int },
            final(self).pos <= final(self).bytes@.len(),
    {
        if self.pos < self.bytes.len() {
            let b = self.bytes[self.pos];
            self.pos = self.pos + 1;
            Some(b)
        } else {
            None
        }
    }

    fn skip_ws(&mut self)
        requires
            old(self).pos <= old(self).bytes@.len(),
            valid_utf8(old(self).bytes@.skip(old(self).pos as int)),
        ensures
            final(self).bytes@ == old(self).bytes@,
            final(self).pos == skip_ws_from(old(self).bytes@, old(self).pos as int),
            old(self).pos <= final(self).pos <= final(self).bytes@.len(),
            valid_utf8(final(self).bytes@.skip(final(self).pos as int)),
    {
        let ghost b = self.bytes@;
        let ghost start = self.pos as int;
        while self.pos < self.bytes.len() && (self.bytes[self.pos] == 32 || self.bytes[self.pos] == 9
            || self.bytes[self.pos] == 10 || self.bytes[self.pos] == 13)
            invariant
                self.bytes@ == b,
                start <= self.pos <= b.len(),
                skip_ws_from(b, start) == skip_ws_from(b, self.pos as int),
                valid_utf8(b.skip(self.pos as int)),
            decreases b.len() - self.pos,
        {
            proof {
                lemma_ascii_step(b, self.pos as int);
            }
            self.pos = self.pos + 1;
        }
    }

    fn member_and_separator(&mut self, map: &mut Fields) -> (r: Result<bool, String>)
        requires
            old(self).pos <= old(self).bytes@.len(),
            valid_utf8(old(self).bytes@.skip(old(self).pos as int)),
        ensures
            final(self).bytes@ == old(self).bytes@,
            final(self).pos <= final(self).bytes@.len(),
            match member_step(old(self).bytes@, old(self).pos as int, old(map)@) {
                Ok((acc, p, more)) => r == Ok::<bool, String>(more) && final(map)@ == acc
                    && final(self).pos == p && old(self).pos < p
                    && valid_utf8(final(self).bytes@.skip(p)),
                Err(m) => r matches Err(e) && e@ == m,
            },
    {
        let ghost b = self.bytes@;
        proof {
            reveal(member_step);
        }
        let (key, value) = self.member()?;
        let mut cur = Fields::empty();
        std::mem::swap(map, &mut cur);
        *map = cur.with(key, value);
        self.skip_ws();
        let q6 = self.pos;
        match self.next() {
            Some(x) => {
                if x == 44 {
                    proof {
                        lemma_ascii_step(b, q6 as int);
                    }
                    Ok(true)
                } else if x == 125 {
                    proof {
                        lemma_ascii_step(b, q6 as int);
                    }
                    Ok(false)
                } else {
                    let mut msg = "expected ',' or '}', got ".to_owned();
                    push_byte_debug(&mut msg, Some(x));
                    Err(msg)
                }
            },
            None => {
                let mut msg = "expected ',' or '}', got ".to_owned();
                push_byte_debug(&mut msg, None);
                Err(msg)
            },
        }
    }

    fn member(&mut self) -> (r: Result<(String, Value), String>)
        requires
            old(self).pos <= old(self).bytes@.len(),
            valid_utf8(old(self).bytes@.skip(old(self).pos as int)),
        ensures
            final(self).bytes@ == old(self).bytes@,
            final(self).pos <= final(self).bytes@.len(),
            match member_at(old(self).bytes@, old(self).pos as int) {
                Ok((k, v, p)) => r matches Ok(kv) && kv.0@ == k && kv.1@ == v && final(self).pos == p
                    && old(self).pos < p && valid_utf8(final(self).bytes@.skip(p)),
                Err(m) => r matches Err(e) && e@ == m,
            },
    {
        proof {
            reveal(member_at);
        }
        self.skip_ws();
        let key = self.string()?;
        self.skip_ws();
        self.expect(58)?;
        self.skip_ws();
        let value = self.value()?;
        Ok((key, value))
    }

    fn value(&mut self) -> (r: Result<Value, String>)
        requires
            old(self).pos <= old(self).bytes@.len(),
            valid_utf8(old(self).bytes@.skip(old(self).pos as int)),
        ensures
            final(self).bytes@ == old(self).bytes@,
            final(self).pos <= final(self).bytes@.len(),
            match value_at(old(self).bytes@, old(self).pos as int) {
                Ok((v, p)) => r matches Ok(x) && x@ == v && final(self).pos == p
                    && old(self).pos < p && valid_utf8(final(self).bytes@.skip(p)),
                Err(m) => r matches Err(e) && e@ == m,
            },
    {
        proof {
            reveal_strlit("true");
            reveal_strlit("false");
        }
        match self.peek() {
            Some(34u8) => {
                let s = self.string()?;
                Ok(Value::Str(s))
            },
            Some(x) => {
                if 48 <= x && x <= 57 {
                    self.number()
                } else if x == 116 {
                    self.literal("true", Value::Bool(true))
                } else if x == 102 {
                    self.literal("false", Value::Bool(false))
                } else {
                    let mut msg = "unsupported value starting with ".to_owned();
                    push_byte_debug(&mut msg, Some(x));
                    Err(msg)
                }
            },
            None => {
                let mut msg = "unsupported value starting with ".to_owned();
                push_byte_debug(&mut msg, None);
                Err(msg)
            },
        }
    }

    fn literal(&mut self, word: &str, value: Value) -> (r: Result<Value, String>)
        requires
            old(self).pos <= old(self).bytes@.len(),
            valid_utf8(old(self).bytes@.skip(old(self).pos as int)),
            is_ascii_chars(word@),
            word@.len() > 0,
        ensures
            final(self).bytes@ == old(self).bytes@,
            final(self).pos <= final(self).bytes@.len(),
            match literal_at(old(self).bytes@, old(self).pos as int, word@, value@) {
                Ok((v, p)) => r matches Ok(x) && x@ == v && final(self).pos == p
                    && old(self).pos < p && valid_utf8(final(self).bytes@.skip(p)),
                Err(m) => r matches Err(e) && e@ == m,
            },
    {
        let ghost b = self.bytes@;
        let wb = word.as_bytes();
        proof {
            is_ascii_chars_encode_utf8(word@);
        }
        let n = self.bytes.len();
        let m = wb.len();
        let mut ok = n - self.pos >= m;
        let mut i: usize = 0;
        if ok {
            while i < m
                invariant
                    self.bytes@ == b,
                    n == b.len(),
                    m == wb@.len(),
                    m == word@.len(),
                    self.pos + m <= n,
                    i <= m,
                    wb@ == encode_utf8(word@),
                    forall|t: int| 0 <= t < m ==> word@[t] as u8 == wb@[t],
                    ok == forall|t: int| 0 <= t < i ==> b[self.pos + t] == word@[t] as u8,
                decreases m - i,
            {
                if self.bytes[self.pos + i] != wb[i] {
                    ok = false;
                }
                i = i + 1;
            }
        }
        if ok {
            let ghost start = self.pos as int;
            proof {
                lemma_ascii_prefix(b, start, word@, m as int);
            }
            self.pos = self.pos + m;
            Ok(value)
        } else {
            let mut msg = "expected literal '".to_owned();
            msg.append(word);
            msg.append("'");
            Err(msg)
        }
    }

    fn number(&mut self) -> (r: Result<Value, String>)
        requires
            old(self).pos < old(self).bytes@.len(),
            is_digit(old(self).bytes@[old(self).pos as int]),
            valid_utf8(old(self).bytes@.skip(old(self).pos as int)),
        ensures
            final(self).bytes@ == old(self).bytes@,
            final(self).pos <= final(self).bytes@.len(),
            match number_at(old(self).bytes@, old(self).pos as int) {
                Ok((v, p)) => r matches Ok(x) && x@ == v && final(self).pos == p
                    && old(self).pos < p && valid_utf8(final(self).bytes@.skip(p)),
                Err(m) => r matches Err(e) && e@ == m,
            },
    {
        let ghost b = self.bytes@;
        let start = self.pos;
        while self.pos < self.bytes.len() && 48 <= self.bytes[self.pos] && self.bytes[self.pos] <= 57
            invariant
                self.bytes@ == b,
                start <= self.pos <= b.len(),
                digits_end(b, start as int) == digits_end(b, self.pos as int),
                valid_utf8(b.skip(self.pos as int)),
                forall|t: int| start <= t < self.pos ==> is_digit(#[trigger] b[t]),
            decreases b.len() - self.pos,
        {
            proof {
                lemma_ascii_step(b, self.pos as int);
            }
            self.pos = self.pos + 1;
        }
        let end = self.pos;
        proof {
            lemma_digits_end(b, start as int);
            assert(digits_end(b, end as int) == end);
        }
        match self.peek() {
            Some(x) => {
                if x == 46 || x == 101 || x == 69 || x == 45 || x == 43 {
                    return Err("floats are not valid in history records".to_owned());
                }
            },
            None => {},
        }
        let mut acc: u64 = 0;
        let mut i = start;
        while i < end
            invariant
                self.bytes@ == b,
                b == old(self).bytes@,
                start == old(self).pos,
                start <= i <= end,
                end <= b.len(),
                forall|t: int| start <= t < end ==> is_digit(#[trigger] b[t]),
                acc == digits_value(b.subrange(start as int, i as int)),
                end == digits_end(b, start as int),
                start < end,
                self.pos == end,
                valid_utf8(b.skip(end as int)),
                !(peek_at(b, end as int) matches Some(x) && (x == 46 || x == 101 || x == 69 || x == 45 || x == 43)),
            decreases end - i,
        {
            let d = (self.bytes[i] - 48) as u64;
            proof {
                assert(b.subrange(start as int, i + 1).drop_last() =~= b.subrange(start as int, i as int));
                lemma_digits_grow(b.subrange(start as int, end as int), (i + 1 - start) as int);
                assert(b.subrange(start as int, end as int).take((i + 1 - start) as int) =~= b.subrange(start as int, i + 1));
            }
            match acc.checked_mul(10) {
                None => {
                    return Err("bad integer: number too large to fit in target type".to_owned());
                },
                Some(t) => match t.checked_add(d) {
                    None => {
                        return Err("bad integer: number too large to fit in target type".to_owned());
                    },
                    Some(v) => {
                        acc = v;
                    },
                },
            }
            i = i + 1;
        }
        proof {
            assert(b.subrange(start as int, end as int) =~= b.subrange(start as int, i as int));
        }
        Ok(Value::UInt(acc))
    }

    fn string(&mut self) -> (r: Result<String, String>)
        requires
            old(self).pos <= old(self).bytes@.len(),
            valid_utf8(old(self).bytes@.skip(old(self).pos as int)),
        ensures
            final(self).bytes@ == old(self).bytes@,
            final(self).pos <= final(self).bytes@.len(),
            match string_at(old(self).bytes@, old(self).pos as int) {
                Ok((t, p)) => r matches Ok(x) && x@ == t && final(self).pos == p
                    && old(self).pos < p && valid_utf8(final(self).bytes@.skip(p)),
                Err(m) => r matches Err(e) && e@ == m,
            },
    {
        let ghost b = self.bytes@;
        let ghost start = self.pos as int;
        self.expect(34)?;
        let mut out = String::new();
        loop
            invariant
                self.bytes@ == b,
                b == old(self).bytes@,
                start == old(self).pos,
                start < self.pos <= b.len(),
                valid_utf8(b.skip(self.pos as int)),
                string_at(b, start) == string_body(b, self.pos as int, out@),
            decreases b.len() - self.pos,
        {
            let here = self.pos;
            match self.next() {
                None => {
                    return Err("unterminated string".to_owned());
                },
                Some(x) => {
                    if x == 34 {
                        proof {
                            lemma_ascii_step(b, here as int);
                        }
                        return Ok(out);
                    } else if x == 92 {
                        let ghost after = self.pos as int;
                        match self.next() {
                            Some(e) => {
                                proof {
                                    lemma_ascii_step(b, here as int);
                                }
                                if e == 34 {
                                    push_char(&mut out, '"');
                                } else if e == 92 {
                                    push_char(&mut out, '\\');
                                } else if e == 47 {
                                    push_char(&mut out, '/');
                                } else if e == 98 {
                                    push_char(&mut out, '\u{8}');
                                } else if e == 102 {
                                    push_char(&mut out, '\u{c}');
                                } else if e == 110 {
                                    push_char(&mut out, '\n');
                                } else if e == 114 {
                                    push_char(&mut out, '\r');
                                } else if e == 116 {
                                    push_char(&mut out, '\t');
                                } else if e == 117 {
                                    proof {
                                        lemma_ascii_step(b, after);
                                    }
                                    let c = self.unicode_escape()?;
                                    push_char(&mut out, c);
                                } else {
                                    let mut msg = "bad escape ".to_owned();
                                    push_byte_debug(&mut msg, Some(e));
                                    return Err(msg);
                                }
                                proof {
                                    if e != 117 {
                                        lemma_ascii_step(b, after);
                                    }
                                }
                            },
                            None => {
                                let mut msg = "bad escape ".to_owned();
                                push_byte_debug(&mut msg, None);
                                return Err(msg);
                            },
                        }
                    } else if x < 0x20 {
                        return Err("raw control byte in string".to_owned());
                    } else {
                        let w: usize = if x <= 0x7F {
                            1
                        } else if 0xC0 <= x && x <= 0xDF {
                            2
                        } else if 0xE0 <= x && x <= 0xEF {
                            3
                        } else {
                            4
                        };
                        if self.bytes.len() - here < w {
                            return Err("truncated UTF-8 sequence".to_owned());
                        }
                        proof {
                            lemma_scalar_step(b, here as int);
                        }
                        let chunk = slice_subrange(self.bytes, here, here + w);
                        match utf8_str(chunk) {
                            Some(t) => {
                                out.append(t);
                            },
                            None => {
                                proof {
                                    assert(false);
                                }
                                return Err(String::new());
                            },
                        }
                        self.pos = here + w;
                    }
                },
            }
        }
    }

    fn unicode_escape(&mut self) -> (r: Result<char, String>)
        requires
            old(self).pos <= old(self).bytes@.len(),
            valid_utf8(old(self).bytes@.skip(old(self).pos as int)),
        ensures
            final(self).bytes@ == old(self).bytes@,
            final(self).pos <= final(self).bytes@.len(),
            match unicode_escape_at(old(self).bytes@, old(self).pos as int) {
                Ok((c, p)) => r == Ok::<char, String>(c) && final(self).pos == p
                    && old(self).pos < p && valid_utf8(final(self).bytes@.skip(p)),
                Err(m) => r matches Err(e) && e@ == m,
            },
    {
        let ghost b = self.bytes@;
        let ghost start = self.pos as int;
        let hi = self.hex4()?;
        if 0xD800 <= hi && hi < 0xDC00 {
            let ghost p1 = self.pos as int;
            let a = self.next();
            if a != Some(92u8) {
                return Err("high surrogate without low surrogate".to_owned());
            }
            let u = self.next();
            if u != Some(117u8) {
                return Err("high surrogate without low surrogate".to_owned());
            }
            proof {
                lemma_ascii_step(b, p1);
                lemma_ascii_step(b, p1 + 1);
            }
            let lo = self.hex4()?;
            if !(0xDC00 <= lo && lo < 0xE000) {
                return Err("invalid low surrogate".to_owned());
            }
            let code = 0x10000 + (hi - 0xD800) * 1024 + (lo - 0xDC00);
            proof {
                assert(is_scalar(code));
            }
            match char_from_u32(code) {
                Some(c) => Ok(c),
                None => Err("bad surrogate pair".to_owned()),
            }
        } else {
            match char_from_u32(hi) {
                Some(c) => Ok(c),
                None => {
                    let mut msg = "invalid codepoint \\u".to_owned();
                    push_hex4(&mut msg, hi);
                    Err(msg)
                },
            }
        }
    }

    fn hex4(&mut self) -> (r: Result<u32, String>)
        requires
            old(self).pos <= old(self).bytes@.len(),
            valid_utf8(old(self).bytes@.skip(old(self).pos as int)),
        ensures
            final(self).bytes@ == old(self).bytes@,
            final(self).pos <= final(self).bytes@.len(),
            match hex4_at(old(self).bytes@, old(self).pos as int) {
                Ok((v, p)) => r == Ok::<u32, String>(v) && final(self).pos == p && v < 0x10000
                    && old(self).pos < p && valid_utf8(final(self).bytes@.skip(p)),
                Err(m) => r matches Err(e) && e@ == m,
            },
    {
        let ghost b = self.bytes@;
        let ghost start = self.pos as int;
        let mut n: u32 = 0;
        let mut k: usize = 0;
        while k < 4
            invariant
                self.bytes@ == b,
                k <= 4,
                self.pos == start + k,
                self.pos <= b.len(),
                valid_utf8(b.skip(self.pos as int)),
                b == old(self).bytes@,
                start == old(self).pos,
                k == 0 ==> n == 0,
                k <= 1 ==> n < 16,
                k <= 2 ==> n < 256,
                k <= 3 ==> n < 4096,
                n < 65536,
                hex4_at(b, start) == hex_run(b, self.pos as int, (4 - k) as nat, n),
            decreases 4 - k,
        {
            let here = self.pos;
            let x = match self.next() {
                Some(x) => x,
                None => {
                    return Err("truncated \\u escape".to_owned());
                },
            };
            let d = match hex_digit_value(x) {
                Some(d) => d,
                None => {
                    return Err("non-hex in \\u escape".to_owned());
                },
            };
            proof {
                lemma_ascii_step(b, here as int);
            }
            n = n * 16 + d;
            k = k + 1;
        }
        Ok(n)
    }

    fn expect(&mut self, want: u8) -> (r: Result<(), String>)
        requires
            old(self).pos <= old(self).bytes@.len(),
            valid_utf8(old(self).bytes@.skip(old(self).pos as int)),
            want < 0x80,
        ensures
            final(self).bytes@ == old(self).bytes@,
            final(self).pos <= final(self).bytes@.len(),
            match expect_at(old(self).bytes@, old(self).pos as int, want) {
                Ok(p) => r is Ok && final(self).pos == p
                    && valid_utf8(final(self).bytes@.skip(final(self).pos as int)),
                Err(m) => r matches Err(e) && e@ == m,
            },
    {
        let ghost start = self.pos as int;
        match self.next() {
            Some(b) => {
                if b == want {
                    proof {
                        lemma_ascii_step(self.bytes@, start);
                    }
                    Ok(())
                } else {
                    let mut msg = "expected '".to_owned();
                    push_char(&mut msg, want as char);
                    msg.append("', got ");
                    push_byte_debug(&mut msg, Some(b));
                    Err(msg)
                }
            },
            None => {
                let mut msg = "expected '".to_owned();
                push_char(&mut msg, want as char);
                msg.append("', got ");
                push_byte_debug(&mut msg, None);
                Err(msg)
            },
        }
    }
}

} // verus!
