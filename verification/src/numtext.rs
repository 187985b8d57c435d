//! Decimal and hexadecimal rendering of integers as text.

use vstd::prelude::*;
use vstd::std_specs::iter::IteratorSpec;
use crate::text::push_char;

verus! {

/// The ASCII digit for a value below ten.
pub open spec fn digit_char(d: nat) -> char {
    (48 + d) as char
}

/// Decimal digits of `n`, most significant first, without leading zeros
/// (zero itself is the single digit `0`).
pub open spec fn dec_chars(n: nat) -> Seq<char>
    decreases n,
{
    if n < 10 {
        seq![digit_char(n)]
    } else {
        dec_chars(n / 10).push(digit_char(n % 10))
    }
}

/// Lower-case hexadecimal digit for a value below sixteen.
pub open spec fn hex_digit_char(d: nat) -> char {
    if d < 10 { (48 + d) as char } else { (87 + d) as char }
}

/// Exactly two lower-case hexadecimal digits of a byte.
pub open spec fn hex2_chars(b: u8) -> Seq<char> {
    seq![hex_digit_char((b / 16) as nat), hex_digit_char((b % 16) as nat)]
}

/// Append the decimal digits of `n` to `s`.
pub fn push_dec(s: &mut String, n: u64)
    ensures
        final(s)@ == old(s)@ + dec_chars(n as nat),
    decreases n,
{
    if n >= 10 {
        push_dec(s, n / 10);
    }
    let d = (n % 10) as u8;
    push_char(s, (48u8 + d) as char);
}


/// Append the two lower-case hexadecimal digits of `b` to `s`.
pub fn push_hex2(s: &mut String, b: u8)
    ensures
        final(s)@ == old(s)@ + hex2_chars(b),
{
    let hi = b / 16;
    let lo = b % 16;
    push_char(s, hex_digit(hi));
    push_char(s, hex_digit(lo));
}

/// Exactly four lower-case hexadecimal digits of a value below 0x10000.
pub open spec fn hex4_chars(n: nat) -> Seq<char> {
    seq![
        hex_digit_char(n / 4096 % 16),
        hex_digit_char(n / 256 % 16),
        hex_digit_char(n / 16 % 16),
        hex_digit_char(n % 16),
    ]
}

/// Append the four lower-case hexadecimal digits of `n` (`{:04x}`) to `s`.
pub fn push_hex4(s: &mut String, n: u32)
    requires
        n < 0x10000,
    ensures
        final(s)@ == old(s)@ + hex4_chars(n as nat),
{
    push_char(s, hex_digit(((n / 4096) % 16) as u8));
    push_char(s, hex_digit(((n / 256) % 16) as u8));
    push_char(s, hex_digit(((n / 16) % 16) as u8));
    push_char(s, hex_digit((n % 16) as u8));
}

fn hex_digit(d: u8) -> (c: char)
    requires
        d < 16,
    ensures
        c == hex_digit_char(d as nat),
{
    if d < 10 {
        (48u8 + d) as char
    } else {
        (87u8 + d) as char
    }
}

/// Render `n` in decimal.
pub fn dec_u64(n: u64) -> (s: String)
    ensures
        s@ == dec_chars(n as nat),
{
    let mut s = String::new();
    push_dec(&mut s, n);
    s
}

/// Whether `c` is an ASCII decimal digit.
pub open spec fn is_dec_digit(c: char) -> bool {
    '0' <= c <= '9'
}

/// The number a run of ASCII decimal digits spells.
pub open spec fn digits_nat(t: Seq<char>) -> nat
    decreases t.len(),
{
    if t.len() == 0 {
        0
    } else {
        digits_nat(t.drop_last()) * 10 + (t.last() as nat - 48) as nat
    }
}

/// Whether every character of `t` is an ASCII decimal digit.
pub open spec fn all_dec_digits(t: Seq<char>) -> bool {
    forall|i: int| 0 <= i < t.len() ==> is_dec_digit(#[trigger] t[i])
}

/// `t` without one leading `+`.
pub open spec fn unsigned_body(t: Seq<char>) -> Seq<char> {
    if t.len() > 0 && t[0] == '+' {
        t.drop_first()
    } else {
        t
    }
}

/// What `str::parse::<usize>` accepts: an optional `+`, then one or more
/// ASCII digits whose value fits in a `usize`.
pub open spec fn usize_text(t: Seq<char>) -> Option<usize> {
    let body = unsigned_body(t);
    if body.len() > 0 && all_dec_digits(body) && digits_nat(body) <= usize::MAX {
        Some(digits_nat(body) as usize)
    } else {
        None
    }
}

proof fn lemma_digits_nat_grow(t: Seq<char>, k: int)
    requires
        0 <= k <= t.len(),
        forall|i: int| 0 <= i < t.len() ==> is_dec_digit(#[trigger] t[i]),
    ensures
        digits_nat(t.take(k)) <= digits_nat(t),
    decreases t.len() - k,
{
    if k < t.len() {
        lemma_digits_nat_grow(t, k + 1);
        assert(t.take(k + 1).drop_last() =~= t.take(k));
        assert(is_dec_digit(t[k]));
    } else {
        assert(t.take(k) =~= t);
    }
}

/// Parse a `usize` in decimal, as `str::parse::<usize>` does.
pub fn parse_usize(s: &str) -> (r: Option<usize>)
    ensures
        r == usize_text(s@),
{
    let mut it = s.chars();
    let ghost all = s@;
    let ghost start: int = if all.len() > 0 && all[0] == '+' { 1 } else { 0 };
    let ghost body = if all.len() > 0 && all[0] == '+' { all.drop_first() } else { all };
    let ghost mut k: int = 0;
    let mut value: usize = 0;
    let mut first = true;
    let mut any = false;
    proof {
        broadcast use vstd::string::group_string_axioms;
        assert(it.remaining() == all);
        assert(body =~= all.subrange(start, all.len() as int));
    }
    loop
        invariant_except_break
            0 <= k <= all.len(),
            all == s@,
            body =~= all.subrange(start, all.len() as int),
            start == (if all.len() > 0 && all[0] == '+' { 1int } else { 0int }),
            first == (k == 0),
            it.remaining() == all.skip(k),
            k < start ==> k == 0 && value == 0 && !any,
            k >= start ==> value == digits_nat(all.subrange(start, k)) && any == (k > start)
                && forall|i: int| start <= i < k ==> is_dec_digit(#[trigger] all[i]),
        ensures
            k == all.len(),
            k >= start,
            value == digits_nat(body),
            any == (body.len() > 0),
            forall|i: int| 0 <= i < body.len() ==> is_dec_digit(#[trigger] body[i]),
        decreases all.len() - k,
    {
        let next = it.next();
        proof {
            broadcast use vstd::string::group_string_axioms;
        }
        match next {
            None => {
                proof {
                    assert(all.skip(k).len() == 0);
                    assert(all.subrange(start, k) =~= body);
                    assert forall|i: int| 0 <= i < body.len() implies is_dec_digit(#[trigger] body[i]) by {
                        assert(body[i] == all[start + i]);
                    }
                }
                break;
            },
            Some(c) => {
                proof {
                    assert(all.skip(k)[0] == c);
                    assert(all.skip(k).drop_first() =~= all.skip(k + 1));
                    assert(all[k] == c);
                }
                if first && c == '+' {
                    first = false;
                } else if '0' <= c && c <= '9' {
                    let d = (c as u32 - 48) as usize;
                    proof {
                        assert(k >= start);
                        assert(all.subrange(start, k + 1).drop_last() =~= all.subrange(start, k));
                        assert(all.subrange(start, k + 1).last() == c);
                        assert(digits_nat(all.subrange(start, k + 1)) == value * 10 + d);
                    }
                    if value > (usize::MAX - d) / 10 {
                        proof {
                            assert(value * 10 + d > usize::MAX);
                            if all_dec_digits(body) {
                                lemma_digits_nat_grow(body, k + 1 - start);
                                assert(body.take(k + 1 - start) =~= all.subrange(start, k + 1));
                                assert(digits_nat(body) > usize::MAX);
                            }
                            assert(body == unsigned_body(s@));
                            assert(usize_text(s@) is None);
                        }
                        return None;
                    }
                    value = value * 10 + d;
                    any = true;
                    first = false;
                } else {
                    proof {
                        assert(k >= start);
                        assert(body[k - start] == c);
                        assert(!is_dec_digit(body[k - start]));
                    }
                    return None;
                }
                proof {
                    k = k + 1;
                }
            },
        }
    }
    if !any {
        return None;
    }
    Some(value)
}

} // verus!
