//! Human-facing formatting: previews, sizes, ages.
//!
//! Pure functions only — every caller passes the clock in, so list output is
//! fully testable. Previews must be safe to print: clipboard content is
//! attacker-adjacent (it can contain escape sequences), so every control
//! character is neutralized before it reaches the user's terminal.

use vstd::prelude::*;
use vstd::std_specs::iter::IteratorSpec;
use vstd::utf8::{decode_utf8, valid_utf8};
use crate::numtext::{dec_chars, digit_char, hex2_chars, push_dec, push_hex2};
use crate::text::{push_char, utf8_str};

verus! {

// ------------------------------------------------------------ previews

/// Whether `c` is a control character (general category Cc), as
/// `char::is_control` tests.
pub open spec fn is_control(c: char) -> bool {
    c <= '\u{1f}' || ('\u{7f}' <= c && c <= '\u{9f}')
}

/// Whether `c` ends the first line.
pub open spec fn is_break(c: char) -> bool {
    c == '\n' || c == '\r'
}

/// How a character of the first line is shown: a tab as a space, any other
/// control character as `·`, everything else as itself.
pub open spec fn shown(c: char) -> char {
    if c == '\t' {
        ' '
    } else if is_control(c) {
        '·'
    } else {
        c
    }
}

/// The characters of `s`, each as it is shown.
pub open spec fn shown_all(s: Seq<char>) -> Seq<char> {
    s.map_values(|c: char| shown(c))
}

/// Index of the first line break in `t` (its length when there is none).
pub open spec fn first_break(t: Seq<char>) -> nat
    decreases t.len(),
{
    if t.len() == 0 {
        0
    } else if is_break(t[0]) {
        0
    } else {
        1 + first_break(t.drop_first())
    }
}

/// The preview of text: its first line, at most `max` characters of it
/// shown, and `…` when anything is left out (more characters, or a line
/// after the first; a final `\n` alone does not count, a `\r` does).
pub open spec fn preview_text_spec(t: Seq<char>, max: nat) -> Seq<char> {
    let j = first_break(t);
    if max < j {
        shown_all(t.take(max as int)) + seq!['…']
    } else if j == t.len() {
        shown_all(t)
    } else if j == max || j + 1 < t.len() || t[j as int] == '\r' {
        shown_all(t.take(j as int)) + seq!['…']
    } else {
        shown_all(t.take(j as int))
    }
}

/// Bytes as two-digit lower-case hex, separated by spaces.
pub open spec fn hex_list(d: Seq<u8>) -> Seq<char>
    decreases d.len(),
{
    if d.len() == 0 {
        seq![]
    } else if d.len() == 1 {
        hex2_chars(d[0])
    } else {
        hex_list(d.drop_last()) + seq![' '] + hex2_chars(d.last())
    }
}

/// The sketch of binary content: its first eight bytes in hex, and ` …`
/// when there are more.
pub open spec fn binary_sketch(d: Seq<u8>) -> Seq<char> {
    let head = if d.len() > 8 { d.take(8) } else { d };
    "(binary: "@ + hex_list(head) + (if d.len() > 8 { seq![' ', '…'] } else { seq![] }) + seq![')']
}

/// The preview of clipboard bytes: of their text when they are UTF-8, else
/// a hex sketch.
pub open spec fn preview_spec(data: Seq<u8>, max: nat) -> Seq<char> {
    if valid_utf8(data) {
        preview_text_spec(decode_utf8(data), max)
    } else {
        binary_sketch(data)
    }
}

proof fn lemma_first_break(t: Seq<char>, i: int)
    requires
        0 <= i <= t.len(),
        forall|k: int| 0 <= k < i ==> !is_break(#[trigger] t[k]),
    ensures
        first_break(t) >= i,
        first_break(t) <= t.len(),
        i == t.len() ==> first_break(t) == i,
        i < t.len() && is_break(t[i]) ==> first_break(t) == i,
        i < t.len() && !is_break(t[i]) ==> first_break(t) > i,
    decreases i,
{
    if i > 0 {
        let r = t.drop_first();
        assert(!is_break(t[0]));
        assert forall|k: int| 0 <= k < i - 1 implies !is_break(#[trigger] r[k]) by {
            assert(r[k] == t[k + 1]);
        }
        lemma_first_break(r, i - 1);
        if i < t.len() {
            assert(r[i - 1] == t[i]);
        }
    } else {
        lemma_first_break_len(t);
    }
}

proof fn lemma_first_break_len(t: Seq<char>)
    ensures
        first_break(t) <= t.len(),
        t.len() > 0 && !is_break(t[0]) ==> first_break(t) > 0,
    decreases t.len(),
{
    if t.len() > 0 {
        lemma_first_break_len(t.drop_first());
    }
}

/// A character of the first line as it is shown.
fn shown_char(c: char) -> (r: char)
    ensures
        r == shown(c),
{
    if c == '\t' {
        ' '
    } else if c <= '\u{1f}' || ('\u{7f}' <= c && c <= '\u{9f}') {
        '·'
    } else {
        c
    }
}

/// The preview of text: its first line, control-safe, at most `max_chars`
/// characters, and `…` when anything is left out.
fn preview_text(text: &str, max_chars: usize) -> (out: String)
    ensures
        out@ == preview_text_spec(text@, max_chars as nat),
{
    let n = text.unicode_len();
    let mut out = String::new();
    let mut truncated = false;
    let mut it = text.chars();
    let mut i: usize = 0;
    let ghost all = text@;
    proof {
        broadcast use vstd::string::group_string_axioms;
        assert(it.remaining() == all);
        assert(shown_all(all.take(0)) =~= Seq::<char>::empty());
    }
    loop
        invariant_except_break
            i <= n,
            n == all.len(),
            all == text@,
            i <= max_chars,
            !truncated,
            it.remaining() == all.skip(i as int),
            out@ == shown_all(all.take(i as int)),
            forall|k: int| 0 <= k < i ==> !is_break(#[trigger] all[k]),
        ensures
            out@ + (if truncated { seq!['…'] } else { Seq::<char>::empty() }) == preview_text_spec(
                all,
                max_chars as nat,
            ),
        decreases n - i,
    {
        let next = it.next();
        proof {
            broadcast use vstd::string::group_string_axioms;
        }
        match next {
            None => {
                proof {
                    assert(all.skip(i as int).len() == 0);
                    lemma_first_break(all, i as int);
                    assert(all.take(i as int) =~= all);
                    assert(out@ + Seq::<char>::empty() =~= out@);
                }
                truncated = false;
                break;
            },
            Some(c) => {
                proof {
                    assert(all.skip(i as int)[0] == c);
                    assert(all.skip(i as int).drop_first() =~= all.skip(i + 1));
                    assert(all[i as int] == c);
                    lemma_first_break(all, i as int);
                }
                if i >= max_chars {
                    truncated = true;
                    break;
                }
                if c == '\n' || c == '\r' {
                    proof {
                        assert(is_break(all[i as int]));
                        assert(first_break(all) == i);
                        assert(i < all.len());
                    }
                    if i + 1 < n || c == '\r' {
                        truncated = true;
                    } else {
                        proof {
                            assert(out@ + Seq::<char>::empty() =~= out@);
                        }
                    }
                    break;
                }
                let s = shown_char(c);
                push_char(&mut out, s);
                proof {
                    assert(all.take(i + 1) =~= all.take(i as int).push(c));
                    assert(shown_all(all.take(i + 1)) =~= shown_all(all.take(i as int)).push(shown(c)));
                }
                i = i + 1;
            },
        }
    }
    if truncated {
        push_char(&mut out, '…');
    }
    out
}

/// The hex sketch of binary content.
fn binary_preview(data: &[u8]) -> (out: String)
    ensures
        out@ == binary_sketch(data@),
{
    let mut out = "(binary: ".to_owned();
    let head = if data.len() > 8 { 8 } else { data.len() };
    let ghost d = data@;
    let ghost h = if d.len() > 8 { d.take(8) } else { d };
    proof {
        assert(h.len() == head);
        assert(d.take(0) =~= Seq::<u8>::empty());
        assert(out@ =~= "(binary: "@ + hex_list(d.take(0)));
    }
    let mut i: usize = 0;
    while i < head
        invariant
            i <= head,
            head <= data@.len(),
            d == data@,
            h.len() == head,
            h =~= d.take(head as int),
            out@ == "(binary: "@ + hex_list(d.take(i as int)),
        decreases head - i,
    {
        let ghost before = out@;
        if i > 0 {
            push_char(&mut out, ' ');
        }
        push_hex2(&mut out, data[i]);
        proof {
            let t = d.take(i + 1);
            assert(t.drop_last() =~= d.take(i as int));
            assert(t.last() == d[i as int]);
            if i == 0 {
                assert(hex_list(t) == hex2_chars(d[0]));
                assert(out@ =~= "(binary: "@ + hex_list(t));
            } else {
                assert(out@ =~= "(binary: "@ + hex_list(t));
            }
        }
        i = i + 1;
    }
    proof {
        assert(d.take(head as int) =~= h);
    }
    if data.len() > 8 {
        push_char(&mut out, ' ');
        push_char(&mut out, '…');
    }
    push_char(&mut out, ')');
    proof {
        assert(out@ =~= binary_sketch(d));
    }
    out
}

/// One-line, control-safe preview of clipboard bytes, at most `max_chars`
/// characters. Binary content gets a hex sketch instead of raw bytes.
pub fn preview(data: &[u8], max_chars: usize) -> (out: String)
    ensures
        out@ == preview_spec(data@, max_chars as nat),
{
    match utf8_str(data) {
        Some(text) => preview_text(text, max_chars),
        None => binary_preview(data),
    }
}

/// Whether no character of `t` is a control character.
pub open spec fn control_free(t: Seq<char>) -> bool {
    forall|i: int| 0 <= i < t.len() ==> !is_control(#[trigger] t[i])
}

proof fn lemma_shown_control_free(s: Seq<char>)
    ensures
        control_free(shown_all(s)),
{
    assert forall|i: int| 0 <= i < shown_all(s).len() implies !is_control(#[trigger] shown_all(s)[i]) by {
        assert(shown_all(s)[i] == shown(s[i]));
    }
}

/// Joining two control-free texts gives a control-free text.
pub proof fn lemma_control_free_concat(a: Seq<char>, b: Seq<char>)
    requires
        control_free(a),
        control_free(b),
    ensures
        control_free(a + b),
{
    assert forall|i: int| 0 <= i < (a + b).len() implies !is_control(#[trigger] (a + b)[i]) by {
        if i < a.len() {
            assert((a + b)[i] == a[i]);
        } else {
            assert((a + b)[i] == b[i - a.len()]);
        }
    }
}

proof fn lemma_hex_list_control_free(d: Seq<u8>)
    ensures
        control_free(hex_list(d)),
    decreases d.len(),
{
    if d.len() == 1 {
        assert(control_free(hex2_chars(d[0])));
    } else if d.len() > 1 {
        lemma_hex_list_control_free(d.drop_last());
        assert(control_free(hex2_chars(d.last())));
        lemma_control_free_concat(hex_list(d.drop_last()), seq![' ']);
        lemma_control_free_concat(hex_list(d.drop_last()) + seq![' '], hex2_chars(d.last()));
    }
}

/// Decimal digits hold no control character.
pub proof fn lemma_dec_control_free(n: nat)
    ensures
        control_free(dec_chars(n)),
    decreases n,
{
    if n >= 10 {
        lemma_dec_control_free(n / 10);
        assert(dec_chars(n) =~= dec_chars(n / 10) + seq![digit_char(n % 10)]);
        lemma_control_free_concat(dec_chars(n / 10), seq![digit_char(n % 10)]);
    }
}

/// Ages and sizes as shown hold no control character.
pub proof fn lemma_age_size_control_free(now_ms: u64, at_ms: u64, n: u64)
    ensures
        control_free(age_text(now_ms, at_ms)),
        control_free(size_text(n)),
{
    let secs: nat = (if now_ms >= at_ms { now_ms - at_ms } else { 0int }) as nat / 1000;
    reveal_strlit("now");
    lemma_dec_control_free(secs);
    lemma_dec_control_free(secs / 60);
    lemma_dec_control_free(secs / 3600);
    lemma_dec_control_free(secs / 86_400);
    lemma_control_free_concat(dec_chars(secs), seq!['s']);
    lemma_control_free_concat(dec_chars(secs / 60), seq!['m']);
    lemma_control_free_concat(dec_chars(secs / 3600), seq!['h']);
    lemma_control_free_concat(dec_chars(secs / 86_400), seq!['d']);
    lemma_dec_control_free(n as nat);
    lemma_control_free_concat(dec_chars(n as nat), seq![' ', 'B']);
    if n >= 1024 {
        let m = f64_value(n as nat);
        let tenths = div_round_even(m * 10, size_scale(m));
        lemma_dec_control_free(tenths / 10);
        assert(control_free(seq!['.', digit_char(tenths % 10), ' ']));
        lemma_control_free_concat(dec_chars(tenths / 10), seq!['.', digit_char(tenths % 10), ' ']);
        lemma_control_free_concat(dec_chars(tenths / 10) + seq!['.', digit_char(tenths % 10), ' '], size_unit(m));
    }
}

/// Previews are safe to print: no control character of the content (ESC
/// included) reaches the terminal, whatever the bytes are; and a text
/// preview shows at most `max` characters, then at most the `…` mark.
pub proof fn lemma_preview_safe(data: Seq<u8>, max: nat)
    ensures
        control_free(preview_spec(data, max)),
        valid_utf8(data) ==> preview_spec(data, max).len() <= max + 1,
{
    if valid_utf8(data) {
        let t = decode_utf8(data);
        let j = first_break(t);
        lemma_first_break_len(t);
        let shown_part = if max < j {
            t.take(max as int)
        } else if j == t.len() {
            t
        } else {
            t.take(j as int)
        };
        lemma_shown_control_free(shown_part);
        lemma_control_free_concat(shown_all(shown_part), seq!['…']);
    } else {
        let head = if data.len() > 8 { data.take(8) } else { data };
        lemma_hex_list_control_free(head);
        reveal_strlit("(binary: ");
        let tail = if data.len() > 8 { seq![' ', '…'] } else { seq![] };
        lemma_control_free_concat("(binary: "@, hex_list(head));
        lemma_control_free_concat("(binary: "@ + hex_list(head), tail);
        lemma_control_free_concat("(binary: "@ + hex_list(head) + tail, seq![')']);
    }
}

// ------------------------------------------------------------ ages

/// Compact age: `now` (< 2 s), then `45s`, `12m`, `5h`, `9d`; an entry
/// from the future is `now`.
pub open spec fn age_text(now_ms: u64, at_ms: u64) -> Seq<char> {
    let secs: nat = (if now_ms >= at_ms { now_ms - at_ms } else { 0int }) as nat / 1000;
    if secs <= 1 {
        "now"@
    } else if secs <= 59 {
        dec_chars(secs) + seq!['s']
    } else if secs <= 3599 {
        dec_chars(secs / 60) + seq!['m']
    } else if secs <= 86_399 {
        dec_chars(secs / 3600) + seq!['h']
    } else {
        dec_chars(secs / 86_400) + seq!['d']
    }
}

/// Compact age: `now` (< 2 s), then `45s`, `12m`, `5h`, `9d`.
pub fn human_age(now_ms: u64, at_ms: u64) -> (s: String)
    ensures
        s@ == age_text(now_ms, at_ms),
{
    let secs = now_ms.saturating_sub(at_ms) / 1000;
    if secs <= 1 {
        return "now".to_owned();
    }
    let mut s = String::new();
    if secs <= 59 {
        push_dec(&mut s, secs);
        push_char(&mut s, 's');
    } else if secs <= 3599 {
        push_dec(&mut s, secs / 60);
        push_char(&mut s, 'm');
    } else if secs <= 86_399 {
        push_dec(&mut s, secs / 3600);
        push_char(&mut s, 'h');
    } else {
        push_dec(&mut s, secs / 86_400);
        push_char(&mut s, 'd');
    }
    s
}

// ------------------------------------------------------------ sizes

/// `q` halved (rounding down) until it fits a 53-bit significand, with `p`
/// doubled as often: the significand and the power of two it counts in.
pub open spec fn significand(q: nat, p: nat) -> (nat, nat)
    decreases q,
{
    if q < 0x20_0000_0000_0000 {
        (q, p)
    } else {
        significand(q / 2, p * 2)
    }
}

/// The value of `n as f64`: `n` rounded to 53 significant bits, to nearest
/// with ties to even (exactly `n` below 2^53).
pub open spec fn f64_value(n: nat) -> nat {
    let (q, p) = significand(n, 1);
    let r = n - q * p;
    if 2 * r > p || (2 * r == p && q % 2 == 1) {
        (q + 1) * p
    } else {
        q * p
    }
}

/// `a / b` rounded to the nearest integer, ties to even.
pub open spec fn div_round_even(a: nat, b: nat) -> nat {
    let f = a / b;
    let r = a % b;
    if 2 * r > b || (2 * r == b && f % 2 == 1) {
        f + 1
    } else {
        f
    }
}

/// The power of 1024 a count of `m` bytes is shown in: KB below 1 MiB,
/// MB below 1 GiB, GB from there on.
pub open spec fn size_scale(m: nat) -> nat {
    if m < 0x10_0000 {
        1024
    } else if m < 0x4000_0000 {
        0x10_0000
    } else {
        0x4000_0000
    }
}

/// The unit that goes with `size_scale(m)`.
pub open spec fn size_unit(m: nat) -> Seq<char> {
    if m < 0x10_0000 {
        seq!['K', 'B']
    } else if m < 0x4000_0000 {
        seq!['M', 'B']
    } else {
        seq!['G', 'B']
    }
}

/// Human-readable byte count: `0 B`, `914 B`, `1.2 KB`, `3.4 MB`, `1.0 GB`.
/// From 1024 bytes on, the count (as an `f64`) is divided by 1024 until it
/// is below 1024 or in gigabytes, and shown with one decimal, rounded to
/// nearest with ties to even.
pub open spec fn size_text(n: u64) -> Seq<char> {
    if n < 1024 {
        dec_chars(n as nat) + seq![' ', 'B']
    } else {
        let m = f64_value(n as nat);
        let tenths = div_round_even(m * 10, size_scale(m));
        dec_chars(tenths / 10) + seq!['.', digit_char(tenths % 10), ' '] + size_unit(m)
    }
}

proof fn lemma_halve(q: nat, p: nat)
    ensures
        (q / 2) * (p * 2) <= q * p,
{
    assert((q / 2) * (p * 2) == (q / 2 * 2) * p) by (nonlinear_arith);
    assert(q / 2 * 2 <= q);
    assert((q / 2 * 2) * p <= q * p) by (nonlinear_arith)
        requires
            q / 2 * 2 <= q,
    ;
}

/// `n as f64`, exactly, as an integer.
fn f64_of(n: u64) -> (m: u128)
    ensures
        m == f64_value(n as nat),
        m <= 0x20_0000_0000_0000 * 4096,
{
    let mut q: u64 = n;
    let mut p: u64 = 1;
    while q >= 0x20_0000_0000_0000
        invariant
            significand(q as nat, p as nat) == significand(n as nat, 1),
            1 <= p < 4096,
            q * p <= n,
        decreases q,
    {
        proof {
            lemma_halve(q as nat, p as nat);
            assert(q * p >= 0x20_0000_0000_0000 * p) by (nonlinear_arith)
                requires
                    q >= 0x20_0000_0000_0000,
            ;
        }
        q = q / 2;
        p = p * 2;
    }
    let r: u64 = n - q * p;
    let up = 2 * (r as u128) > p as u128 || (2 * (r as u128) == p as u128 && q % 2 == 1);
    proof {
        assert((q as u128 + 1) * (p as u128) <= 0x20_0000_0000_0000 * 4096) by (nonlinear_arith)
            requires
                q < 0x20_0000_0000_0000,
                p < 4096,
        ;
        assert((q as u128) * (p as u128) <= (q as u128 + 1) * (p as u128)) by (nonlinear_arith);
    }
    if up {
        (q as u128 + 1) * p as u128
    } else {
        q as u128 * p as u128
    }
}

/// Tenths of `m / size_scale(m)`, rounded to nearest with ties to even.
fn size_tenths(m: u128) -> (t: u128)
    requires
        m <= 0x20_0000_0000_0000 * 4096,
    ensures
        t == div_round_even((m * 10) as nat, size_scale(m as nat)),
        t / 10 <= u64::MAX,
{
    let scale: u128 = if m < 0x10_0000 {
        1024
    } else if m < 0x4000_0000 {
        0x10_0000
    } else {
        0x4000_0000
    };
    let a: u128 = m * 10;
    let f = a / scale;
    let rem = a % scale;
    proof {
        assert(f <= a / 1024) by (nonlinear_arith)
            requires
                scale >= 1024,
                f == a / scale,
        ;
    }
    if 2 * rem > scale || (2 * rem == scale && f % 2 == 1) {
        f + 1
    } else {
        f
    }
}

/// Human-readable byte count: `0 B`, `914 B`, `1.2 KB`, `3.4 MB`, `1.0 GB`.
pub fn human_size(n: u64) -> (s: String)
    ensures
        s@ == size_text(n),
{
    let mut s = String::new();
    if n < 1024 {
        push_dec(&mut s, n);
        push_char(&mut s, ' ');
        push_char(&mut s, 'B');
        return s;
    }
    let m = f64_of(n);
    let tenths = size_tenths(m);
    let whole = (tenths / 10) as u64;
    let digit = (tenths % 10) as u8;
    push_dec(&mut s, whole);
    push_char(&mut s, '.');
    push_char(&mut s, (48u8 + digit) as char);
    push_char(&mut s, ' ');
    if m < 0x10_0000 {
        push_char(&mut s, 'K');
    } else if m < 0x4000_0000 {
        push_char(&mut s, 'M');
    } else {
        push_char(&mut s, 'G');
    }
    push_char(&mut s, 'B');
    proof {
        assert(s@ =~= size_text(n));
    }
    s
}

} // verus!
