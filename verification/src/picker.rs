//! The interactive picker's pure parts: row rendering and choice parsing.
//!
//! `clipring pick` prints a numbered menu (to stderr, so stdout stays clean
//! for `--print` piping) and reads one line. Everything that can be unit
//! tested — how a row renders, what counts as a valid choice — lives here;
//! the program around the library only does the I/O.

use vstd::prelude::*;
use crate::numtext::{dec_chars, parse_usize, push_dec, usize_text};
use crate::ring::{Entry, EntryView, Ring};
use crate::text::push_char;
use crate::textutil::{
    age_text, human_age, human_size, preview, preview_spec, size_text, control_free,
    lemma_control_free_concat, lemma_dec_control_free, lemma_age_size_control_free,
    lemma_preview_safe,
};
use crate::whitespace::{trim, trim_spec};

verus! {

/// Width budget for the preview column in menu and list rows.
pub const PREVIEW_CHARS: usize = 56;

/// `s` right-aligned in a field of `w` characters (never cut).
pub open spec fn pad_left(s: Seq<char>, w: nat) -> Seq<char> {
    if s.len() < w {
        Seq::new((w - s.len()) as nat, |i: int| ' ') + s
    } else {
        s
    }
}

/// One history row: pin marker, index, age, size and preview, as
/// `"{} {:>3}  {:>4}  {:>8}  {}"` lays them out.
pub open spec fn row_text(index: nat, e: EntryView, now_ms: u64) -> Seq<char> {
    seq![if e.pinned { '*' } else { ' ' }, ' '] + pad_left(dec_chars(index), 3) + seq![' ', ' ']
        + pad_left(age_text(now_ms, e.at_ms), 4) + seq![' ', ' '] + pad_left(
        size_text(e.data.len() as u64),
        8,
    ) + seq![' ', ' '] + preview_spec(e.data, PREVIEW_CHARS as nat)
}

/// Append `s` to `out`, right-aligned in a field of `w` characters.
fn push_padded(out: &mut String, s: &str, w: usize)
    ensures
        final(out)@ == old(out)@ + pad_left(s@, w as nat),
{
    let n = s.unicode_len();
    let ghost start = out@;
    if n < w {
        let mut i: usize = 0;
        while i < w - n
            invariant
                n < w,
                i <= w - n,
                out@ == start + Seq::new(i as nat, |j: int| ' '),
            decreases w - n - i,
        {
            push_char(out, ' ');
            proof {
                assert(Seq::new(i as nat, |j: int| ' ').push(' ') =~= Seq::new((i + 1) as nat, |j: int| ' '));
            }
            i = i + 1;
        }
    }
    out.append(s);
    proof {
        assert(out@ =~= start + pad_left(s@, w as nat));
    }
}

/// Render one history row: `[pin] index  age  size  preview`.
pub fn format_row(index: usize, entry: &Entry, now_ms: u64) -> (row: String)
    ensures
        row@ == row_text(index as nat, entry@, now_ms),
{
    let mut out = String::new();
    push_char(&mut out, if entry.pinned { '*' } else { ' ' });
    push_char(&mut out, ' ');
    let mut idx = String::new();
    push_dec(&mut idx, index as u64);
    push_padded(&mut out, idx.as_str(), 3);
    push_char(&mut out, ' ');
    push_char(&mut out, ' ');
    let age = human_age(now_ms, entry.at_ms);
    push_padded(&mut out, age.as_str(), 4);
    push_char(&mut out, ' ');
    push_char(&mut out, ' ');
    let size = human_size(entry.data.len() as u64);
    push_padded(&mut out, size.as_str(), 8);
    push_char(&mut out, ' ');
    push_char(&mut out, ' ');
    let p = preview(entry.data.as_slice(), PREVIEW_CHARS);
    out.append(p.as_str());
    proof {
        assert(out@ =~= row_text(index as nat, entry@, now_ms));
    }
    out
}

/// Render the full menu for `pick`, newest first.
pub fn menu_lines(ring: &Ring, now_ms: u64) -> (lines: Vec<String>)
    ensures
        lines@.len() == ring@.len(),
        forall|i: int| 0 <= i < lines@.len() ==> #[trigger] lines@[i]@ == row_text(i as nat, ring@[i], now_ms),
{
    let mut lines: Vec<String> = Vec::new();
    let n = ring.len();
    let mut i: usize = 0;
    while i < n
        invariant
            i <= n,
            n == ring@.len(),
            lines@.len() == i,
            forall|j: int| 0 <= j < i ==> #[trigger] lines@[j]@ == row_text(j as nat, ring@[j], now_ms),
        decreases n - i,
    {
        let e = ring.get(i).unwrap();
        let row = format_row(i, e, now_ms);
        lines.push(row);
        i = i + 1;
    }
    lines
}

/// Whether a trimmed answer cancels the pick: empty, `q` or `Q`.
pub open spec fn cancels(t: Seq<char>) -> bool {
    t.len() == 0 || t == seq!['q'] || t == seq!['Q']
}

/// What the user's answer selects: `Ok(None)` to cancel, `Ok(Some(i))` for
/// an index in range, and an error with guidance otherwise.
pub open spec fn choice_spec(input: Seq<char>, len: nat) -> Result<Option<usize>, Seq<char>> {
    let t = trim_spec(input);
    if cancels(t) {
        Ok(None)
    } else {
        match usize_text(t) {
            None => Err(
                "'"@ + t + "' is not an index (enter 0-"@ + dec_chars((len - 1) as nat) + ", or q)"@,
            ),
            Some(i) => if i >= len {
                Err("index "@ + dec_chars(i as nat) + " out of range (0-"@ + dec_chars((len - 1) as nat)
                    + ")"@)
            } else {
                Ok(Some(i))
            },
        }
    }
}

/// Parse the user's selection. Empty input or `q` cancels (`Ok(None)`);
/// a number in range selects; anything else is an error with guidance.
pub fn parse_choice(input: &str, len: usize) -> (r: Result<Option<usize>, String>)
    requires
        len > 0 || cancels(trim_spec(input@)),
    ensures
        match choice_spec(input@, len as nat) {
            Ok(o) => r == Ok::<Option<usize>, String>(o),
            Err(m) => r matches Err(e) && e@ == m,
        },
{
    let trimmed = trim(input);
    let t = trimmed.as_str();
    let n = t.unicode_len();
    if n == 0 {
        return Ok(None);
    }
    if n == 1 {
        let c = t.get_char(0);
        if c == 'q' || c == 'Q' {
            proof {
                assert(t@ =~= seq![c]);
            }
            return Ok(None);
        }
    }
    proof {
        assert(!cancels(t@)) by {
            if t@ == seq!['q'] || t@ == seq!['Q'] {
                assert(t@[0] == t@[0]);
            }
        }
    }
    match parse_usize(t) {
        None => {
            let mut msg = "'".to_owned();
            msg.append(t);
            msg.append("' is not an index (enter 0-");
            push_dec(&mut msg, (len - 1) as u64);
            msg.append(", or q)");
            Err(msg)
        },
        Some(index) => {
            if index >= len {
                let mut msg = "index ".to_owned();
                push_dec(&mut msg, index as u64);
                msg.append(" out of range (0-");
                push_dec(&mut msg, (len - 1) as u64);
                msg.append(")");
                Err(msg)
            } else {
                Ok(Some(index))
            }
        },
    }
}

/// A pick never selects outside the menu: an answer that selects gives an
/// index below the number of entries.
pub proof fn lemma_choice_in_range(input: Seq<char>, len: nat)
    ensures
        choice_spec(input, len) matches Ok(Some(i)) ==> i < len,
{
}

proof fn lemma_pad_control_free(s: Seq<char>, w: nat)
    requires
        control_free(s),
    ensures
        control_free(pad_left(s, w)),
{
    if s.len() < w {
        let sp = Seq::new((w - s.len()) as nat, |i: int| ' ');
        assert(control_free(sp));
        lemma_control_free_concat(sp, s);
    }
}

/// Menu and list rows are safe to print: whatever an entry holds, no
/// control character of it reaches the terminal through its row.
pub proof fn lemma_row_safe(index: nat, e: EntryView, now_ms: u64)
    ensures
        control_free(row_text(index, e, now_ms)),
{
    lemma_dec_control_free(index);
    lemma_age_size_control_free(now_ms, e.at_ms, e.data.len() as u64);
    lemma_preview_safe(e.data, PREVIEW_CHARS as nat);
    let a = pad_left(dec_chars(index), 3);
    let b = pad_left(age_text(now_ms, e.at_ms), 4);
    let c = pad_left(size_text(e.data.len() as u64), 8);
    lemma_pad_control_free(dec_chars(index), 3);
    lemma_pad_control_free(age_text(now_ms, e.at_ms), 4);
    lemma_pad_control_free(size_text(e.data.len() as u64), 8);
    let sp = seq![' ', ' '];
    let head = seq![if e.pinned { '*' } else { ' ' }, ' '];
    assert(control_free(sp));
    assert(control_free(head));
    lemma_control_free_concat(head, a);
    lemma_control_free_concat(head + a, sp);
    lemma_control_free_concat(head + a + sp, b);
    lemma_control_free_concat(head + a + sp + b, sp);
    lemma_control_free_concat(head + a + sp + b + sp, c);
    lemma_control_free_concat(head + a + sp + b + sp + c, sp);
    lemma_control_free_concat(head + a + sp + b + sp + c + sp, preview_spec(e.data, PREVIEW_CHARS as nat));
}

} // verus!
