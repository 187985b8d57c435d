//! OSC 52 sequence construction, multiplexer wrapping, and extraction.
//!
//! OSC 52 is the escape sequence that asks the *terminal emulator* — not the
//! machine the shell runs on — to set a selection. Because the sequence rides
//! the terminal byte stream, it works unchanged across SSH hops. The catch is
//! multiplexers: tmux and GNU screen consume unknown escapes unless the
//! sequence is wrapped in their respective passthrough envelopes. This module
//! owns both directions: building wrapped sequences, and extracting/decoding
//! OSC 52 payloads back out of a raw byte stream (unwrapping as needed).

use vstd::prelude::*;
use vstd::string::StringSliceAdditionalSpecFns;
use vstd::utf8::{decode_utf8, decode_utf8_encode_utf8, encode_utf8_decode_utf8, encode_utf8_valid_utf8, encode_utf8, is_ascii_chars, is_ascii_chars_encode_utf8, valid_utf8};
use vstd::slice::slice_subrange;
use crate::text::{lossy_text, opt_chars, utf8_lossy, utf8_str};
use crate::base64::{self, ascii_bytes, encode_chars, encoded_len};

verus! {

/// Which terminal selection the sequence targets.
#[derive(Debug, Clone, Copy, PartialEq, Eq, Structural)]
pub enum Selection {
    /// The system clipboard (`c`) — what Ctrl-V pastes.
    Clipboard,
    /// The X11 primary selection (`p`) — what middle-click pastes.
    Primary,
}

/// The selection parameter as text.
pub open spec fn param_chars(sel: Selection) -> Seq<char> {
    match sel {
        Selection::Clipboard => seq!['c'],
        Selection::Primary => seq!['p'],
    }
}

/// The selection parameter as its single ASCII byte.
pub open spec fn param_byte(sel: Selection) -> u8 {
    match sel {
        Selection::Clipboard => 99u8,
        Selection::Primary => 112u8,
    }
}

impl Selection {
    /// The OSC 52 selection parameter: `c` or `p`.
    pub fn param(self) -> (r: &'static str)
        ensures
            r@ == param_chars(self),
    {
        proof {
            reveal_strlit("c");
            reveal_strlit("p");
        }
        match self {
            Selection::Clipboard => "c",
            Selection::Primary => "p",
        }
    }
}

/// Passthrough envelope required for the sequence to reach the terminal.
#[derive(Debug, Clone, Copy, PartialEq, Eq, Structural)]
pub enum Wrap {
    /// No multiplexer in the way; emit the bare OSC 52 sequence.
    Bare,
    /// tmux DCS passthrough (`ESC Ptmux;` … `ESC \`, inner ESCs doubled).
    /// Requires `set -g allow-passthrough on` in tmux ≥ 3.3.
    Tmux,
    /// GNU screen: the sequence is split into ≤ 768-byte DCS chunks, because
    /// screen truncates long device control strings.
    Screen,
}

/// The name of a wrap mode, as accepted by `--wrap`.
pub open spec fn wrap_name(w: Wrap) -> Seq<char> {
    match w {
        Wrap::Bare => "none"@,
        Wrap::Tmux => "tmux"@,
        Wrap::Screen => "screen"@,
    }
}

impl Wrap {
    /// `none`, `tmux` or `screen`.
    pub fn name(self) -> (r: &'static str)
        ensures
            r@ == wrap_name(self),
    {
        match self {
            Wrap::Bare => "none",
            Wrap::Tmux => "tmux",
            Wrap::Screen => "screen",
        }
    }
}

/// The wrap that the environment calls for: a non-empty `$TMUX` wins, then a
/// `$TERM` beginning with `screen`.
pub open spec fn detected_wrap(tmux: Option<Seq<char>>, term: Option<Seq<char>>) -> Wrap {
    if tmux matches Some(t) && t.len() > 0 {
        Wrap::Tmux
    } else if term matches Some(t) && t.len() >= 6 && t.subrange(0, 6) == "screen"@ {
        Wrap::Screen
    } else {
        Wrap::Bare
    }
}

fn starts_with_screen(s: &str) -> (b: bool)
    ensures
        b == (s@.len() >= 6 && s@.subrange(0, 6) == "screen"@),
{
    let w = "screen";
    proof {
        reveal_strlit("screen");
    }
    if s.unicode_len() < 6 {
        return false;
    }
    let mut i: usize = 0;
    while i < 6
        invariant
            i <= 6,
            s@.len() >= 6,
            w@ == "screen"@,
            w@.len() == 6,
            forall|j: int| 0 <= j < i ==> s@[j] == w@[j],
        decreases 6 - i,
    {
        if s.get_char(i) != w.get_char(i) {
            proof {
                assert(s@.subrange(0, 6)[i as int] != w@[i as int]);
            }
            return false;
        }
        i = i + 1;
    }
    proof {
        assert(s@.subrange(0, 6) =~= w@);
    }
    true
}

/// Decide the wrap from the environment: an active `$TMUX` wins, then a
/// `$TERM` beginning with `screen` (tmux also uses screen-* TERMs, which is
/// why `$TMUX` is checked first).
pub fn detect_wrap(tmux: Option<&str>, term: Option<&str>) -> (w: Wrap)
    ensures
        w == detected_wrap(opt_chars(tmux), opt_chars(term)),
{
    if let Some(v) = tmux {
        if !v.is_empty() {
            return Wrap::Tmux;
        }
    }
    if let Some(v) = term {
        if starts_with_screen(v) {
            return Wrap::Screen;
        }
    }
    Wrap::Bare
}

// ------------------------------------------------------------ construction

/// `ESC ] 5 2 ;`, the start of every OSC 52 sequence.
pub open spec fn osc52_intro() -> Seq<u8> {
    seq![27u8, 93u8, 53u8, 50u8, 59u8]
}

/// The string terminator `ESC \`.
pub open spec fn st() -> Seq<u8> {
    seq![27u8, 92u8]
}

/// `ESC P t m u x ;`, the tmux passthrough opener.
pub open spec fn tmux_opener() -> Seq<u8> {
    seq![27u8, 80u8, 116u8, 109u8, 117u8, 120u8, 59u8]
}

/// `t m u x ;`.
pub open spec fn tmux_word() -> Seq<u8> {
    seq![116u8, 109u8, 117u8, 120u8, 59u8]
}

/// The bare sequence `ESC ] 52 ; <param> ; <base64> BEL`.
pub open spec fn bare_spec(sel: Selection, data: Seq<u8>) -> Seq<u8> {
    osc52_intro() + seq![param_byte(sel), 59u8] + ascii_bytes(encode_chars(data)) + seq![7u8]
}

/// One byte as it appears inside a tmux envelope: ESC doubled, others kept.
pub open spec fn esc_doubled(b: u8) -> Seq<u8> {
    if b == 27 {
        seq![27u8, 27u8]
    } else {
        seq![b]
    }
}

/// `s` with every ESC doubled.
pub open spec fn double_esc(s: Seq<u8>) -> Seq<u8>
    decreases s.len(),
{
    if s.len() == 0 {
        seq![]
    } else {
        esc_doubled(s[0]) + double_esc(s.skip(1))
    }
}

/// tmux passthrough envelope around `s`.
pub open spec fn tmux_spec(s: Seq<u8>) -> Seq<u8> {
    tmux_opener() + double_esc(s) + st()
}

/// One DCS envelope `ESC P <c> ESC \`.
pub open spec fn dcs(c: Seq<u8>) -> Seq<u8> {
    seq![27u8, 80u8] + c + st()
}

/// screen passthrough: `s` cut into chunks of at most 768 bytes, each in its
/// own DCS envelope.
pub open spec fn screen_spec(s: Seq<u8>) -> Seq<u8>
    decreases s.len(),
{
    if s.len() == 0 {
        seq![]
    } else if s.len() <= 768 {
        dcs(s)
    } else {
        dcs(s.take(768)) + screen_spec(s.skip(768))
    }
}

/// The sequence that copies `data` to `sel`, wrapped as `wrap` says.
pub open spec fn sequence_spec(sel: Selection, data: Seq<u8>, wrap: Wrap) -> Seq<u8> {
    match wrap {
        Wrap::Bare => bare_spec(sel, data),
        Wrap::Tmux => tmux_spec(bare_spec(sel, data)),
        Wrap::Screen => screen_spec(bare_spec(sel, data)),
    }
}

/// Build the (possibly wrapped) OSC 52 sequence that copies `data`.
pub fn sequence(selection: Selection, data: &[u8], wrap: Wrap) -> (r: Vec<u8>)
    ensures
        r@ == sequence_spec(selection, data@, wrap),
{
    let b64 = base64::encode(data);
    let bare = bare_sequence(selection, b64.as_str());
    proof {
        base64::lemma_encode_ascii(data@);
        is_ascii_chars_encode_utf8(encode_chars(data@));
        assert(encode_utf8(encode_chars(data@)) =~= ascii_bytes(encode_chars(data@)));
    }
    match wrap {
        Wrap::Bare => bare,
        Wrap::Tmux => wrap_tmux(bare.as_slice()),
        Wrap::Screen => wrap_screen(bare.as_slice()),
    }
}

/// Length in bytes of the base64 payload `data` would produce — the number
/// terminals apply their OSC 52 size caps to.
pub fn payload_len(data: &[u8]) -> (n: usize)
    requires
        encoded_len(data@.len()) <= usize::MAX,
    ensures
        n == encoded_len(data@.len()),
{
    let len = data.len();
    let q = len / 3;
    let r = len % 3;
    if r == 0 {
        q * 4
    } else {
        q * 4 + 4
    }
}

fn bare_sequence(selection: Selection, b64: &str) -> (seq: Vec<u8>)
    ensures
        seq@ == osc52_intro() + seq![param_byte(selection), 59u8] + b64.spec_bytes() + seq![7u8],
{
    let mut seq: Vec<u8> = Vec::new();
    seq.push(27);
    seq.push(93);
    seq.push(53);
    seq.push(50);
    seq.push(59);
    match selection {
        Selection::Clipboard => seq.push(99),
        Selection::Primary => seq.push(112),
    }
    seq.push(59);
    let bytes = b64.as_bytes();
    let ghost head = seq@;
    let mut i: usize = 0;
    while i < bytes.len()
        invariant
            i <= bytes@.len(),
            seq@ == head + bytes@.take(i as int),
        decreases bytes@.len() - i,
    {
        seq.push(bytes[i]);
        proof {
            assert(bytes@.take(i + 1) =~= bytes@.take(i as int).push(bytes@[i as int]));
        }
        i = i + 1;
    }
    seq.push(7);
    proof {
        assert(bytes@.take(bytes@.len() as int) =~= bytes@);
        assert(seq@ =~= osc52_intro() + seq![param_byte(selection), 59u8] + b64.spec_bytes() + seq![7u8]);
    }
    seq
}

proof fn lemma_double_esc_concat(a: Seq<u8>, b: Seq<u8>)
    ensures
        double_esc(a + b) == double_esc(a) + double_esc(b),
    decreases a.len(),
{
    if a.len() == 0 {
        assert(a + b =~= b);
        assert(double_esc(a) =~= Seq::<u8>::empty());
        assert(double_esc(a) + double_esc(b) =~= double_esc(b));
    } else {
        assert((a + b).skip(1) =~= a.skip(1) + b);
        lemma_double_esc_concat(a.skip(1), b);
        assert(double_esc(a + b) =~= double_esc(a) + double_esc(b));
    }
}

/// tmux passthrough: `ESC Ptmux;` + sequence with every ESC doubled + `ESC \`.
fn wrap_tmux(seq: &[u8]) -> (out: Vec<u8>)
    ensures
        out@ == tmux_spec(seq@),
{
    let mut out: Vec<u8> = Vec::new();
    out.push(27);
    out.push(80);
    out.push(116);
    out.push(109);
    out.push(117);
    out.push(120);
    out.push(59);
    let mut i: usize = 0;
    while i < seq.len()
        invariant
            i <= seq@.len(),
            out@ == tmux_opener() + double_esc(seq@.take(i as int)),
        decreases seq@.len() - i,
    {
        let b = seq[i];
        if b == 27 {
            out.push(27);
        }
        out.push(b);
        proof {
            let x = seq![b];
            assert(seq@.take(i + 1) =~= seq@.take(i as int) + x);
            lemma_double_esc_concat(seq@.take(i as int), x);
            assert(x.skip(1) =~= Seq::<u8>::empty());
            assert(double_esc(x.skip(1)) =~= Seq::<u8>::empty());
            assert(x[0] == b);
            assert(double_esc(x) =~= esc_doubled(b));
            assert(out@ =~= tmux_opener() + double_esc(seq@.take(i + 1)));
        }
        i = i + 1;
    }
    out.push(27);
    out.push(92);
    proof {
        assert(seq@.take(seq@.len() as int) =~= seq@);
        assert(out@ =~= tmux_spec(seq@));
    }
    out
}

/// screen passthrough: the sequence is cut into chunks of at most 768 bytes,
/// each wrapped in its own DCS (`ESC P` … `ESC \`). screen forwards DCS
/// content verbatim but drops overlong ones, hence the chunking.
fn wrap_screen(seq: &[u8]) -> (out: Vec<u8>)
    ensures
        out@ == screen_spec(seq@),
{
    let n = seq.len();
    let mut out: Vec<u8> = Vec::new();
    let mut i: usize = 0;
    proof {
        assert(seq@.skip(0) =~= seq@);
    }
    while i < n
        invariant
            i <= n,
            n == seq@.len(),
            screen_spec(seq@) == out@ + screen_spec(seq@.skip(i as int)),
        decreases n - i,
    {
        let end = if n - i <= 768 { n } else { i + 768 };
        let ghost rest = seq@.skip(i as int);
        let ghost before = out@;
        out.push(27);
        out.push(80);
        let mut j: usize = i;
        while j < end
            invariant
                i <= j <= end,
                end <= n,
                n == seq@.len(),
                out@ == before + seq![27u8, 80u8] + seq@.subrange(i as int, j as int),
            decreases end - j,
        {
            out.push(seq[j]);
            proof {
                assert(seq@.subrange(i as int, j + 1) =~= seq@.subrange(i as int, j as int).push(seq@[j as int]));
            }
            j = j + 1;
        }
        out.push(27);
        out.push(92);
        proof {
            let chunk = seq@.subrange(i as int, end as int);
            assert(out@ =~= before + dcs(chunk));
            if n - i <= 768 {
                assert(rest =~= chunk);
                assert(seq@.skip(end as int) =~= Seq::<u8>::empty());
                assert(screen_spec(seq@.skip(end as int)) =~= Seq::<u8>::empty());
            } else {
                assert(rest.take(768) =~= chunk);
                assert(rest.skip(768) =~= seq@.skip(end as int));
            }
            assert(screen_spec(seq@) =~= out@ + screen_spec(seq@.skip(end as int)));
        }
        i = end;
    }
    proof {
        assert(seq@.skip(n as int) =~= Seq::<u8>::empty());
        assert(screen_spec(seq@.skip(n as int)) =~= Seq::<u8>::empty());
        assert(out@ =~= screen_spec(seq@));
    }
    out
}

// -------------------------------------------------------------- extraction

/// One OSC 52 set found in a byte stream.
#[derive(Debug, PartialEq, Eq)]
pub struct Capture {
    /// The raw selection parameter (`c`, `p`, `cp`, or empty).
    pub selection: String,
    /// The decoded clipboard bytes.
    pub data: Vec<u8>,
}

impl View for Capture {
    type V = (Seq<char>, Seq<u8>);

    open spec fn view(&self) -> (Seq<char>, Seq<u8>) {
        (self.selection@, self.data@)
    }
}

/// A tmux passthrough body with ESC ESC un-doubled, copied up to ST (or the
/// end of input): the bytes copied and the number of input bytes consumed.
pub open spec fn tmux_body(s: Seq<u8>) -> (Seq<u8>, int)
    decreases s.len(),
{
    if s.len() == 0 {
        (seq![], 0)
    } else if s[0] == 27 && s.len() >= 2 && s[1] == 27 {
        let r = tmux_body(s.skip(2));
        (seq![27u8] + r.0, r.1 + 2)
    } else if s[0] == 27 && s.len() >= 2 && s[1] == 92 {
        (seq![], 2)
    } else {
        let r = tmux_body(s.skip(1));
        (seq![s[0]] + r.0, r.1 + 1)
    }
}

/// A screen DCS body, copied verbatim up to ST (or the end of input): the
/// bytes copied and the number of input bytes consumed.
pub open spec fn screen_body(s: Seq<u8>) -> (Seq<u8>, int)
    decreases s.len(),
{
    if s.len() == 0 {
        (seq![], 0)
    } else if s[0] == 27 && s.len() >= 2 && s[1] == 92 {
        (seq![], 2)
    } else {
        let r = screen_body(s.skip(1));
        (seq![s[0]] + r.0, r.1 + 1)
    }
}

/// The envelope body readers never consume more than they are given.
pub proof fn lemma_body_lens(s: Seq<u8>)
    ensures
        0 <= tmux_body(s).1 <= s.len(),
        0 <= screen_body(s).1 <= s.len(),
    decreases s.len(),
{
    if s.len() >= 1 {
        lemma_body_lens(s.skip(1));
    }
    if s.len() >= 2 {
        lemma_body_lens(s.skip(2));
    }
}

/// `s` with tmux and screen DCS envelopes removed; bytes outside any
/// envelope pass through unchanged.
pub open spec fn unwrap_spec(s: Seq<u8>) -> Seq<u8>
    decreases s.len(),
{
    if s.len() == 0 {
        seq![]
    } else if s[0] == 27 && s.len() >= 2 && s[1] == 80 {
        if s.len() >= 7 && s.subrange(2, 7) == tmux_word() {
            proof {
                lemma_body_lens(s.skip(7));
            }
            let r = tmux_body(s.skip(7));
            r.0 + unwrap_spec(s.skip(7 + r.1))
        } else {
            proof {
                lemma_body_lens(s.skip(2));
            }
            let r = screen_body(s.skip(2));
            r.0 + unwrap_spec(s.skip(2 + r.1))
        }
    } else {
        seq![s[0]] + unwrap_spec(s.skip(1))
    }
}

/// First position at which `n` occurs in `h`.
pub open spec fn find_spec(h: Seq<u8>, n: Seq<u8>) -> Option<int>
    decreases h.len(),
{
    if h.len() < n.len() {
        None
    } else if h.take(n.len() as int) == n {
        Some(0)
    } else if h.len() == 0 {
        None
    } else {
        match find_spec(h.skip(1), n) {
            Some(k) => Some(k + 1),
            None => None,
        }
    }
}

/// First position of byte `b` in `s`.
pub open spec fn index_of(s: Seq<u8>, b: u8) -> Option<int>
    decreases s.len(),
{
    if s.len() == 0 {
        None
    } else if s[0] == b {
        Some(0)
    } else {
        match index_of(s.skip(1), b) {
            Some(k) => Some(k + 1),
            None => None,
        }
    }
}

/// The first terminator (BEL or ST) in `s`: where it starts and its length.
pub open spec fn terminator(s: Seq<u8>) -> Option<(int, int)>
    decreases s.len(),
{
    if s.len() == 0 {
        None
    } else if s[0] == 7 {
        Some((0, 1))
    } else if s[0] == 27 && s.len() >= 2 && s[1] == 92 {
        Some((0, 2))
    } else {
        match terminator(s.skip(1)) {
            Some((j, t)) => Some((j + 1, t)),
            None => None,
        }
    }
}

/// An OSC 52 body `<sel>;<payload><terminator>` split into selection,
/// payload, and the number of bytes consumed.
pub open spec fn split_spec(body: Seq<u8>) -> Option<(Seq<u8>, Seq<u8>, int)> {
    match index_of(body, 59u8) {
        None => None,
        Some(semi) => {
            let rest = body.skip(semi + 1);
            match terminator(rest) {
                None => None,
                Some((j, t)) => Some((body.take(semi), rest.take(j), semi + 1 + j + t)),
            }
        },
    }
}

/// The first position in `s` holding an ESC that does not start ST
/// (`ESC \`).
pub open spec fn lone_esc(s: Seq<u8>) -> Option<int>
    decreases s.len(),
{
    if s.len() == 0 {
        None
    } else if s[0] == 27 && !(s.len() >= 2 && s[1] == 92) {
        Some(0)
    } else {
        match lone_esc(s.skip(1)) {
            Some(k) => Some(k + 1),
            None => None,
        }
    }
}

/// Where a set's body is cut short: at an ESC in its payload (after the
/// first `;`) that does not start ST and comes before the end of the set (or
/// when the set has no end). That ESC begins whatever escape sequence
/// follows, so scanning resumes there. An ESC in the selection parameter
/// does not cut the set: the selection runs to the first `;` whatever it holds.
pub open spec fn cut_spec(body: Seq<u8>) -> Option<int> {
    match index_of(body, 59u8) {
        None => None,
        Some(semi) => match lone_esc(body.skip(semi + 1)) {
            None => None,
            Some(k) => match split_spec(body) {
                None => Some(semi + 1 + k),
                Some((_, _, end)) => if semi + 1 + k < end {
                    Some(semi + 1 + k)
                } else {
                    None
                },
            },
        },
    }
}

/// A cut found by `cut_spec` lies inside the body, at an ESC.
pub proof fn lemma_cut_bounds(body: Seq<u8>)
    ensures
        cut_spec(body) matches Some(e) ==> 0 <= e < body.len() && body[e] == 27u8,
{
    lemma_index_of_bounds(body, 59u8);
    if let Some(semi) = index_of(body, 59u8) {
        lemma_lone_esc_bounds(body.skip(semi + 1));
        if let Some(k) = lone_esc(body.skip(semi + 1)) {
            assert(body.skip(semi + 1)[k] == body[semi + 1 + k]);
        }
    }
}

/// A lone ESC found by `lone_esc` lies inside its input.
pub proof fn lemma_lone_esc_bounds(s: Seq<u8>)
    ensures
        lone_esc(s) matches Some(k) ==> 0 <= k < s.len() && s[k] == 27u8,
        (forall|i: int| 0 <= i < s.len() ==> s[i] != 27u8) ==> lone_esc(s) is None,
    decreases s.len(),
{
    if s.len() > 0 {
        lemma_lone_esc_bounds(s.skip(1));
        if forall|i: int| 0 <= i < s.len() ==> s[i] != 27u8 {
            assert forall|i: int| 0 <= i < s.skip(1).len() implies s.skip(1)[i] != 27u8 by {
                assert(s.skip(1)[i] == s[i + 1]);
            }
        }
    }
}

/// A match found by `find_spec` lies inside the haystack and is the needle.
pub proof fn lemma_find_bounds(h: Seq<u8>, n: Seq<u8>)
    ensures
        find_spec(h, n) matches Some(k) ==> 0 <= k && k + n.len() <= h.len()
            && h.subrange(k, k + n.len()) == n,
    decreases h.len(),
{
    if h.len() >= n.len() && h.take(n.len() as int) != n && h.len() > 0 {
        lemma_find_bounds(h.skip(1), n);
        if let Some(k) = find_spec(h.skip(1), n) {
            assert(h.subrange(k + 1, k + 1 + n.len()) =~= h.skip(1).subrange(k, k + n.len()));
        }
    }
}

/// `index_of` finds the first occurrence, or reports that there is none.
pub proof fn lemma_index_of_bounds(s: Seq<u8>, b: u8)
    ensures
        index_of(s, b) matches Some(k) ==> 0 <= k < s.len() && s[k] == b
            && forall|i: int| 0 <= i < k ==> s[i] != b,
        index_of(s, b) is None ==> forall|i: int| 0 <= i < s.len() ==> s[i] != b,
    decreases s.len(),
{
    if s.len() > 0 && s[0] != b {
        lemma_index_of_bounds(s.skip(1), b);
        assert forall|i: int| 1 <= i < s.len() implies s[i] == s.skip(1)[i - 1] by {}
    }
}

/// A terminator found by `terminator` lies inside its input.
pub proof fn lemma_terminator_bounds(s: Seq<u8>)
    ensures
        terminator(s) matches Some((j, t)) ==> 0 <= j && 1 <= t <= 2 && j + t <= s.len(),
    decreases s.len(),
{
    if s.len() > 0 {
        lemma_terminator_bounds(s.skip(1));
    }
}

/// A split body consumes at least the `;` and a terminator, and no more than it has.
pub proof fn lemma_split_bounds(body: Seq<u8>)
    ensures
        split_spec(body) matches Some((_, _, end)) ==> 2 <= end <= body.len(),
{
    lemma_index_of_bounds(body, 59u8);
    if let Some(semi) = index_of(body, 59u8) {
        lemma_terminator_bounds(body.skip(semi + 1));
    }
}

/// Whether an OSC 52 payload stands for clipboard contents: not a `?`
/// query, valid UTF-8, and valid base64.
pub open spec fn payload_ok(payload: Seq<u8>) -> bool {
    &&& payload != seq![63u8]
    &&& valid_utf8(payload)
    &&& base64::decode_bytes(payload) is Ok
}

/// The selection parameter as text: its UTF-8 decoding when valid, the
/// lossy decoding otherwise.
pub open spec fn selection_text(sel: Seq<u8>) -> Seq<char> {
    if valid_utf8(sel) {
        decode_utf8(sel)
    } else {
        lossy_text(sel)
    }
}

/// The captures found by scanning an unwrapped stream from its start.
pub open spec fn scan(stream: Seq<u8>) -> Seq<(Seq<char>, Seq<u8>)>
    decreases stream.len(),
{
    match find_spec(stream, osc52_intro()) {
        None => seq![],
        Some(start) => {
            let body = stream.skip(start + 5);
            match cut_spec(body) {
                Some(e) => {
                    proof {
                        lemma_find_bounds(stream, osc52_intro());
                        lemma_cut_bounds(body);
                    }
                    scan(body.skip(e))
                },
                None => match split_spec(body) {
                    None => seq![],
                    Some((sel, payload, end)) => {
                        proof {
                            lemma_find_bounds(stream, osc52_intro());
                            lemma_split_bounds(body);
                        }
                        let rest = scan(body.skip(end));
                        if payload_ok(payload) {
                            seq![(selection_text(sel), base64::decode_bytes(payload)->Ok_0)] + rest
                        } else {
                            rest
                        }
                    },
                },
            }
        },
    }
}

/// Every decodable OSC 52 set in `input`, after unwrapping passthrough
/// envelopes, in stream order.
pub open spec fn extract_spec(input: Seq<u8>) -> Seq<(Seq<char>, Seq<u8>)> {
    scan(unwrap_spec(input))
}

/// Extract every decodable OSC 52 *set* from `input`, unwrapping tmux and
/// screen passthrough envelopes first. Query sequences (`?` payloads) and
/// payloads that fail base64 decoding are skipped — the caller wants
/// clipboard contents, not protocol chatter. A set cut short by another
/// escape sequence (an ESC in its payload that does not start its
/// terminator) is dropped, and scanning goes on from that ESC, so the sets
/// after it are still found. The selection parameter runs to the first `;`
/// and is kept as it is, ESCs included.
pub fn extract(input: &[u8]) -> (caps: Vec<Capture>)
    ensures
        caps@.map_values(|c: Capture| c@) == extract_spec(input@),
{
    let stream = unwrap_passthrough(input);
    let intro: Vec<u8> = vec![27u8, 93u8, 53u8, 50u8, 59u8];
    let n = stream.len();
    let mut captures: Vec<Capture> = Vec::new();
    let mut i: usize = 0;
    proof {
        assert(intro@ =~= osc52_intro());
        assert(stream@.skip(0) =~= stream@);
    }
    loop
        invariant_except_break
            i <= n,
            n == stream@.len(),
            intro@ == osc52_intro(),
            scan(stream@) == captures@.map_values(|c: Capture| c@) + scan(stream@.skip(i as int)),
        ensures
            captures@.map_values(|c: Capture| c@) == scan(stream@),
        decreases n - i,
    {
        let ghost here = stream@.skip(i as int);
        let found = find(slice_subrange(stream.as_slice(), i, n), intro.as_slice());
        proof {
            assert(stream@.subrange(i as int, n as int) =~= here);
            lemma_find_bounds(here, osc52_intro());
        }
        let start = match found {
            None => {
                proof {
                    assert(captures@.map_values(|c: Capture| c@) + Seq::empty() =~= captures@.map_values(|c: Capture| c@));
                }
                break;
            },
            Some(start) => start,
        };
        let body_start = i + start + 5;
        let body = slice_subrange(stream.as_slice(), body_start, n);
        let ghost gbody = here.skip(start + 5);
        proof {
            assert(body@ =~= gbody);
        }
        let split = split_osc_body(body);
        let semi = find_semi(body);
        proof {
            lemma_split_bounds(gbody);
            lemma_index_of_bounds(gbody, 59u8);
            lemma_cut_bounds(gbody);
        }
        let cut = match semi {
            None => None,
            Some(s) => {
                let payload_on = slice_subrange(body, s + 1, body.len());
                let lone = find_lone_esc(payload_on);
                proof {
                    assert(payload_on@ =~= gbody.skip(s + 1));
                    lemma_lone_esc_bounds(gbody.skip(s + 1));
                }
                match lone {
                    None => None,
                    Some(k) => {
                        let e = s + 1 + k;
                        match split {
                            None => Some(e),
                            Some((_, _, end)) => if e < end {
                                Some(e)
                            } else {
                                None
                            },
                        }
                    },
                }
            },
        };
        proof {
            assert(match cut_spec(gbody) {
                Some(x) => cut == Some(x as usize),
                None => cut is None,
            });
        }
        if let Some(e) = cut {
            proof {
                assert(gbody.skip(e as int) =~= stream@.skip(body_start + e));
            }
            i = body_start + e;
            continue;
        }
        let (selection, payload, end) = match split {
            None => {
                proof {
                    assert(captures@.map_values(|c: Capture| c@) + Seq::empty() =~= captures@.map_values(|c: Capture| c@));
                }
                break;
            },
            Some(parts) => parts,
        };
        let ghost before = captures@.map_values(|c: Capture| c@);
        proof {
            assert(gbody.skip(end as int) =~= stream@.skip(body_start + end));
        }
        if payload.len() != 1 || payload[0] != 63 {
            if let Some(text) = utf8_str(payload) {
                proof {
                    decode_utf8_encode_utf8(payload@);
                }
                if let Ok(data) = base64::decode(text) {
                    let cap = Capture { selection: utf8_lossy(selection), data };
                    captures.push(cap);
                    proof {
                        assert(payload@ != seq![63u8]);
                        assert(captures@.map_values(|c: Capture| c@) =~= before.push(cap@));
                        assert(scan(stream@) =~= captures@.map_values(|c: Capture| c@) + scan(stream@.skip(body_start + end)));
                    }
                } else {
                    proof {
                        assert(scan(stream@) =~= captures@.map_values(|c: Capture| c@) + scan(stream@.skip(body_start + end)));
                    }
                }
            } else {
                proof {
                    assert(scan(stream@) =~= captures@.map_values(|c: Capture| c@) + scan(stream@.skip(body_start + end)));
                }
            }
        } else {
            proof {
                assert(payload@ =~= seq![63u8]);
                assert(scan(stream@) =~= captures@.map_values(|c: Capture| c@) + scan(stream@.skip(body_start + end)));
            }
        }
        i = body_start + end;
    }
    captures
}

/// The first ESC in `body` that does not start ST.
fn find_lone_esc(body: &[u8]) -> (r: Option<usize>)
    ensures
        match lone_esc(body@) {
            Some(k) => r == Some(k as usize),
            None => r is None,
        },
{
    let n = body.len();
    let mut k: usize = 0;
    proof {
        assert(body@.skip(0) =~= body@);
    }
    while k < n
        invariant
            k <= n,
            n == body@.len(),
            lone_esc(body@) == match lone_esc(body@.skip(k as int)) {
                Some(x) => Some(x + k),
                None => None,
            },
        decreases n - k,
    {
        if body[k] == 27 && !(k + 1 < n && body[k + 1] == 92) {
            proof {
                assert(body@.skip(k as int)[0] == 27u8);
                if body@.skip(k as int).len() >= 2 {
                    assert(body@.skip(k as int)[1] == body@[k + 1]);
                }
            }
            return Some(k);
        }
        proof {
            assert(body@.skip(k as int)[0] == body@[k as int]);
            if k + 1 < n {
                assert(body@.skip(k as int)[1] == body@[k + 1]);
            }
            assert(body@.skip(k as int).skip(1) =~= body@.skip(k + 1));
        }
        k = k + 1;
    }
    proof {
        assert(body@.skip(n as int) =~= Seq::<u8>::empty());
    }
    None
}

/// The position of the first `;` in `body`.
fn find_semi(body: &[u8]) -> (r: Option<usize>)
    ensures
        match index_of(body@, 59u8) {
            Some(k) => r == Some(k as usize),
            None => r is None,
        },
{
    let n = body.len();
    let mut semi: usize = 0;
    while semi < n && body[semi] != 59
        invariant
            semi <= n,
            n == body@.len(),
            forall|k: int| 0 <= k < semi ==> body@[k] != 59u8,
        decreases n - semi,
    {
        semi = semi + 1;
    }
    proof {
        lemma_index_of_bounds(body@, 59u8);
        if let Some(k) = index_of(body@, 59u8) {
            assert(k == semi);
        }
    }
    if semi == n {
        None
    } else {
        proof {
            assert(body@[semi as int] == 59u8);
        }
        Some(semi)
    }
}

/// Split an OSC 52 body (`<sel>;<payload><terminator>`) and return
/// (selection, payload, bytes consumed). Terminator is BEL or ST (`ESC \`).
fn split_osc_body(body: &[u8]) -> (r: Option<(&[u8], &[u8], usize)>)
    ensures
        match split_spec(body@) {
            None => r is None,
            Some((sel, payload, end)) => r matches Some((a, b, e)) && a@ == sel && b@ == payload
                && e == end,
        },
{
    let n = body.len();
    let semi = match find_semi(body) {
        None => return None,
        Some(k) => k,
    };
    proof {
        lemma_index_of_bounds(body@, 59u8);
    }
    let ghost rest = body@.skip(semi + 1);
    let mut j: usize = semi + 1;
    while j < n
        invariant
            semi + 1 <= j <= n,
            n == body@.len(),
            rest == body@.skip(semi + 1),
            index_of(body@, 59u8) == Some(semi as int),
            terminator(rest) == match terminator(body@.skip(j as int)) {
                Some((k, t)) => Some((k + (j - semi - 1), t)),
                None => None,
            },
        decreases n - j,
    {
        let here = body[j];
        if here == 7 {
            proof {
                assert(body@.skip(j as int)[0] == 7u8);
                assert(terminator(body@.skip(j as int)) == Some((0int, 1int)));
            }
            let sel = slice_subrange(body, 0, semi);
            let payload = slice_subrange(body, semi + 1, j);
            proof {
                assert(payload@ =~= rest.take(j - semi - 1));
                assert(sel@ =~= body@.take(semi as int));
                assert(terminator(rest) == Some(((j - semi - 1) as int, 1int)));
                assert(split_spec(body@) == Some((body@.take(semi as int), rest.take(j - semi - 1), (j + 1) as int)));
            }
            return Some((sel, payload, j + 1));
        }
        if here == 27 && j + 1 < n && body[j + 1] == 92 {
            proof {
                assert(body@.skip(j as int)[0] == 27u8);
                assert(body@.skip(j as int)[1] == 92u8);
                assert(terminator(body@.skip(j as int)) == Some((0int, 2int)));
            }
            let sel = slice_subrange(body, 0, semi);
            let payload = slice_subrange(body, semi + 1, j);
            proof {
                assert(payload@ =~= rest.take(j - semi - 1));
                assert(sel@ =~= body@.take(semi as int));
                assert(terminator(rest) == Some(((j - semi - 1) as int, 2int)));
                assert(split_spec(body@) == Some((body@.take(semi as int), rest.take(j - semi - 1), (j + 2) as int)));
            }
            return Some((sel, payload, j + 2));
        }
        proof {
            assert(body@.skip(j as int).skip(1) =~= body@.skip(j + 1));
        }
        j = j + 1;
    }
    None
}

/// Remove tmux and screen DCS envelopes from a byte stream. tmux content has
/// its ESCs doubled and must be un-doubled; screen chunks are verbatim. Bytes
/// outside any envelope pass through unchanged.
fn unwrap_passthrough(input: &[u8]) -> (out: Vec<u8>)
    ensures
        out@ == unwrap_spec(input@),
{
    let n = input.len();
    let mut out: Vec<u8> = Vec::new();
    let mut i: usize = 0;
    proof {
        assert(input@.skip(0) =~= input@);
    }
    while i < n
        invariant
            i <= n,
            n == input@.len(),
            unwrap_spec(input@) == out@ + unwrap_spec(input@.skip(i as int)),
        decreases n - i,
    {
        let ghost s = input@.skip(i as int);
        let ghost before = out@;
        if input[i] == 27 && i + 1 < n && input[i + 1] == 80 {
            if starts_tmux(input, i + 2) {
                proof {
                    assert(s.subrange(2, 7) =~= input@.subrange(i + 2, i + 7));
                    assert(s.skip(7) =~= input@.skip(i + 7));
                    lemma_body_lens(s.skip(7));
                }
                let end = unwrap_tmux_body(input, i + 7, &mut out);
                proof {
                    assert(s.skip(7 + tmux_body(s.skip(7)).1) =~= input@.skip(end as int));
                    assert(unwrap_spec(input@) =~= out@ + unwrap_spec(input@.skip(end as int)));
                }
                i = end;
            } else {
                proof {
                    if s.len() >= 7 {
                        assert(s.subrange(2, 7) =~= input@.subrange(i + 2, i + 7));
                    }
                    assert(s.skip(2) =~= input@.skip(i + 2));
                    lemma_body_lens(s.skip(2));
                }
                let end = unwrap_screen_body(input, i + 2, &mut out);
                proof {
                    assert(s.skip(2 + screen_body(s.skip(2)).1) =~= input@.skip(end as int));
                    assert(unwrap_spec(input@) =~= out@ + unwrap_spec(input@.skip(end as int)));
                }
                i = end;
            }
        } else {
            out.push(input[i]);
            proof {
                assert(s.skip(1) =~= input@.skip(i + 1));
                assert(unwrap_spec(input@) =~= out@ + unwrap_spec(input@.skip(i + 1)));
            }
            i = i + 1;
        }
    }
    proof {
        assert(input@.skip(n as int) =~= Seq::<u8>::empty());
        assert(out@ =~= out@ + unwrap_spec(input@.skip(n as int)));
    }
    out
}

fn starts_tmux(input: &[u8], from: usize) -> (b: bool)
    requires
        from <= input@.len(),
    ensures
        b == (input@.len() >= from + 5 && input@.subrange(from as int, from + 5) == tmux_word()),
{
    if input.len() - from < 5 {
        return false;
    }
    let r = input[from] == 116 && input[from + 1] == 109 && input[from + 2] == 117
        && input[from + 3] == 120 && input[from + 4] == 59;
    proof {
        if r {
            assert(input@.subrange(from as int, from + 5) =~= tmux_word());
        } else {
            if input@.subrange(from as int, from + 5) == tmux_word() {
                assert(input@.subrange(from as int, from + 5)[0] == 116u8);
                assert(input@.subrange(from as int, from + 5)[1] == 109u8);
                assert(input@.subrange(from as int, from + 5)[2] == 117u8);
                assert(input@.subrange(from as int, from + 5)[3] == 120u8);
                assert(input@.subrange(from as int, from + 5)[4] == 59u8);
            }
        }
    }
    r
}

/// Copy a tmux passthrough body starting at `from`, un-doubling ESCs, until
/// the ST terminator. Returns the index just past the envelope.
fn unwrap_tmux_body(input: &[u8], from: usize, out: &mut Vec<u8>) -> (end: usize)
    requires
        from <= input@.len(),
    ensures
        final(out)@ == old(out)@ + tmux_body(input@.skip(from as int)).0,
        end == from + tmux_body(input@.skip(from as int)).1,
{
    let n = input.len();
    let mut i = from;
    let ghost added: Seq<u8> = seq![];
    let ghost whole = tmux_body(input@.skip(from as int));
    while i < n
        invariant
            from <= i <= n,
            n == input@.len(),
            out@ == old(out)@ + added,
            whole == tmux_body(input@.skip(from as int)),
            whole.0 == added + tmux_body(input@.skip(i as int)).0,
            whole.1 == (i - from) + tmux_body(input@.skip(i as int)).1,
        decreases n - i,
    {
        let ghost s = input@.skip(i as int);
        if input[i] == 27 {
            if i + 1 < n && input[i + 1] == 27 {
                out.push(27);
                proof {
                    assert(s.skip(2) =~= input@.skip(i + 2));
                    added = added.push(27u8);
                    assert(whole.0 =~= added + tmux_body(input@.skip(i + 2)).0);
                }
                i = i + 2;
            } else if i + 1 < n && input[i + 1] == 92 {
                proof {
                    assert(whole.0 =~= added);
                }
                return i + 2;
            } else {
                out.push(27);
                proof {
                    assert(s.skip(1) =~= input@.skip(i + 1));
                    added = added.push(27u8);
                    assert(whole.0 =~= added + tmux_body(input@.skip(i + 1)).0);
                }
                i = i + 1;
            }
        } else {
            out.push(input[i]);
            proof {
                assert(s.skip(1) =~= input@.skip(i + 1));
                added = added.push(input@[i as int]);
                assert(whole.0 =~= added + tmux_body(input@.skip(i + 1)).0);
            }
            i = i + 1;
        }
    }
    proof {
        assert(input@.skip(n as int) =~= Seq::<u8>::empty());
        assert(whole.0 =~= added);
    }
    i
}

/// Copy a screen DCS chunk body verbatim until ST. Returns the index just
/// past the envelope.
fn unwrap_screen_body(input: &[u8], from: usize, out: &mut Vec<u8>) -> (end: usize)
    requires
        from <= input@.len(),
    ensures
        final(out)@ == old(out)@ + screen_body(input@.skip(from as int)).0,
        end == from + screen_body(input@.skip(from as int)).1,
{
    let n = input.len();
    let mut i = from;
    let ghost added: Seq<u8> = seq![];
    let ghost whole = screen_body(input@.skip(from as int));
    while i < n
        invariant
            from <= i <= n,
            n == input@.len(),
            out@ == old(out)@ + added,
            whole == screen_body(input@.skip(from as int)),
            whole.0 == added + screen_body(input@.skip(i as int)).0,
            whole.1 == (i - from) + screen_body(input@.skip(i as int)).1,
        decreases n - i,
    {
        let ghost s = input@.skip(i as int);
        if input[i] == 27 && i + 1 < n && input[i + 1] == 92 {
            proof {
                assert(whole.0 =~= added);
            }
            return i + 2;
        }
        out.push(input[i]);
        proof {
            assert(s.skip(1) =~= input@.skip(i + 1));
            added = added.push(input@[i as int]);
            assert(whole.0 =~= added + screen_body(input@.skip(i + 1)).0);
        }
        i = i + 1;
    }
    proof {
        assert(input@.skip(n as int) =~= Seq::<u8>::empty());
        assert(whole.0 =~= added);
    }
    i
}

/// First position at which `needle` occurs in `haystack`.
pub(crate) fn find(haystack: &[u8], needle: &[u8]) -> (r: Option<usize>)
    requires
        needle@.len() > 0,
    ensures
        match find_spec(haystack@, needle@) {
            Some(k) => r == Some(k as usize),
            None => r is None,
        },
{
    let h = haystack.len();
    let m = needle.len();
    let mut i: usize = 0;
    proof {
        assert(haystack@.skip(0) =~= haystack@);
    }
    while i < h && h - i >= m
        invariant
            i <= h,
            h == haystack@.len(),
            m == needle@.len(),
            find_spec(haystack@, needle@) == match find_spec(haystack@.skip(i as int), needle@) {
                Some(k) => Some(k + i),
                None => None,
            },
        decreases h - i,
    {
        let ghost s = haystack@.skip(i as int);
        let mut k: usize = 0;
        while k < m && haystack[i + k] == needle[k]
            invariant
                k <= m,
                i + m <= h,
                h == haystack@.len(),
                m == needle@.len(),
                forall|t: int| 0 <= t < k ==> haystack@[i + t] == needle@[t],
            decreases m - k,
        {
            k = k + 1;
        }
        if k == m {
            proof {
                assert(s.take(m as int) =~= needle@);
            }
            return Some(i);
        }
        proof {
            assert(s.take(m as int)[k as int] != needle@[k as int]);
            assert(s.skip(1) =~= haystack@.skip(i + 1));
        }
        i = i + 1;
    }
    proof {
        assert(haystack@.skip(i as int).len() < m);
    }
    None
}

// ------------------------------------------------------------------ laws

/// No `ESC P` (a DCS opener) occurs in `s`.
spec fn no_dcs_open(s: Seq<u8>) -> bool {
    forall|i: int| 0 <= i < s.len() - 1 ==> !(#[trigger] s[i] == 27u8 && s[i + 1] == 80u8)
}

/// No `ESC \` (ST) occurs in `s`.
spec fn no_st(s: Seq<u8>) -> bool {
    forall|i: int| 0 <= i < s.len() - 1 ==> !(#[trigger] s[i] == 27u8 && s[i + 1] == 92u8)
}

/// No `;` occurs in `s`.
spec fn no_semi(s: Seq<u8>) -> bool {
    forall|i: int| 0 <= i < s.len() ==> #[trigger] s[i] != 59u8
}

proof fn lemma_unwrap_plain(s: Seq<u8>)
    requires
        no_dcs_open(s),
    ensures
        unwrap_spec(s) == s,
    decreases s.len(),
{
    if s.len() > 0 {
        let t = s.skip(1);
        assert forall|i: int| 0 <= i < t.len() - 1 implies !(#[trigger] t[i] == 27u8 && t[i + 1] == 80u8) by {
            assert(t[i] == s[i + 1] && t[i + 1] == s[i + 2]);
        }
        lemma_unwrap_plain(t);
        if s.len() >= 2 {
            assert(!(s[0] == 27u8 && s[1] == 80u8));
        }
        assert(s =~= seq![s[0]] + t);
    }
}

proof fn lemma_tmux_body_doubled(x: Seq<u8>, r: Seq<u8>)
    ensures
        tmux_body(double_esc(x) + st() + r) == (x, (double_esc(x).len() + 2) as int),
    decreases x.len(),
{
    let s = double_esc(x) + st() + r;
    if x.len() == 0 {
        assert(double_esc(x) =~= Seq::<u8>::empty());
        assert(s[0] == 27u8 && s[1] == 92u8);
        assert(x =~= Seq::<u8>::empty());
    } else {
        let t = x.skip(1);
        lemma_tmux_body_doubled(t, r);
        let dx = double_esc(x);
        if x[0] == 27 {
            assert(dx =~= seq![27u8, 27u8] + double_esc(t));
            assert(s.skip(2) =~= double_esc(t) + st() + r);
        } else {
            assert(dx =~= seq![x[0]] + double_esc(t));
            assert(s.skip(1) =~= double_esc(t) + st() + r);
        }
        assert(x =~= seq![x[0]] + t);
    }
}

proof fn lemma_unwrap_tmux(x: Seq<u8>)
    ensures
        unwrap_spec(tmux_spec(x)) == x,
{
    let s = tmux_spec(x);
    lemma_tmux_body_doubled(x, seq![]);
    assert(s.subrange(2, 7) =~= tmux_word());
    assert(s.skip(7) =~= double_esc(x) + st() + Seq::<u8>::empty());
    assert(s.skip((7 + double_esc(x).len() + 2) as int) =~= Seq::<u8>::empty());
    assert(unwrap_spec(Seq::<u8>::empty()) =~= Seq::<u8>::empty());
    assert(x + Seq::<u8>::empty() =~= x);
}

proof fn lemma_screen_body_chunk(c: Seq<u8>, r: Seq<u8>)
    requires
        no_st(c),
    ensures
        screen_body(c + st() + r) == (c, (c.len() + 2) as int),
    decreases c.len(),
{
    let s = c + st() + r;
    if c.len() == 0 {
        assert(s[0] == 27u8 && s[1] == 92u8);
        assert(c =~= Seq::<u8>::empty());
    } else {
        let t = c.skip(1);
        assert forall|i: int| 0 <= i < t.len() - 1 implies !(#[trigger] t[i] == 27u8 && t[i + 1] == 92u8) by {
            assert(t[i] == c[i + 1] && t[i + 1] == c[i + 2]);
        }
        lemma_screen_body_chunk(t, r);
        assert(s.skip(1) =~= t + st() + r);
        if c.len() >= 2 {
            assert(!(c[0] == 27u8 && c[1] == 92u8));
        }
        assert(s[1] == (if c.len() >= 2 { c[1] } else { 27u8 }));
        assert(c =~= seq![c[0]] + t);
    }
}

proof fn lemma_unwrap_dcs(c: Seq<u8>, r: Seq<u8>)
    requires
        no_st(c),
        !((c + st() + r).len() >= 5 && (c + st() + r).take(5) == tmux_word()),
    ensures
        unwrap_spec(dcs(c) + r) == c + unwrap_spec(r),
{
    let s = dcs(c) + r;
    lemma_screen_body_chunk(c, r);
    assert(s.skip(2) =~= c + st() + r);
    if s.len() >= 7 && s.subrange(2, 7) == tmux_word() {
        assert(s.subrange(2, 7) =~= (c + st() + r).take(5));
    }
    assert(s.skip((2 + c.len() + 2) as int) =~= r);
}

proof fn lemma_screen_no_semi(y: Seq<u8>)
    requires
        no_semi(y),
    ensures
        no_semi(screen_spec(y)),
    decreases y.len(),
{
    if y.len() > 768 {
        lemma_screen_no_semi(y.skip(768));
        let a = dcs(y.take(768));
        let b = screen_spec(y.skip(768));
        assert forall|i: int| 0 <= i < a.len() + b.len() implies #[trigger] (a + b)[i] != 59u8 by {
            if i >= a.len() {
                assert((a + b)[i] == b[i - a.len()]);
            } else if 2 <= i < 770 {
                assert(a[i] == y[i - 2]);
            }
        }
        assert(screen_spec(y) =~= a + b);
    } else if y.len() > 0 {
        assert forall|i: int| 0 <= i < dcs(y).len() implies #[trigger] dcs(y)[i] != 59u8 by {
            if 2 <= i < y.len() + 2 {
                assert(dcs(y)[i] == y[i - 2]);
            }
        }
    }
}

/// No `;` occurs in `s` from position `k` on.
spec fn no_semi_from(s: Seq<u8>, k: int) -> bool {
    forall|i: int| k <= i < s.len() ==> #[trigger] s[i] != 59u8
}

/// What the screen envelope needs of the sequence it carries.
spec fn screen_ready(x: Seq<u8>) -> bool {
    &&& no_st(x)
    &&& (x.len() > 0 ==> (x[0] != 116u8 || no_semi(x)))
    &&& no_semi_from(x, 768)
}

proof fn lemma_unwrap_screen(x: Seq<u8>)
    requires
        screen_ready(x),
    ensures
        unwrap_spec(screen_spec(x)) == x,
    decreases x.len(),
{
    if x.len() == 0 {
        assert(screen_spec(x) =~= Seq::<u8>::empty());
        assert(x =~= Seq::<u8>::empty());
    } else {
        let (c, y) = if x.len() <= 768 {
            (x, Seq::<u8>::empty())
        } else {
            (x.take(768), x.skip(768))
        };
        let r = screen_spec(y);
        assert(screen_spec(x) =~= dcs(c) + r) by {
            if x.len() <= 768 {
                assert(screen_spec(y) =~= Seq::<u8>::empty());
            }
        }
        assert forall|i: int| 0 <= i < c.len() - 1 implies !(#[trigger] c[i] == 27u8 && c[i + 1] == 92u8) by {
            assert(c[i] == x[i] && c[i + 1] == x[i + 1]);
        }
        if x.len() > 768 {
            let y2 = y;
            assert(no_semi(y2)) by {
                assert forall|i: int| 0 <= i < y2.len() implies #[trigger] y2[i] != 59u8 by {
                    assert(y2[i] == x[i + 768]);
                }
            }
            assert forall|i: int| 0 <= i < y2.len() - 1 implies !(#[trigger] y2[i] == 27u8 && y2[i + 1] == 92u8) by {
                assert(y2[i] == x[i + 768] && y2[i + 1] == x[i + 769]);
            }
            assert(no_semi_from(y2, 768)) by {
                assert forall|i: int| 768 <= i < y2.len() implies #[trigger] y2[i] != 59u8 by {
                    assert(y2[i] == x[i + 768]);
                }
            }
            lemma_unwrap_screen(y2);
            lemma_screen_no_semi(y2);
        } else {
            assert(unwrap_spec(r) =~= Seq::<u8>::empty());
        }
        let w = c + st() + r;
        if w.len() >= 5 && w.take(5) == tmux_word() {
            assert(w[0] == 116u8);
            assert(x[0] == 116u8);
            assert(no_semi(x));
            assert(w[4] == 59u8);
            if c.len() > 4 {
                assert(w[4] == c[4]);
                assert(c[4] == x[4]);
            } else if c.len() >= 3 {
                assert(w[4] == st()[4 - c.len()]);
            } else {
                assert(x.len() > 768);
                assert(w[4] == r[4 - c.len() - 2]);
            }
        }
        lemma_unwrap_dcs(c, r);
        if x.len() > 768 {
            assert(x =~= c + y);
        } else {
            assert(c + Seq::<u8>::empty() =~= x);
        }
    }
}

proof fn lemma_terminator_bel(y: Seq<u8>)
    requires
        forall|i: int| 0 <= i < y.len() ==> #[trigger] y[i] != 7u8 && y[i] != 27u8,
    ensures
        terminator(y + seq![7u8]) == Some((y.len() as int, 1int)),
    decreases y.len(),
{
    let s = y + seq![7u8];
    if y.len() > 0 {
        let t = y.skip(1);
        assert forall|i: int| 0 <= i < t.len() implies #[trigger] t[i] != 7u8 && t[i] != 27u8 by {
            assert(t[i] == y[i + 1]);
        }
        lemma_terminator_bel(t);
        assert(s.skip(1) =~= t + seq![7u8]);
        assert(s[0] == y[0]);
    } else {
        assert(s[0] == 7u8);
    }
}

/// The selection parameter decodes back to its own text.
proof fn lemma_param_text(sel: Selection)
    ensures
        selection_text(seq![param_byte(sel)]) == param_chars(sel),
{
    let cs = param_chars(sel);
    assert(is_ascii_chars(cs));
    is_ascii_chars_encode_utf8(cs);
    assert(encode_utf8(cs) =~= seq![param_byte(sel)]);
    encode_utf8_valid_utf8(cs);
    encode_utf8_decode_utf8(cs);
}

proof fn lemma_scan_bare(sel: Selection, d: Seq<u8>)
    ensures
        scan(bare_spec(sel, d)) == seq![(param_chars(sel), d)],
{
    let e = ascii_bytes(encode_chars(d));
    let x = bare_spec(sel, d);
    base64::lemma_encode_ascii(d);
    let cs = encode_chars(d);
    is_ascii_chars_encode_utf8(cs);
    assert(encode_utf8(cs) =~= e);
    encode_utf8_valid_utf8(cs);
    base64::lemma_decode_encode(d);
    assert forall|i: int| 0 <= i < e.len() implies #[trigger] e[i] != 7u8 && e[i] != 27u8 by {
        assert(base64::sextet_value(e[i]) is Some || e[i] == 61u8);
    }
    assert(x.take(5) =~= osc52_intro());
    assert(find_spec(x, osc52_intro()) == Some(0int));
    let body = x.skip(5);
    assert(body =~= seq![param_byte(sel), 59u8] + e + seq![7u8]);
    assert(body[0] != 59u8);
    assert(body.skip(1)[0] == 59u8);
    assert(index_of(body.skip(1), 59u8) == Some(0int));
    assert(index_of(body, 59u8) == Some(1int));
    let rest = body.skip(2);
    assert(rest =~= e + seq![7u8]);
    lemma_terminator_bel(e);
    assert(body.take(1) =~= seq![param_byte(sel)]);
    assert(rest.take(e.len() as int) =~= e);
    assert(split_spec(body) == Some((seq![param_byte(sel)], e, (e.len() + 3) as int)));
    assert forall|i: int| 0 <= i < body.len() implies body[i] != 27u8 by {
        if 2 <= i < 2 + e.len() {
            assert(body[i] == e[i - 2]);
        }
    }
    assert forall|i: int| 0 <= i < rest.len() implies rest[i] != 27u8 by {
        assert(rest[i] == body[i + 2]);
    }
    lemma_lone_esc_bounds(rest);
    assert(cut_spec(body) is None);
    assert(body.skip((e.len() + 3) as int) =~= Seq::<u8>::empty());
    assert(scan(Seq::<u8>::empty()) =~= Seq::<(Seq<char>, Seq<u8>)>::empty());
    if e =~= seq![63u8] {
        assert(base64::sextet_value(e[0]) is Some || e[0] == 61u8);
    }
    assert(payload_ok(e));
    lemma_param_text(sel);
    assert(scan(x) =~= seq![(param_chars(sel), d)]);
}

proof fn lemma_bare_shape(sel: Selection, d: Seq<u8>)
    ensures
        no_dcs_open(bare_spec(sel, d)),
        screen_ready(bare_spec(sel, d)),
{
    let e = ascii_bytes(encode_chars(d));
    let x = bare_spec(sel, d);
    base64::lemma_encode_ascii(d);
    assert forall|i: int| 0 <= i < e.len() implies #[trigger] e[i] != 27u8 && e[i] != 59u8 && e[i] != 7u8 by {
        assert(base64::sextet_value(e[i]) is Some || e[i] == 61u8);
    }
    assert forall|i: int| 1 <= i < x.len() implies #[trigger] x[i] != 27u8 by {
        if 7 <= i < 7 + e.len() {
            assert(x[i] == e[i - 7]);
        }
    }
    assert forall|i: int| 7 <= i < x.len() implies #[trigger] x[i] != 59u8 by {
        if i < 7 + e.len() {
            assert(x[i] == e[i - 7]);
        }
    }
    assert(x[1] == 93u8);
    assert(no_semi_from(x, 768));
}

/// Anything `sequence` produces, `extract` reads back: exactly one capture,
/// carrying the selection parameter and the original bytes, whatever the
/// wrap mode.
pub proof fn lemma_extract_sequence(sel: Selection, data: Seq<u8>, wrap: Wrap)
    ensures
        extract_spec(sequence_spec(sel, data, wrap)) == seq![(param_chars(sel), data)],
{
    let x = bare_spec(sel, data);
    lemma_bare_shape(sel, data);
    match wrap {
        Wrap::Bare => lemma_unwrap_plain(x),
        Wrap::Tmux => lemma_unwrap_tmux(x),
        Wrap::Screen => lemma_unwrap_screen(x),
    }
    lemma_scan_bare(sel, data);
}

} // verus!
