//! Unicode whitespace: blank lines and trimming, as `str::trim` sees them.

use vstd::prelude::*;
use vstd::std_specs::iter::IteratorSpec;
use crate::text::push_char;

verus! {

/// Whether `c` has the Unicode `White_Space` property (what
/// `char::is_whitespace` tests).
pub open spec fn is_white_space(c: char) -> bool {
    ||| '\u{9}' <= c <= '\u{d}'
    ||| c == ' '
    ||| c == '\u{85}'
    ||| c == '\u{a0}'
    ||| c == '\u{1680}'
    ||| '\u{2000}' <= c <= '\u{200a}'
    ||| c == '\u{2028}'
    ||| c == '\u{2029}'
    ||| c == '\u{202f}'
    ||| c == '\u{205f}'
    ||| c == '\u{3000}'
}

/// Whether a line holds nothing but whitespace (it trims to nothing).
pub open spec fn is_blank(l: Seq<char>) -> bool {
    forall|i: int| 0 <= i < l.len() ==> is_white_space(#[trigger] l[i])
}

/// Whether `c` has the Unicode `White_Space` property.
pub fn is_white_space_char(c: char) -> (r: bool)
    ensures
        r == is_white_space(c),
{
    ('\u{9}' <= c && c <= '\u{d}') || c == ' ' || c == '\u{85}' || c == '\u{a0}' || c == '\u{1680}'
        || ('\u{2000}' <= c && c <= '\u{200a}') || c == '\u{2028}' || c == '\u{2029}' || c == '\u{202f}'
        || c == '\u{205f}' || c == '\u{3000}'
}

/// Whether `s` trims to nothing.
pub fn is_blank_str(s: &str) -> (r: bool)
    ensures
        r == is_blank(s@),
{
    let mut it = s.chars();
    let ghost all = s@;
    let ghost mut k: int = 0;
    proof {
        broadcast use vstd::string::group_string_axioms;
        assert(it.remaining() == all);
    }
    loop
        invariant
            0 <= k <= all.len(),
            all == s@,
            it.remaining() == all.skip(k),
            forall|i: int| 0 <= i < k ==> is_white_space(#[trigger] all[i]),
        decreases all.len() - k,
    {
        let next = it.next();
        proof {
            broadcast use vstd::string::group_string_axioms;
        }
        match next {
            None => {
                proof {
                    assert(all.skip(k).len() == 0);
                }
                return true;
            },
            Some(c) => {
                proof {
                    assert(all.skip(k)[0] == c);
                    assert(all.skip(k).drop_first() =~= all.skip(k + 1));
                }
                if !is_white_space_char(c) {
                    return false;
                }
                proof {
                    k = k + 1;
                }
            },
        }
    }
}

/// Number of whitespace characters at the start of `t`.
pub open spec fn lead_ws(t: Seq<char>) -> nat
    decreases t.len(),
{
    if t.len() > 0 && is_white_space(t[0]) {
        1 + lead_ws(t.drop_first())
    } else {
        0
    }
}

/// Number of whitespace characters at the end of `t`.
pub open spec fn trail_ws(t: Seq<char>) -> nat
    decreases t.len(),
{
    if t.len() > 0 && is_white_space(t.last()) {
        1 + trail_ws(t.drop_last())
    } else {
        0
    }
}

/// `t` without its leading and trailing whitespace.
pub open spec fn trim_spec(t: Seq<char>) -> Seq<char> {
    if lead_ws(t) >= t.len() {
        seq![]
    } else {
        t.subrange(lead_ws(t) as int, t.len() - trail_ws(t))
    }
}

proof fn lemma_lead_ws(t: Seq<char>, i: int)
    requires
        0 <= i <= t.len(),
        forall|k: int| 0 <= k < i ==> is_white_space(#[trigger] t[k]),
    ensures
        lead_ws(t) >= i,
        lead_ws(t) <= t.len(),
        i < t.len() && !is_white_space(t[i]) ==> lead_ws(t) == i,
    decreases i,
{
    if i > 0 {
        let r = t.drop_first();
        assert forall|k: int| 0 <= k < i - 1 implies is_white_space(#[trigger] r[k]) by {
            assert(r[k] == t[k + 1]);
        }
        assert(is_white_space(t[0]));
        lemma_lead_ws(r, i - 1);
        if i < t.len() {
            assert(r[i - 1] == t[i]);
        }
    } else {
        lemma_lead_len(t);
    }
}

proof fn lemma_lead_len(t: Seq<char>)
    ensures
        lead_ws(t) <= t.len(),
    decreases t.len(),
{
    if t.len() > 0 {
        lemma_lead_len(t.drop_first());
    }
}

proof fn lemma_trail_ws(t: Seq<char>, j: int)
    requires
        0 <= j <= t.len(),
        forall|k: int| t.len() - j <= k < t.len() ==> is_white_space(#[trigger] t[k]),
    ensures
        trail_ws(t) >= j,
        trail_ws(t) <= t.len(),
        j < t.len() && !is_white_space(t[t.len() - 1 - j]) ==> trail_ws(t) == j,
    decreases j,
{
    if j > 0 {
        let r = t.drop_last();
        assert forall|k: int| r.len() - (j - 1) <= k < r.len() implies is_white_space(#[trigger] r[k]) by {
            assert(r[k] == t[k]);
        }
        assert(is_white_space(t[t.len() - 1]));
        lemma_trail_ws(r, j - 1);
        if j < t.len() {
            assert(r[r.len() - 1 - (j - 1)] == t[t.len() - 1 - j]);
        }
    } else {
        lemma_trail_len(t);
    }
}

proof fn lemma_trail_len(t: Seq<char>)
    ensures
        trail_ws(t) <= t.len(),
    decreases t.len(),
{
    if t.len() > 0 {
        lemma_trail_len(t.drop_last());
    }
}

/// `s` without leading and trailing Unicode whitespace (`str::trim`).
pub fn trim(s: &str) -> (r: String)
    ensures
        r@ == trim_spec(s@),
{
    let mut cs: Vec<char> = Vec::new();
    let mut it = s.chars();
    let ghost all = s@;
    let ghost mut k: int = 0;
    proof {
        broadcast use vstd::string::group_string_axioms;
        assert(it.remaining() == all);
    }
    loop
        invariant_except_break
            0 <= k <= all.len(),
            it.remaining() == all.skip(k),
            cs@ == all.take(k),
        ensures
            cs@ == all,
        decreases all.len() - k,
    {
        let next = it.next();
        proof {
            broadcast use vstd::string::group_string_axioms;
        }
        match next {
            None => {
                proof {
                    assert(all.skip(k).len() == 0);
                    assert(all.take(k) =~= all);
                }
                break;
            },
            Some(c) => {
                proof {
                    assert(all.skip(k)[0] == c);
                    assert(all.skip(k).drop_first() =~= all.skip(k + 1));
                    assert(all.take(k + 1) =~= all.take(k).push(c));
                }
                cs.push(c);
                proof {
                    k = k + 1;
                }
            },
        }
    }
    let n = cs.len();
    let mut lo: usize = 0;
    while lo < n && is_white_space_char(cs[lo])
        invariant
            lo <= n,
            n == all.len(),
            cs@ == all,
            forall|k: int| 0 <= k < lo ==> is_white_space(#[trigger] all[k]),
        decreases n - lo,
    {
        lo = lo + 1;
    }
    proof {
        lemma_lead_ws(all, lo as int);
    }
    let mut out = String::new();
    if lo == n {
        return out;
    }
    let mut hi: usize = n;
    while hi > lo && is_white_space_char(cs[hi - 1])
        invariant
            lo < n,
            lo <= hi <= n,
            n == all.len(),
            cs@ == all,
            !is_white_space(all[lo as int]),
            forall|k: int| hi <= k < n ==> is_white_space(#[trigger] all[k]),
        decreases hi,
    {
        hi = hi - 1;
    }
    proof {
        lemma_trail_ws(all, n - hi);
    }
    let mut i: usize = lo;
    while i < hi
        invariant
            lo <= i <= hi,
            hi <= n,
            n == all.len(),
            cs@ == all,
            out@ == all.subrange(lo as int, i as int),
        decreases hi - i,
    {
        push_char(&mut out, cs[i]);
        proof {
            assert(all.subrange(lo as int, i + 1) =~= all.subrange(lo as int, i as int).push(all[i as int]));
        }
        i = i + 1;
    }
    out
}

} // verus!
