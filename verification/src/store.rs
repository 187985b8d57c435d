//! Persistence format: where the history lives, its JSONL record format, and
//! the history text read and written by the store.
//!
//! Layout: one directory (default `$XDG_STATE_HOME/clipring`, i.e.
//! `~/.local/state/clipring`) containing `history.jsonl` — one record per
//! entry, newest first. Damaged lines are skipped (and counted) on load
//! instead of poisoning the whole ring. The file I/O itself (the atomic
//! temp-file + rename save) is done by the program around this library.

use vstd::prelude::*;
use vstd::string::StringSliceAdditionalSpecFns;
use vstd::std_specs::iter::IteratorSpec;
use vstd::utf8::encode_utf8;
use crate::base64;
use crate::jsonl::{
    self, Fields, Value, ValueView, lookup, object_text, parse_bytes, key_index, lemma_key_index,
    escape_char, escape_chars, value_text, member_text, members_text, distinct_keys,
};
use crate::jsonl_laws::lemma_parse_encode;
use crate::numtext::{dec_chars, digit_char, hex4_chars};
use crate::ring::{
    Entry, EntryView, Ring, keep_newest, max_id, lemma_capacity_bound, lemma_keep_newest_noop,
};
use crate::text::{opt_chars, push_char};
use crate::whitespace::{is_blank, is_blank_str, is_white_space};

verus! {

/// The history file's name inside the state directory.
pub const HISTORY_FILE: &'static str = "history.jsonl";

// ------------------------------------------------------------ state dir

/// `base` joined with the relative path `rel`, as `Path::join` does on Unix:
/// a `/` goes between them unless `base` is empty or already ends with one.
pub open spec fn path_join(base: Seq<char>, rel: Seq<char>) -> Seq<char> {
    if base.len() == 0 {
        rel
    } else if base.last() == '/' {
        base + rel
    } else {
        base + seq!['/'] + rel
    }
}

/// The state directory chosen from explicit flag > `$CLIPRING_STATE` >
/// `$XDG_STATE_HOME/clipring` > `$HOME/.local/state/clipring`.
pub open spec fn state_dir_spec(
    flag: Option<Seq<char>>,
    env_state: Option<Seq<char>>,
    xdg_state_home: Option<Seq<char>>,
    home: Option<Seq<char>>,
) -> Result<Seq<char>, Seq<char>> {
    let chosen = if flag is Some { flag } else { env_state };
    match chosen {
        Some(dir) => if dir.len() == 0 {
            Err("state directory is empty"@)
        } else {
            Ok(dir)
        },
        None => match xdg_state_home {
            Some(x) if x.len() > 0 => Ok(path_join(x, "clipring"@)),
            _ => match home {
                Some(h) if h.len() > 0 => Ok(path_join(h, ".local/state/clipring"@)),
                _ => Err("cannot locate a state directory: set $HOME or $CLIPRING_STATE"@),
            },
        },
    }
}

/// `base` joined with the relative path `rel`.
pub(crate) fn join_path(base: &str, rel: &str) -> (r: String)
    ensures
        r@ == path_join(base@, rel@),
{
    let mut out = base.to_owned();
    let n = base.unicode_len();
    if n == 0 {
        return rel.to_owned();
    }
    if base.get_char(n - 1) != '/' {
        push_char(&mut out, '/');
    }
    out.append(rel);
    out
}

/// Resolve the state directory from explicit flag > `$CLIPRING_STATE` >
/// `$XDG_STATE_HOME/clipring` > `$HOME/.local/state/clipring`, as a path
/// in text form.
pub fn resolve_state_dir(
    flag: Option<&str>,
    env_state: Option<&str>,
    xdg_state_home: Option<&str>,
    home: Option<&str>,
) -> (r: Result<String, String>)
    ensures
        match state_dir_spec(opt_chars(flag), opt_chars(env_state), opt_chars(xdg_state_home), opt_chars(home)) {
            Ok(d) => r matches Ok(s) && s@ == d,
            Err(m) => r matches Err(e) && e@ == m,
        },
{
    let chosen = match flag {
        Some(f) => Some(f),
        None => env_state,
    };
    if let Some(dir) = chosen {
        if dir.is_empty() {
            return Err("state directory is empty".to_owned());
        }
        return Ok(dir.to_owned());
    }
    if let Some(xdg) = xdg_state_home {
        if !xdg.is_empty() {
            return Ok(join_path(xdg, "clipring"));
        }
    }
    if let Some(h) = home {
        if !h.is_empty() {
            return Ok(join_path(h, ".local/state/clipring"));
        }
    }
    Err("cannot locate a state directory: set $HOME or $CLIPRING_STATE".to_owned())
}

// ------------------------------------------------------------ records

/// The fields of one entry's record, in the order they are written.
pub open spec fn record_fields(e: EntryView) -> Seq<(Seq<char>, ValueView)> {
    seq![
        ("id"@, ValueView::UInt(e.id)),
        ("t"@, ValueView::UInt(e.at_ms)),
        ("pin"@, ValueView::Bool(e.pinned)),
        ("data"@, ValueView::Str(base64::encode_chars(e.data))),
    ]
}

/// One entry as its JSONL record line (without the line break).
pub open spec fn record_text(e: EntryView) -> Seq<char> {
    object_text(record_fields(e))
}

/// Serialize one entry as a JSONL record.
pub fn entry_to_line(entry: &Entry) -> (line: String)
    ensures
        line@ == record_text(entry@),
{
    let fields = vec![
        ("id", Value::UInt(entry.id)),
        ("t", Value::UInt(entry.at_ms)),
        ("pin", Value::Bool(entry.pinned)),
        ("data", Value::Str(base64::encode(entry.data.as_slice()))),
    ];
    let line = jsonl::encode(fields.as_slice());
    proof {
        assert(jsonl::fields_view(fields@) =~= record_fields(entry@));
    }
    line
}

/// The error for a record without member `k`.
pub open spec fn missing_message(k: Seq<char>) -> Seq<char> {
    "missing field '"@ + k + "'"@
}

/// What a parsed record stands for: the entry, or the first problem found
/// checking `id`, `t`, `pin` and `data` in that order.
pub open spec fn entry_from_fields(fs: Seq<(Seq<char>, ValueView)>) -> Result<EntryView, Seq<char>> {
    match lookup(fs, "id"@) {
        None => Err(missing_message("id"@)),
        Some(idv) => match idv {
            ValueView::UInt(id) => match lookup(fs, "t"@) {
                None => Err(missing_message("t"@)),
                Some(tv) => match tv {
                    ValueView::UInt(at_ms) => match lookup(fs, "pin"@) {
                        None => Err(missing_message("pin"@)),
                        Some(pv) => match pv {
                            ValueView::Bool(pinned) => match lookup(fs, "data"@) {
                                None => Err(missing_message("data"@)),
                                Some(dv) => match dv {
                                    ValueView::Str(b64) => match base64::decode_bytes(encode_utf8(b64)) {
                                        Err(m) => Err("bad 'data': "@ + m),
                                        Ok(data) => Ok(EntryView { id, at_ms, pinned, data }),
                                    },
                                    _ => Err("'data' is not a string"@),
                                },
                            },
                            _ => Err("'pin' is not a bool"@),
                        },
                    },
                    _ => Err("'t' is not an integer"@),
                },
            },
            _ => Err("'id' is not an integer"@),
        },
    }
}

/// What `entry_from_line` returns for the UTF-8 bytes of a line.
pub open spec fn entry_from_bytes(b: Seq<u8>) -> Result<EntryView, Seq<char>> {
    match parse_bytes(b) {
        Err(e) => Err(e),
        Ok(fs) => entry_from_fields(fs),
    }
}

/// Member `k` of a record, or the error for its absence.
fn field<'a>(map: &'a Fields, k: &str) -> (r: Result<&'a Value, String>)
    ensures
        match lookup(map@, k@) {
            Some(v) => r matches Ok(x) && x@ == v,
            None => r matches Err(e) && e@ == missing_message(k@),
        },
{
    match map.get(k) {
        Some(v) => Ok(v),
        None => {
            let mut msg = "missing field '".to_owned();
            msg.append(k);
            msg.append("'");
            Err(msg)
        },
    }
}

/// Parse one JSONL record back into an entry.
pub fn entry_from_line(line: &str) -> (r: Result<Entry, String>)
    ensures
        match entry_from_bytes(line.spec_bytes()) {
            Ok(e) => r matches Ok(x) && x@ == e,
            Err(m) => r matches Err(x) && x@ == m,
        },
{
    let map = jsonl::parse(line)?;
    let id = match field(&map, "id")?.as_uint() {
        Some(n) => n,
        None => {
            return Err("'id' is not an integer".to_owned());
        },
    };
    let at_ms = match field(&map, "t")?.as_uint() {
        Some(n) => n,
        None => {
            return Err("'t' is not an integer".to_owned());
        },
    };
    let pinned = match field(&map, "pin")?.as_bool() {
        Some(b) => b,
        None => {
            return Err("'pin' is not a bool".to_owned());
        },
    };
    let b64 = match field(&map, "data")?.as_str() {
        Some(s) => s,
        None => {
            return Err("'data' is not a string".to_owned());
        },
    };
    let data = match base64::decode(b64) {
        Ok(d) => d,
        Err(e) => {
            let mut msg = "bad 'data': ".to_owned();
            msg.append(e.as_str());
            return Err(msg);
        },
    };
    Ok(Entry { id, at_ms, pinned, data })
}

// ------------------------------------------------------------ history text

/// `l` without one trailing carriage return.
pub open spec fn strip_cr(l: Seq<char>) -> Seq<char> {
    if l.len() > 0 && l.last() == '\r' {
        l.drop_last()
    } else {
        l
    }
}

/// The lines completed and the line in progress after reading `t`.
pub open spec fn line_scan(t: Seq<char>) -> (Seq<Seq<char>>, Seq<char>)
    decreases t.len(),
{
    if t.len() == 0 {
        (seq![], seq![])
    } else {
        let (done, cur) = line_scan(t.drop_last());
        if t.last() == '\n' {
            (done.push(strip_cr(cur)), seq![])
        } else {
            (done, cur.push(t.last()))
        }
    }
}

/// The lines of `t` as `str::lines` yields them: split at `\n`, a `\r`
/// just before it dropped, and no empty line after a final `\n`.
pub open spec fn text_lines(t: Seq<char>) -> Seq<Seq<char>> {
    let (done, cur) = line_scan(t);
    if cur.len() == 0 {
        done
    } else {
        done.push(cur)
    }
}

/// The entries read from history lines and the number of damaged lines
/// skipped; blank lines are ignored.
pub open spec fn history_records(lines: Seq<Seq<char>>) -> (Seq<EntryView>, nat)
    decreases lines.len(),
{
    if lines.len() == 0 {
        (seq![], 0)
    } else {
        let (es, n) = history_records(lines.drop_last());
        let l = lines.last();
        if is_blank(l) {
            (es, n)
        } else {
            match entry_from_bytes(encode_utf8(l)) {
                Ok(e) => (es.push(e), n),
                Err(_) => (es, n + 1),
            }
        }
    }
}

/// The history file's text for the given entries: one record per line,
/// each line ended by `\n`.
pub open spec fn history_text_of(es: Seq<EntryView>) -> Seq<char>
    decreases es.len(),
{
    if es.len() == 0 {
        seq![]
    } else {
        history_text_of(es.drop_last()) + record_text(es.last()) + seq!['\n']
    }
}

/// Read one history line onto the entries and the count of damaged lines.
fn take_line(line: &str, entries: &mut Vec<Entry>, skipped: &mut usize)
    requires
        *old(skipped) < usize::MAX,
    ensures
        ({
            let (es, n) = if is_blank(line@) {
                (old(entries)@.map_values(|e: Entry| e@), *old(skipped) as nat)
            } else {
                match entry_from_bytes(encode_utf8(line@)) {
                    Ok(e) => (old(entries)@.map_values(|e: Entry| e@).push(e), *old(skipped) as nat),
                    Err(_) => (old(entries)@.map_values(|e: Entry| e@), (*old(skipped) + 1) as nat),
                }
            };
            final(entries)@.map_values(|e: Entry| e@) == es && *final(skipped) == n
        }),
{
    if is_blank_str(line) {
        return;
    }
    match entry_from_line(line) {
        Ok(e) => {
            let ghost before = entries@;
            entries.push(e);
            proof {
                assert(entries@.map_values(|e: Entry| e@) =~= before.map_values(|e: Entry| e@).push(e@));
            }
        },
        Err(_) => {
            *skipped = *skipped + 1;
        },
    }
}

/// Read the history file's text: the entries of its records, newest first,
/// and the number of damaged lines skipped. Blank lines are ignored.
pub fn parse_history(text: &str) -> (r: (Vec<Entry>, usize))
    ensures
        r.0@.map_values(|e: Entry| e@) == history_records(text_lines(text@)).0,
        r.1 == history_records(text_lines(text@)).1,
{
    let total = text.unicode_len();
    let mut entries: Vec<Entry> = Vec::new();
    let mut skipped: usize = 0;
    let mut cur = String::new();
    let mut cr_pending = false;
    let mut it = text.chars();
    let ghost all = text@;
    let ghost mut k: int = 0;
    proof {
        broadcast use vstd::string::group_string_axioms;
        assert(it.remaining() == all);
        assert(all.take(0) =~= Seq::<char>::empty());
        assert(entries@.map_values(|e: Entry| e@) =~= Seq::<EntryView>::empty());
    }
    loop
        invariant_except_break
            0 <= k <= all.len(),
            total == all.len(),
            it.remaining() == all.skip(k),
            cur@ + (if cr_pending { seq!['\r'] } else { Seq::<char>::empty() }) == line_scan(all.take(k)).1,
            entries@.map_values(|e: Entry| e@) == history_records(line_scan(all.take(k)).0).0,
            skipped == history_records(line_scan(all.take(k)).0).1,
            skipped + line_scan(all.take(k)).1.len() <= k,
            !cr_pending ==> cur@.len() == 0 || cur@.last() != '\r',
        ensures
            k == all.len(),
            cur@ + (if cr_pending { seq!['\r'] } else { Seq::<char>::empty() }) == line_scan(all).1,
            entries@.map_values(|e: Entry| e@) == history_records(line_scan(all).0).0,
            skipped == history_records(line_scan(all).0).1,
            skipped + line_scan(all).1.len() <= all.len(),
            total == all.len(),
        decreases all.len() - k,
    {
        let next = it.next();
        proof {
            broadcast use vstd::string::group_string_axioms;
        }
        match next {
            None => {
                proof {
                    assert(all.skip(k).len() == 0);
                    assert(all.take(k) =~= all);
                }
                break;
            },
            Some(c) => {
                proof {
                    assert(all.skip(k)[0] == c);
                    assert(all.skip(k).drop_first() =~= all.skip(k + 1));
                    assert(all.take(k + 1).drop_last() =~= all.take(k));
                    assert(all.take(k + 1).last() == c);
                }
                let ghost prev_cur = line_scan(all.take(k)).1;
                let ghost prev_done = line_scan(all.take(k)).0;
                if c == '\n' {
                    proof {
                        assert(strip_cr(prev_cur) =~= cur@);
                        assert(line_scan(all.take(k + 1)).0 =~= prev_done.push(cur@));
                        assert(line_scan(all.take(k + 1)).0.drop_last() =~= prev_done);
                    }
                    take_line(cur.as_str(), &mut entries, &mut skipped);
                    cur = String::new();
                    cr_pending = false;
                    proof {
                        assert(cur@ + Seq::<char>::empty() =~= Seq::<char>::empty());
                    }
                } else if c == '\r' {
                    if cr_pending {
                        push_char(&mut cur, '\r');
                    }
                    cr_pending = true;
                    proof {
                        assert(cur@ + seq!['\r'] =~= prev_cur.push(c));
                    }
                } else {
                    if cr_pending {
                        push_char(&mut cur, '\r');
                    }
                    cr_pending = false;
                    push_char(&mut cur, c);
                    proof {
                        assert(cur@ + Seq::<char>::empty() =~= prev_cur.push(c));
                    }
                }
                proof {
                    k = k + 1;
                }
            },
        }
    }
    if cr_pending {
        push_char(&mut cur, '\r');
    }
    proof {
        assert(cur@ =~= line_scan(all).1);
    }
    if !cur.as_str().is_empty() {
        proof {
            assert(text_lines(all).drop_last() =~= line_scan(all).0);
        }
        take_line(cur.as_str(), &mut entries, &mut skipped);
    }
    (entries, skipped)
}

/// Rebuild the ring from the history file's text: the ring of the
/// records read (trimmed to `capacity` unpinned entries, as
/// `Ring::from_entries` does) and the number of damaged lines skipped; `None`
/// when a record holds the largest id, which leaves no id for a new entry.
pub fn ring_from_text(text: &str, capacity: usize) -> (r: Option<(Ring, usize)>)
    ensures
        ({
            let (es, n) = history_records(text_lines(text@));
            match r {
                None => exists|i: int| 0 <= i < es.len() && #[trigger] es[i].id == u64::MAX,
                Some((ring, skipped)) => {
                    &&& forall|i: int| 0 <= i < es.len() ==> #[trigger] es[i].id < u64::MAX
                    &&& ring.wf()
                    &&& ring.cap() == (if capacity >= 1 { capacity as nat } else { 1 })
                    &&& ring@ == keep_newest(es, ring.cap())
                    &&& ring.next_id_spec() == max_id(es) + 1
                    &&& skipped == n
                },
            }
        }),
{
    let (entries, skipped) = parse_history(text);
    let ghost es = entries@.map_values(|e: Entry| e@);
    let mut i: usize = 0;
    while i < entries.len()
        invariant
            i <= entries@.len(),
            es == entries@.map_values(|e: Entry| e@),
            es == history_records(text_lines(text@)).0,
            forall|j: int| 0 <= j < i ==> #[trigger] entries@[j].id < u64::MAX,
        decreases entries@.len() - i,
    {
        if entries[i].id == u64::MAX {
            proof {
                let hs = history_records(text_lines(text@)).0;
                assert(hs == es);
                assert(hs[i as int].id == u64::MAX);
            }
            return None;
        }
        i = i + 1;
    }
    proof {
        assert forall|j: int| 0 <= j < es.len() implies #[trigger] es[j].id < u64::MAX by {
            assert(es[j] == entries@[j]@);
        }
    }
    let ring = Ring::from_entries(entries, capacity);
    Some((ring, skipped))
}

/// The history file's text for a ring: one record per line, newest first.
pub fn history_text(ring: &Ring) -> (s: String)
    ensures
        s@ == history_text_of(ring@),
{
    let mut out = String::new();
    let n = ring.len();
    let mut i: usize = 0;
    proof {
        assert(ring@.subrange(0, 0) =~= Seq::<EntryView>::empty());
    }
    while i < n
        invariant
            i <= n,
            n == ring@.len(),
            out@ == history_text_of(ring@.subrange(0, i as int)),
        decreases n - i,
    {
        let e = ring.get(i).unwrap();
        let line = entry_to_line(e);
        out.append(line.as_str());
        push_char(&mut out, '\n');
        proof {
            assert(ring@.subrange(0, i + 1).drop_last() =~= ring@.subrange(0, i as int));
        }
        i = i + 1;
    }
    proof {
        assert(ring@.subrange(0, n as int) =~= ring@);
    }
    out
}

// ------------------------------------------------------------ laws

/// In an object with distinct keys, the member at `i` is what its key finds.
proof fn lemma_lookup_distinct(fs: Seq<(Seq<char>, ValueView)>, i: int)
    requires
        distinct_keys(fs),
        0 <= i < fs.len(),
    ensures
        lookup(fs, fs[i].0) == Some(fs[i].1),
{
    lemma_key_index(fs, fs[i].0);
    if let Some(j) = key_index(fs, fs[i].0) {
        if j != i {
            if j < i {
                assert(fs[j].0 != fs[i].0);
            } else {
                assert(fs[i].0 != fs[j].0);
            }
        }
    }
}

/// A record reads back as the entry it was written from: id, time, pin
/// state and bytes, binary content included.
pub proof fn lemma_record_round_trip(e: EntryView)
    ensures
        entry_from_bytes(encode_utf8(record_text(e))) == Ok::<EntryView, Seq<char>>(e),
{
    let fs = record_fields(e);
    reveal_strlit("id");
    reveal_strlit("t");
    reveal_strlit("pin");
    reveal_strlit("data");
    assert(fs[0].0.len() == 2 && fs[1].0.len() == 1 && fs[2].0.len() == 3 && fs[3].0.len() == 4);
    assert forall|i: int, j: int| 0 <= i < j < fs.len() implies #[trigger] fs[i].0 != #[trigger] fs[j].0 by {
        assert(fs[i].0.len() != fs[j].0.len());
    }
    lemma_parse_encode(fs);
    lemma_lookup_distinct(fs, 0);
    lemma_lookup_distinct(fs, 1);
    lemma_lookup_distinct(fs, 2);
    lemma_lookup_distinct(fs, 3);
    base64::lemma_decode_encode(e.data);
}

/// Whether a text holds no line break.
pub open spec fn no_newline(t: Seq<char>) -> bool {
    forall|i: int| 0 <= i < t.len() ==> t[i] != '\n'
}

proof fn lemma_no_newline_concat(a: Seq<char>, b: Seq<char>)
    requires
        no_newline(a),
        no_newline(b),
    ensures
        no_newline(a + b),
{
    assert forall|i: int| 0 <= i < (a + b).len() implies (a + b)[i] != '\n' by {
        if i < a.len() {
            assert((a + b)[i] == a[i]);
        } else {
            assert((a + b)[i] == b[i - a.len()]);
        }
    }
}

proof fn lemma_escape_no_newline(s: Seq<char>)
    ensures
        no_newline(escape_chars(s)),
    decreases s.len(),
{
    if s.len() > 0 {
        lemma_escape_no_newline(s.drop_last());
        let c = s.last();
        assert(no_newline(escape_char(c))) by {
            if (c as u32) < 0x20 && c != '\n' && c != '\r' && c != '\t' {
                let h = hex4_chars((c as u32) as nat);
                assert(escape_char(c) =~= seq!['\\', 'u'] + h);
            }
        }
        lemma_no_newline_concat(escape_chars(s.drop_last()), escape_char(c));
    }
}

proof fn lemma_dec_no_newline(n: nat)
    ensures
        no_newline(dec_chars(n)),
    decreases n,
{
    if n >= 10 {
        lemma_dec_no_newline(n / 10);
        assert(dec_chars(n) =~= dec_chars(n / 10) + seq![digit_char(n % 10)]);
        lemma_no_newline_concat(dec_chars(n / 10), seq![digit_char(n % 10)]);
    }
}

proof fn lemma_member_no_newline(k: Seq<char>, v: ValueView)
    ensures
        no_newline(member_text(k, v)),
{
    lemma_escape_no_newline(k);
    let vt = value_text(v);
    assert(no_newline(vt)) by {
        match v {
            ValueView::Str(s) => {
                lemma_escape_no_newline(s);
                lemma_no_newline_concat(seq!['"'], escape_chars(s));
                lemma_no_newline_concat(seq!['"'] + escape_chars(s), seq!['"']);
            },
            ValueView::UInt(n) => {
                lemma_dec_no_newline(n as nat);
            },
            ValueView::Bool(b) => {
                reveal_strlit("true");
                reveal_strlit("false");
            },
        }
    }
    lemma_no_newline_concat(seq!['"'], escape_chars(k));
    lemma_no_newline_concat(seq!['"'] + escape_chars(k), seq!['"', ':']);
    lemma_no_newline_concat(seq!['"'] + escape_chars(k) + seq!['"', ':'], vt);
}

proof fn lemma_members_no_newline(fs: Seq<(Seq<char>, ValueView)>)
    ensures
        no_newline(members_text(fs)),
    decreases fs.len(),
{
    if fs.len() == 1 {
        lemma_member_no_newline(fs[0].0, fs[0].1);
    } else if fs.len() >= 2 {
        lemma_members_no_newline(fs.drop_last());
        lemma_member_no_newline(fs.last().0, fs.last().1);
        lemma_no_newline_concat(members_text(fs.drop_last()), seq![',']);
        lemma_no_newline_concat(members_text(fs.drop_last()) + seq![','], member_text(fs.last().0, fs.last().1));
    }
}

/// A record is one line: no line break inside, `{` first and `}` last.
proof fn lemma_record_shape(e: EntryView)
    ensures
        no_newline(record_text(e)),
        record_text(e).len() >= 2,
        record_text(e)[0] == '{',
        record_text(e).last() == '}',
{
    let m = members_text(record_fields(e));
    lemma_members_no_newline(record_fields(e));
    lemma_no_newline_concat(seq!['{'], m);
    lemma_no_newline_concat(seq!['{'] + m, seq!['}']);
}

/// Reading text without line breaks only extends the line in progress.
proof fn lemma_line_scan_extend(t: Seq<char>, l: Seq<char>)
    requires
        no_newline(l),
    ensures
        line_scan(t + l) == (line_scan(t).0, line_scan(t).1 + l),
    decreases l.len(),
{
    if l.len() == 0 {
        assert(t + l =~= t);
        assert(line_scan(t).1 + l =~= line_scan(t).1);
    } else {
        assert((t + l).drop_last() =~= t + l.drop_last());
        assert((t + l).last() == l.last());
        lemma_line_scan_extend(t, l.drop_last());
        assert(line_scan(t).1 + l.drop_last() + seq![l.last()] =~= line_scan(t).1 + l);
        assert((line_scan(t).1 + l.drop_last()).push(l.last()) =~= line_scan(t).1 + l);
    }
}

/// The history text of some entries splits into their records, one a line.
proof fn lemma_history_lines(es: Seq<EntryView>)
    ensures
        line_scan(history_text_of(es)) == (es.map_values(|e: EntryView| record_text(e)), Seq::<char>::empty()),
    decreases es.len(),
{
    if es.len() == 0 {
        assert(es.map_values(|e: EntryView| record_text(e)) =~= Seq::<Seq<char>>::empty());
    } else {
        let init = es.drop_last();
        let r = record_text(es.last());
        lemma_history_lines(init);
        lemma_record_shape(es.last());
        let h = history_text_of(init);
        lemma_line_scan_extend(h, r);
        assert(Seq::<char>::empty() + r =~= r);
        let t = h + r + seq!['\n'];
        assert(t.drop_last() =~= h + r);
        assert(strip_cr(r) == r);
        assert(es.map_values(|e: EntryView| record_text(e)) =~= init.map_values(|e: EntryView| record_text(e)).push(r));
    }
}

/// Reading back the records of some entries gives the entries, none skipped.
proof fn lemma_records_read_back(es: Seq<EntryView>)
    ensures
        history_records(es.map_values(|e: EntryView| record_text(e))) == (es, 0nat),
    decreases es.len(),
{
    if es.len() > 0 {
        let lines = es.map_values(|e: EntryView| record_text(e));
        assert(lines.drop_last() =~= es.drop_last().map_values(|e: EntryView| record_text(e)));
        lemma_records_read_back(es.drop_last());
        lemma_record_shape(es.last());
        lemma_record_round_trip(es.last());
        assert(!is_white_space(lines.last()[0]));
        assert(es.drop_last().push(es.last()) =~= es);
    } else {
        assert(es =~= Seq::<EntryView>::empty());
    }
}

/// What is saved is what loads: the history text of some entries reads
/// back as the same entries, in the same order, with no line skipped.
pub proof fn lemma_history_round_trip(es: Seq<EntryView>)
    ensures
        history_records(text_lines(history_text_of(es))) == (es, 0nat),
{
    lemma_history_lines(es);
    lemma_records_read_back(es);
}

/// A ring saved and loaded back with its own capacity is the same ring:
/// the same entries in the same order, none skipped, and no id handed out
/// again (the next id after the reload is no greater than before).
pub proof fn lemma_ring_reload(r: &Ring)
    requires
        r.wf(),
    ensures
        history_records(text_lines(history_text_of(r@))).1 == 0,
        keep_newest(history_records(text_lines(history_text_of(r@))).0, r.cap()) == r@,
        r@.len() > 0 ==> max_id(history_records(text_lines(history_text_of(r@))).0) + 1 <= r.next_id_spec(),
{
    lemma_history_round_trip(r@);
    lemma_capacity_bound(r);
    lemma_keep_newest_noop(r@, r.cap());
    lemma_max_id_below(r@, r.next_id_spec());
}

proof fn lemma_max_id_below(s: Seq<EntryView>, bound: nat)
    requires
        forall|i: int| 0 <= i < s.len() ==> #[trigger] s[i].id < bound,
    ensures
        s.len() > 0 ==> max_id(s) + 1 <= bound,
    decreases s.len(),
{
    if s.len() > 0 {
        assert forall|i: int| 0 <= i < s.skip(1).len() implies #[trigger] s.skip(1)[i].id < bound by {
            assert(s.skip(1)[i] == s[i + 1]);
        }
        lemma_max_id_below(s.skip(1), bound);
        if s.skip(1).len() == 0 {
            assert(max_id(s.skip(1)) == 0);
        }
        assert(s[0].id < bound);
    }
}

} // verus!
