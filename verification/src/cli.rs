//! The command-line surface's decisions: argument parsing, command words,
//! emit options, and every message and record the commands print.
//!
//! The program around this library reads argv, the environment, stdin and
//! the history file, and writes to the terminal; everything it decides on
//! the way is made here, from plain values.

use vstd::prelude::*;
use crate::jsonl::{self, Value, ValueView, object_text};
use crate::numtext::{dec_chars, parse_usize, push_dec, usize_text};
use crate::osc52::{self, Selection, Wrap, wrap_name};
use crate::base64::encoded_len;
use crate::ring::{Entry, EntryView, Ring, plural_y_chars, no_entry_message, entry_text};
use crate::picker::PREVIEW_CHARS;
use crate::text::{opt_chars, push_char};
use crate::textutil::{preview, preview_spec};
use crate::VERSION;

verus! {

/// Default cap on the base64 payload; ~75 KB of raw bytes. Terminals and
/// multiplexers commonly truncate or drop OSC 52 sequences beyond this.
pub const DEFAULT_LIMIT: usize = 100_000;
/// Default history capacity (unpinned entries).
pub const DEFAULT_CAPACITY: usize = 50;

/// Why a command did not succeed.
#[derive(Debug)]
pub enum CliError {
    /// Bad invocation — exit 2, point at --help.
    Usage(String),
    /// The invocation was fine but the operation failed — exit 1.
    Op(String),
    /// Downstream closed our stdout (e.g. `clipring list | head -1`).
    /// Like grep/cat we stop writing and exit 0 — never a crash.
    Pipe,
}

/// Whether `r` is a usage error with message `m`.
pub open spec fn usage_error<T>(r: Result<T, CliError>, m: Seq<char>) -> bool {
    r matches Err(CliError::Usage(s)) && s@ == m
}

/// Whether `r` is an operation error with message `m`.
pub open spec fn op_error<T>(r: Result<T, CliError>, m: Seq<char>) -> bool {
    r matches Err(CliError::Op(s)) && s@ == m
}

/// Whether two texts are equal.
pub fn same_text(a: &str, b: &str) -> (r: bool)
    ensures
        r == (a@ == b@),
{
    a.to_owned() == b.to_owned()
}

// ------------------------------------------------------------ values

/// The error for a count that does not parse.
pub open spec fn count_message(what: Seq<char>, value: Seq<char>) -> Seq<char> {
    what + ": '"@ + value + "' is not a non-negative integer"@
}

/// Parse a non-negative count / size flag.
pub fn parse_count(value: &str, what: &str) -> (r: Result<usize, CliError>)
    ensures
        match usize_text(value@) {
            Some(n) => r matches Ok(x) && x == n,
            None => usage_error(r, count_message(what@, value@)),
        },
{
    match parse_usize(value) {
        Some(n) => Ok(n),
        None => {
            let mut m = what.to_owned();
            m.append(": '");
            m.append(value);
            m.append("' is not a non-negative integer");
            Err(CliError::Usage(m))
        },
    }
}

/// What a `--wrap` word stands for: `Some(None)` for `auto` (detect later),
/// `Some(Some(w))` for a mode, `None` for anything else.
pub open spec fn wrap_word(v: Seq<char>) -> Option<Option<Wrap>> {
    if v == "auto"@ {
        Some(None)
    } else if v == "none"@ {
        Some(Some(Wrap::Bare))
    } else if v == "tmux"@ {
        Some(Some(Wrap::Tmux))
    } else if v == "screen"@ {
        Some(Some(Wrap::Screen))
    } else {
        None
    }
}

/// The error for an unknown `--wrap` word.
pub open spec fn wrap_message(v: Seq<char>) -> Seq<char> {
    "--wrap: '"@ + v + "' is not one of auto|none|tmux|screen"@
}

/// Parse a wrap mode; `auto` (and only `auto`) maps to None = detect later.
pub fn parse_wrap(value: &str) -> (r: Result<Option<Wrap>, CliError>)
    ensures
        match wrap_word(value@) {
            Some(w) => r matches Ok(x) && x == w,
            None => usage_error(r, wrap_message(value@)),
        },
{
    if same_text(value, "auto") {
        Ok(None)
    } else if same_text(value, "none") {
        Ok(Some(Wrap::Bare))
    } else if same_text(value, "tmux") {
        Ok(Some(Wrap::Tmux))
    } else if same_text(value, "screen") {
        Ok(Some(Wrap::Screen))
    } else {
        let mut m = "--wrap: '".to_owned();
        m.append(value);
        m.append("' is not one of auto|none|tmux|screen");
        Err(CliError::Usage(m))
    }
}

/// The argument at `next`, the value of `flag`.
pub fn take_value(args: &[String], next: usize, flag: &str) -> (r: Result<String, CliError>)
    ensures
        next < args@.len() ==> (r matches Ok(s) && s@ == args@[next as int]@),
        next >= args@.len() ==> usage_error(r, flag@ + " needs a value"@),
{
    if next < args.len() {
        Ok(args[next].clone())
    } else {
        let mut m = flag.to_owned();
        m.append(" needs a value");
        Err(CliError::Usage(m))
    }
}

/// What an optional INDEX argument list means.
pub open spec fn optional_index_spec(args: Seq<Seq<char>>, verb: Seq<char>) -> Result<Option<usize>, Seq<char>> {
    if args.len() == 0 {
        Ok(None)
    } else if args.len() == 1 {
        match usize_text(args[0]) {
            Some(n) => Ok(Some(n)),
            None => Err(verb + ": '"@ + args[0] + "' is not an index"@),
        }
    } else {
        Err(verb + ": unexpected argument '"@ + args[1] + "'"@)
    }
}

/// The texts of some arguments.
pub open spec fn texts(args: Seq<String>) -> Seq<Seq<char>> {
    args.map_values(|a: String| a@)
}

/// An optional INDEX: none, one number, or a usage error.
pub fn optional_index(args: &[String], verb: &str) -> (r: Result<Option<usize>, CliError>)
    ensures
        match optional_index_spec(texts(args@), verb@) {
            Ok(o) => r matches Ok(x) && x == o,
            Err(m) => usage_error(r, m),
        },
{
    if args.len() == 0 {
        return Ok(None);
    }
    if args.len() == 1 {
        let one = args[0].as_str();
        return match parse_usize(one) {
            Some(n) => Ok(Some(n)),
            None => {
                let mut m = verb.to_owned();
                m.append(": '");
                m.append(one);
                m.append("' is not an index");
                Err(CliError::Usage(m))
            },
        };
    }
    let mut m = verb.to_owned();
    m.append(": unexpected argument '");
    m.append(args[1].as_str());
    m.append("'");
    Err(CliError::Usage(m))
}

/// A required INDEX: one number, or a usage error.
pub fn required_index(args: &[String], verb: &str) -> (r: Result<usize, CliError>)
    ensures
        match optional_index_spec(texts(args@), verb@) {
            Ok(Some(n)) => r matches Ok(x) && x == n,
            Ok(None) => usage_error(r, verb@ + ": missing INDEX"@),
            Err(m) => usage_error(r, m),
        },
{
    match optional_index(args, verb)? {
        Some(n) => Ok(n),
        None => {
            let mut m = verb.to_owned();
            m.append(": missing INDEX");
            Err(CliError::Usage(m))
        },
    }
}

/// `"y"` or `"ies"`, to complete "entr…" for a count.
pub fn plural_y(n: usize) -> (r: &'static str)
    ensures
        r@ == plural_y_chars(n as nat),
{
    if n == 1 {
        "y"
    } else {
        "ies"
    }
}

/// The error for an index past the end of the ring.
pub fn index_error(index: usize, ring: &Ring) -> (s: String)
    ensures
        s@ == no_entry_message(index as nat, ring@.len()),
{
    let mut m = "no entry ".to_owned();
    push_dec(&mut m, index as u64);
    m.append(" (history has ");
    push_dec(&mut m, ring.len() as u64);
    m.append(" entr");
    m.append(plural_y(ring.len()));
    m.append(")");
    m
}

/// The selection's name in status lines.
pub open spec fn selection_name(sel: Selection) -> Seq<char> {
    match sel {
        Selection::Clipboard => "clipboard"@,
        Selection::Primary => "primary"@,
    }
}

impl Selection {
    /// `clipboard` or `primary`.
    pub fn param_name(self) -> (r: &'static str)
        ensures
            r@ == selection_name(self),
    {
        match self {
            Selection::Clipboard => "clipboard",
            Selection::Primary => "primary",
        }
    }
}

// ------------------------------------------------------------ help

/// The help text up to the version.
pub const HELP_HEAD: &'static str = "clipring ";
/// The help text from the version to the default limit.
pub const HELP_BODY: &'static str = " — terminal clipboard history over OSC 52\n\nUSAGE:\n    clipring [--state DIR] [--capacity N] <COMMAND> [ARGS]\n\nCOMMANDS:\n    copy [TEXT..]     Store stdin (or TEXT) in history and copy it to the\n                      terminal clipboard via OSC 52   (alias: c)\n    paste [INDEX]     Print entry INDEX (default 0 = newest) to stdout\n                      (alias: p)\n    list              Show the history ring            (alias: ls)\n    pick              Numbered menu; re-copy the chosen entry\n    search PATTERN    List entries containing PATTERN (case-insensitive)\n    pin INDEX         Protect an entry from eviction\n    unpin INDEX       Remove that protection\n    rm INDEX          Delete one entry\n    clear [--all]     Delete unpinned entries (--all: pinned too)\n    emit              stdin -> OSC 52 sequence, without storing\n    decode            Extract OSC 52 payloads from a byte stream on stdin\n    info              Show state location, counts, and detected wrap\n    help              Show this help\n\nOPTIONS (copy / pick / emit):\n    --primary         Target the primary selection instead of the clipboard\n    --wrap MODE       Passthrough wrapping: auto|none|tmux|screen (default auto)\n    --limit N         Max base64 payload bytes, 0 = unlimited (default ";
/// The help text from the default limit to the default capacity.
pub const HELP_ENV: &'static str = ")\n    --stdout          Write the sequence to stdout instead of /dev/tty\n    --no-store        copy: emit without recording      --no-emit: record only\n    --trim            copy: strip trailing newlines     --print: pick to stdout\n\nOPTIONS (list / search / decode):\n    --json            One JSON object per entry or capture\n    -n, --count N     list: show at most N rows\n\nENVIRONMENT:\n    CLIPRING_STATE     State directory (default ~/.local/state/clipring)\n    CLIPRING_CAPACITY  History size, unpinned entries (default ";
/// The help text after the default capacity.
pub const HELP_TAIL: &'static str = ")\n    CLIPRING_LIMIT     Default for --limit\n    CLIPRING_WRAP      Default for --wrap\n";

/// The help text, with the version and the defaults filled in.
pub open spec fn help_chars() -> Seq<char> {
    HELP_HEAD@ + VERSION@ + HELP_BODY@ + dec_chars(DEFAULT_LIMIT as nat) + HELP_ENV@ + dec_chars(
        DEFAULT_CAPACITY as nat,
    ) + HELP_TAIL@
}

/// The `--help` text.
pub fn help_text() -> (s: String)
    ensures
        s@ == help_chars(),
{
    let mut s = HELP_HEAD.to_owned();
    s.append(VERSION);
    s.append(HELP_BODY);
    push_dec(&mut s, DEFAULT_LIMIT as u64);
    s.append(HELP_ENV);
    push_dec(&mut s, DEFAULT_CAPACITY as u64);
    s.append(HELP_TAIL);
    s
}

// ------------------------------------------------------------ records

/// The members of an entry's `--json` line.
pub open spec fn entry_json_fields(index: nat, e: EntryView) -> Seq<(Seq<char>, ValueView)> {
    seq![
        ("index"@, ValueView::UInt(index as u64)),
        ("id"@, ValueView::UInt(e.id)),
        ("t"@, ValueView::UInt(e.at_ms)),
        ("pin"@, ValueView::Bool(e.pinned)),
        ("size"@, ValueView::UInt(e.data.len() as u64)),
        ("text"@, ValueView::Bool(entry_text(e.data) is Some)),
        ("preview"@, ValueView::Str(preview_spec(e.data, PREVIEW_CHARS as nat))),
    ]
}

/// One entry as a `--json` line.
pub fn entry_json(index: usize, entry: &Entry) -> (s: String)
    ensures
        s@ == object_text(entry_json_fields(index as nat, entry@)),
{
    let fields = vec![
        ("index", Value::UInt(index as u64)),
        ("id", Value::UInt(entry.id)),
        ("t", Value::UInt(entry.at_ms)),
        ("pin", Value::Bool(entry.pinned)),
        ("size", Value::UInt(entry.data.len() as u64)),
        ("text", Value::Bool(entry.text().is_some())),
        ("preview", Value::Str(preview(entry.data.as_slice(), PREVIEW_CHARS))),
    ];
    let s = jsonl::encode(fields.as_slice());
    proof {
        assert(jsonl::fields_view(fields@) =~= entry_json_fields(index as nat, entry@));
    }
    s
}

// ------------------------------------------------------------ emit options

/// How a sequence is built and where it goes.
#[derive(Debug, Clone, Copy)]
pub struct EmitOpts {
    /// The selection the sequence targets.
    pub selection: Selection,
    /// The passthrough envelope.
    pub wrap: Wrap,
    /// The largest base64 payload sent, 0 for no limit.
    pub limit: usize,
    /// Write to stdout even when a terminal is there.
    pub force_stdout: bool,
}

/// The emit options that `$CLIPRING_WRAP` and `$CLIPRING_LIMIT` (as read)
/// call for; `detected` is the wrap the environment calls for, taken when
/// the wrap is unset or `auto`.
pub open spec fn env_opts(env_wrap: Option<Seq<char>>, env_limit: Option<Seq<char>>, detected: Wrap) -> Result<
    EmitOpts,
    Seq<char>,
> {
    let wrap: Result<Wrap, Seq<char>> = match env_wrap {
        None => Ok(detected),
        Some(v) => match wrap_word(v) {
            None => Err(wrap_message(v)),
            Some(None) => Ok(detected),
            Some(Some(w)) => Ok(w),
        },
    };
    match wrap {
        Err(m) => Err(m),
        Ok(w) => match env_limit {
            None => Ok(EmitOpts { selection: Selection::Clipboard, wrap: w, limit: DEFAULT_LIMIT, force_stdout: false }),
            Some(v) => match usize_text(v) {
                None => Err(count_message("$CLIPRING_LIMIT"@, v)),
                Some(n) => Ok(EmitOpts { selection: Selection::Clipboard, wrap: w, limit: n, force_stdout: false }),
            },
        },
    }
}

/// The emit flag at `pos`, if it is one: the options after it and the
/// position after it and its value.
pub open spec fn emit_flag(o: EmitOpts, args: Seq<Seq<char>>, pos: int, detected: Wrap) -> Result<
    Option<(EmitOpts, int)>,
    Seq<char>,
> {
    let a = args[pos];
    if a == "--primary"@ {
        Ok(Some((EmitOpts { selection: Selection::Primary, wrap: o.wrap, limit: o.limit, force_stdout: o.force_stdout }, pos + 1)))
    } else if a == "--stdout"@ {
        Ok(Some((EmitOpts { selection: o.selection, wrap: o.wrap, limit: o.limit, force_stdout: true }, pos + 1)))
    } else if a == "--wrap"@ {
        if pos + 1 >= args.len() {
            Err("--wrap"@ + " needs a value"@)
        } else {
            match wrap_word(args[pos + 1]) {
                None => Err(wrap_message(args[pos + 1])),
                Some(w) => {
                    let wrap = match w {
                        Some(x) => x,
                        None => detected,
                    };
                    Ok(Some((EmitOpts { selection: o.selection, wrap, limit: o.limit, force_stdout: o.force_stdout }, pos + 2)))
                },
            }
        }
    } else if a == "--limit"@ {
        if pos + 1 >= args.len() {
            Err("--limit"@ + " needs a value"@)
        } else {
            match usize_text(args[pos + 1]) {
                None => Err(count_message("--limit"@, args[pos + 1])),
                Some(n) => Ok(Some((EmitOpts { selection: o.selection, wrap: o.wrap, limit: n, force_stdout: o.force_stdout }, pos + 2))),
            }
        }
    } else {
        Ok(None)
    }
}

impl EmitOpts {
    /// The options from `$CLIPRING_WRAP` and `$CLIPRING_LIMIT`; `detected`
    /// is the wrap the environment calls for.
    pub fn from_env(env_wrap: Option<&str>, env_limit: Option<&str>, detected: Wrap) -> (r: Result<EmitOpts, CliError>)
        ensures
            match env_opts(opt_chars(env_wrap), opt_chars(env_limit), detected) {
                Ok(o) => r matches Ok(x) && x == o,
                Err(m) => usage_error(r, m),
            },
    {
        let wrap = match env_wrap {
            Some(v) => match parse_wrap(v)? {
                Some(w) => w,
                None => detected,
            },
            None => detected,
        };
        let limit = match env_limit {
            Some(v) => parse_count(v, "$CLIPRING_LIMIT")?,
            None => DEFAULT_LIMIT,
        };
        Ok(EmitOpts { selection: Selection::Clipboard, wrap, limit, force_stdout: false })
    }

    /// Try to consume the emit flag at `pos` (and its value): the position
    /// after it, or `None` when `args[pos]` is no emit flag.
    pub fn take_flag(&mut self, args: &[String], pos: usize, detected: Wrap) -> (r: Result<Option<usize>, CliError>)
        requires
            pos < args@.len(),
        ensures
            match emit_flag(*old(self), texts(args@), pos as int, detected) {
                Ok(Some((o, p))) => r matches Ok(Some(x)) && x == p && *final(self) == o,
                Ok(None) => r matches Ok(None) && *final(self) == *old(self),
                Err(m) => usage_error(r, m),
            },
    {
        let arg = args[pos].as_str();
        proof {
            assert(texts(args@)[pos as int] == arg@);
        }
        if same_text(arg, "--primary") {
            self.selection = Selection::Primary;
            Ok(Some(pos + 1))
        } else if same_text(arg, "--stdout") {
            self.force_stdout = true;
            Ok(Some(pos + 1))
        } else if same_text(arg, "--wrap") {
            let v = take_value(args, pos + 1, "--wrap")?;
            proof {
                assert(texts(args@)[pos + 1] == v@);
            }
            self.wrap = match parse_wrap(v.as_str())? {
                Some(w) => w,
                None => detected,
            };
            Ok(Some(pos + 2))
        } else if same_text(arg, "--limit") {
            let v = take_value(args, pos + 1, "--limit")?;
            proof {
                assert(texts(args@)[pos + 1] == v@);
            }
            self.limit = parse_count(v.as_str(), "--limit")?;
            Ok(Some(pos + 2))
        } else {
            Ok(None)
        }
    }

    /// The payload length and the limit, when a limit is set and the
    /// payload for `data` is over it.
    pub fn over_limit(&self, data: &[u8]) -> (r: Option<(usize, usize)>)
        requires
            encoded_len(data@.len()) <= usize::MAX,
        ensures
            r == (if self.limit > 0 && encoded_len(data@.len()) > self.limit {
                Some((encoded_len(data@.len()) as usize, self.limit))
            } else {
                None
            }),
    {
        let len = osc52::payload_len(data);
        if self.limit > 0 && len > self.limit {
            Some((len, self.limit))
        } else {
            None
        }
    }
}

/// The error for a payload over the limit.
pub open spec fn payload_message(len: nat, limit: nat) -> Seq<char> {
    "payload "@ + dec_chars(len) + " B exceeds limit "@ + dec_chars(limit) + " B (--limit 0 lifts it)"@
}

/// `payload {len} B exceeds limit {limit} B (--limit 0 lifts it)`.
pub fn payload_error(len: usize, limit: usize) -> (s: String)
    ensures
        s@ == payload_message(len as nat, limit as nat),
{
    let mut m = "payload ".to_owned();
    push_dec(&mut m, len as u64);
    m.append(" B exceeds limit ");
    push_dec(&mut m, limit as u64);
    m.append(" B (--limit 0 lifts it)");
    m
}

// ------------------------------------------------------------ argv

/// The text of an optional string.
pub open spec fn opt_string(s: Option<String>) -> Option<Seq<char>> {
    match s {
        Some(t) => Some(t@),
        None => None,
    }
}

/// The global flags, the command word and the remaining arguments picked
/// out of argv from `pos` on: `--state DIR` and `--capacity N` count before
/// or after the command; the first other word is the command; a `--` after
/// the command ends global-flag extraction (and is kept).
pub open spec fn globals_scan(
    args: Seq<Seq<char>>,
    pos: int,
    state: Option<Seq<char>>,
    cap: Option<usize>,
    cmd: Option<Seq<char>>,
    rest: Seq<Seq<char>>,
    literal: bool,
) -> Result<(Option<Seq<char>>, Option<usize>, Option<Seq<char>>, Seq<Seq<char>>), Seq<char>>
    decreases args.len() - pos,
{
    if pos < 0 || pos >= args.len() {
        Ok((state, cap, cmd, rest))
    } else {
        let a = args[pos];
        if literal || (a == "--"@ && cmd is Some) {
            globals_scan(args, pos + 1, state, cap, cmd, rest.push(a), true)
        } else if a == "--state"@ {
            if pos + 1 >= args.len() {
                Err("--state"@ + " needs a value"@)
            } else {
                globals_scan(args, pos + 2, Some(args[pos + 1]), cap, cmd, rest, false)
            }
        } else if a == "--capacity"@ {
            if pos + 1 >= args.len() {
                Err("--capacity"@ + " needs a value"@)
            } else {
                match usize_text(args[pos + 1]) {
                    None => Err(count_message("--capacity"@, args[pos + 1])),
                    Some(n) => globals_scan(args, pos + 2, state, Some(n), cmd, rest, false),
                }
            }
        } else if cmd is None {
            globals_scan(args, pos + 1, state, cap, Some(a), rest, false)
        } else {
            globals_scan(args, pos + 1, state, cap, cmd, rest.push(a), false)
        }
    }
}

/// argv split into its global flags, its command word and the rest.
pub struct ArgSplit {
    /// The value of `--state`, if given.
    pub state_flag: Option<String>,
    /// The value of `--capacity`, if given.
    pub capacity_flag: Option<usize>,
    /// The command word, if any.
    pub command: Option<String>,
    /// The command's own arguments.
    pub rest: Vec<String>,
}

/// Pull `--state DIR` / `--capacity N` (valid before or after the command)
/// out of argv; the first bare word is the command. A `--` after the command
/// ends global-flag extraction, so `copy -- --capacity 5` copies the literal
/// text instead of losing it to the global parser.
pub fn split_args(args: &[String]) -> (r: Result<ArgSplit, CliError>)
    ensures
        match globals_scan(texts(args@), 0, None, None, None, seq![], false) {
            Ok((st, cp, cm, rs)) => r matches Ok(g) && opt_string(g.state_flag) == st && g.capacity_flag
                == cp && opt_string(g.command) == cm && texts(g.rest@) == rs,
            Err(m) => usage_error(r, m),
        },
{
    let ghost a = texts(args@);
    let mut state_flag: Option<String> = None;
    let mut capacity_flag: Option<usize> = None;
    let mut command: Option<String> = None;
    let mut rest: Vec<String> = Vec::new();
    let mut literal = false;
    let mut i: usize = 0;
    proof {
        assert(texts(rest@) =~= Seq::<Seq<char>>::empty());
    }
    while i < args.len()
        invariant
            i <= args@.len(),
            a == texts(args@),
            globals_scan(a, 0, None, None, None, seq![], false) == globals_scan(
                a,
                i as int,
                opt_string(state_flag),
                capacity_flag,
                opt_string(command),
                texts(rest@),
                literal,
            ),
        decreases args@.len() - i,
    {
        let arg = &args[i];
        proof {
            assert(a[i as int] == arg@);
        }
        let ghost before = rest@;
        if literal || (same_text(arg.as_str(), "--") && command.is_some()) {
            literal = true;
            rest.push(arg.clone());
            proof {
                assert(texts(rest@) =~= texts(before).push(arg@));
            }
            i = i + 1;
        } else if same_text(arg.as_str(), "--state") {
            let v = take_value(args, i + 1, "--state")?;
            proof {
                assert(a[i + 1] == v@);
            }
            state_flag = Some(v);
            i = i + 2;
        } else if same_text(arg.as_str(), "--capacity") {
            let v = take_value(args, i + 1, "--capacity")?;
            proof {
                assert(a[i + 1] == v@);
            }
            capacity_flag = Some(parse_count(v.as_str(), "--capacity")?);
            i = i + 2;
        } else if command.is_none() {
            command = Some(arg.clone());
            i = i + 1;
        } else {
            rest.push(arg.clone());
            proof {
                assert(texts(rest@) =~= texts(before).push(arg@));
            }
            i = i + 1;
        }
    }
    Ok(ArgSplit { state_flag, capacity_flag, command, rest })
}

/// The state directory and capacity from the global flags and the
/// environment (`$CLIPRING_STATE`, `$XDG_STATE_HOME`, `$HOME`,
/// `$CLIPRING_CAPACITY`, as read): a state directory that cannot be found is
/// an operation error, a bad capacity a usage error.
pub fn settle_globals(
    state_flag: Option<&str>,
    capacity_flag: Option<usize>,
    env_state: Option<&str>,
    xdg_state_home: Option<&str>,
    home: Option<&str>,
    env_capacity: Option<&str>,
) -> (r: Result<(String, usize), CliError>)
    ensures
        match crate::store::state_dir_spec(
            opt_chars(state_flag),
            opt_chars(env_state),
            opt_chars(xdg_state_home),
            opt_chars(home),
        ) {
            Err(m) => op_error(r, m),
            Ok(dir) => match capacity_flag {
                Some(n) => r matches Ok((d, c)) && d@ == dir && c == n,
                None => match env_capacity {
                    None => r matches Ok((d, c)) && d@ == dir && c == DEFAULT_CAPACITY,
                    Some(v) => match usize_text(v@) {
                        Some(n) => r matches Ok((d, c)) && d@ == dir && c == n,
                        None => usage_error(r, count_message("$CLIPRING_CAPACITY"@, v@)),
                    },
                },
            },
        },
{
    let dir = match crate::store::resolve_state_dir(state_flag, env_state, xdg_state_home, home) {
        Ok(d) => d,
        Err(m) => {
            return Err(CliError::Op(m));
        },
    };
    let capacity = match capacity_flag {
        Some(n) => n,
        None => match env_capacity {
            Some(v) => parse_count(v, "$CLIPRING_CAPACITY")?,
            None => DEFAULT_CAPACITY,
        },
    };
    Ok((dir, capacity))
}

/// What a command word asks for.
#[derive(Debug, Clone, Copy, PartialEq, Eq, Structural)]
pub enum Command {
    /// `--version`, `-V`, `version`: print the version.
    Version,
    /// `--help`, `-h`, `help`: print the help text.
    Help,
    /// `copy`, `c`: store and emit stdin or the text words.
    Copy,
    /// `paste`, `p`: print an entry.
    Paste,
    /// `list`, `ls`: show the history.
    List,
    /// `pick`: numbered menu, re-copy the choice.
    Pick,
    /// `search`: list the entries containing a pattern.
    Search,
    /// `pin`: protect an entry from eviction.
    Pin,
    /// `unpin`: remove that protection.
    Unpin,
    /// `rm`: delete one entry.
    Rm,
    /// `clear`: delete unpinned entries, or all.
    Clear,
    /// `emit`: stdin to an OSC 52 sequence, without storing.
    Emit,
    /// `decode`: extract OSC 52 payloads from stdin.
    Decode,
    /// `info`: state location, counts and settings.
    Info,
}

/// The command a word names, aliases included.
pub open spec fn command_word(w: Seq<char>) -> Option<Command> {
    if w == "--version"@ || w == "-V"@ || w == "version"@ {
        Some(Command::Version)
    } else if w == "--help"@ || w == "-h"@ || w == "help"@ {
        Some(Command::Help)
    } else if w == "copy"@ || w == "c"@ {
        Some(Command::Copy)
    } else if w == "paste"@ || w == "p"@ {
        Some(Command::Paste)
    } else if w == "list"@ || w == "ls"@ {
        Some(Command::List)
    } else if w == "pick"@ {
        Some(Command::Pick)
    } else if w == "search"@ {
        Some(Command::Search)
    } else if w == "pin"@ {
        Some(Command::Pin)
    } else if w == "unpin"@ {
        Some(Command::Unpin)
    } else if w == "rm"@ {
        Some(Command::Rm)
    } else if w == "clear"@ {
        Some(Command::Clear)
    } else if w == "emit"@ {
        Some(Command::Emit)
    } else if w == "decode"@ {
        Some(Command::Decode)
    } else if w == "info"@ {
        Some(Command::Info)
    } else {
        None
    }
}

/// The word that names each command, as the help text lists it.
pub open spec fn command_name(c: Command) -> Seq<char> {
    match c {
        Command::Version => "version"@,
        Command::Help => "help"@,
        Command::Copy => "copy"@,
        Command::Paste => "paste"@,
        Command::List => "list"@,
        Command::Pick => "pick"@,
        Command::Search => "search"@,
        Command::Pin => "pin"@,
        Command::Unpin => "unpin"@,
        Command::Rm => "rm"@,
        Command::Clear => "clear"@,
        Command::Emit => "emit"@,
        Command::Decode => "decode"@,
        Command::Info => "info"@,
    }
}

/// The other words accepted for each command.
pub open spec fn command_aliases(c: Command) -> Seq<Seq<char>> {
    match c {
        Command::Version => seq!["--version"@, "-V"@],
        Command::Help => seq!["--help"@, "-h"@],
        Command::Copy => seq!["c"@],
        Command::Paste => seq!["p"@],
        Command::List => seq!["ls"@],
        _ => seq![],
    }
}

/// Every command is run by its own name and by each of its aliases, and by
/// no other word: a word that names a command is that command's name or one
/// of its aliases. So no two commands share a word.
pub proof fn lemma_command_words(c: Command, w: Seq<char>)
    ensures
        command_word(command_name(c)) == Some(c),
        forall|i: int| 0 <= i < command_aliases(c).len() ==> command_word(#[trigger] command_aliases(c)[i]) == Some(c),
        command_word(w) == Some(c) ==> w == command_name(c) || command_aliases(c).contains(w),
{
    reveal_strlit("version");
    reveal_strlit("help");
    reveal_strlit("copy");
    reveal_strlit("paste");
    reveal_strlit("list");
    reveal_strlit("pick");
    reveal_strlit("search");
    reveal_strlit("pin");
    reveal_strlit("unpin");
    reveal_strlit("rm");
    reveal_strlit("clear");
    reveal_strlit("emit");
    reveal_strlit("decode");
    reveal_strlit("info");
    reveal_strlit("--version");
    reveal_strlit("-V");
    reveal_strlit("--help");
    reveal_strlit("-h");
    reveal_strlit("c");
    reveal_strlit("p");
    reveal_strlit("ls");
    assert("version"@.len() == 7 && "version"@[0] == 'v' && "version"@[1] == 'e');
    assert("help"@.len() == 4 && "help"@[0] == 'h' && "help"@[1] == 'e');
    assert("copy"@.len() == 4 && "copy"@[0] == 'c' && "copy"@[1] == 'o');
    assert("paste"@.len() == 5 && "paste"@[0] == 'p' && "paste"@[1] == 'a');
    assert("list"@.len() == 4 && "list"@[0] == 'l' && "list"@[1] == 'i');
    assert("pick"@.len() == 4 && "pick"@[0] == 'p' && "pick"@[1] == 'i');
    assert("search"@.len() == 6 && "search"@[0] == 's' && "search"@[1] == 'e');
    assert("pin"@.len() == 3 && "pin"@[0] == 'p' && "pin"@[1] == 'i');
    assert("unpin"@.len() == 5 && "unpin"@[0] == 'u' && "unpin"@[1] == 'n');
    assert("rm"@.len() == 2 && "rm"@[0] == 'r' && "rm"@[1] == 'm');
    assert("clear"@.len() == 5 && "clear"@[0] == 'c' && "clear"@[1] == 'l');
    assert("emit"@.len() == 4 && "emit"@[0] == 'e' && "emit"@[1] == 'm');
    assert("decode"@.len() == 6 && "decode"@[0] == 'd' && "decode"@[1] == 'e');
    assert("info"@.len() == 4 && "info"@[0] == 'i' && "info"@[1] == 'n');
    assert("--version"@.len() == 9 && "--version"@[0] == '-' && "--version"@[1] == '-');
    assert("-V"@.len() == 2 && "-V"@[0] == '-' && "-V"@[1] == 'V');
    assert("--help"@.len() == 6 && "--help"@[0] == '-' && "--help"@[1] == '-');
    assert("-h"@.len() == 2 && "-h"@[0] == '-' && "-h"@[1] == 'h');
    assert("c"@.len() == 1 && "c"@[0] == 'c');
    assert("p"@.len() == 1 && "p"@[0] == 'p');
    assert("ls"@.len() == 2 && "ls"@[0] == 'l' && "ls"@[1] == 's');
    match c {
        Command::Version => {
            assert(command_aliases(c)[0] == "--version"@);
            assert(command_aliases(c)[1] == "-V"@);
        },
        Command::Help => {
            assert(command_aliases(c)[0] == "--help"@);
            assert(command_aliases(c)[1] == "-h"@);
        },
        Command::Copy => {
            assert(command_aliases(c)[0] == "c"@);
        },
        Command::Paste => {
            assert(command_aliases(c)[0] == "p"@);
        },
        Command::List => {
            assert(command_aliases(c)[0] == "ls"@);
        },
        _ => {},
    }
}

/// The command for argv's command word: none given, and an unknown word,
/// are usage errors.
pub fn command_of(word: Option<&str>) -> (r: Result<Command, CliError>)
    ensures
        match word {
            None => usage_error(r, "no command given"@),
            Some(w) => match command_word(w@) {
                Some(c) => r matches Ok(x) && x == c,
                None => usage_error(r, "unknown command '"@ + w@ + "'"@),
            },
        },
{
    let w = match word {
        None => {
            return Err(CliError::Usage("no command given".to_owned()));
        },
        Some(w) => w,
    };
    if same_text(w, "--version") || same_text(w, "-V") || same_text(w, "version") {
        Ok(Command::Version)
    } else if same_text(w, "--help") || same_text(w, "-h") || same_text(w, "help") {
        Ok(Command::Help)
    } else if same_text(w, "copy") || same_text(w, "c") {
        Ok(Command::Copy)
    } else if same_text(w, "paste") || same_text(w, "p") {
        Ok(Command::Paste)
    } else if same_text(w, "list") || same_text(w, "ls") {
        Ok(Command::List)
    } else if same_text(w, "pick") {
        Ok(Command::Pick)
    } else if same_text(w, "search") {
        Ok(Command::Search)
    } else if same_text(w, "pin") {
        Ok(Command::Pin)
    } else if same_text(w, "unpin") {
        Ok(Command::Unpin)
    } else if same_text(w, "rm") {
        Ok(Command::Rm)
    } else if same_text(w, "clear") {
        Ok(Command::Clear)
    } else if same_text(w, "emit") {
        Ok(Command::Emit)
    } else if same_text(w, "decode") {
        Ok(Command::Decode)
    } else if same_text(w, "info") {
        Ok(Command::Info)
    } else {
        let mut m = "unknown command '".to_owned();
        m.append(w);
        m.append("'");
        Err(CliError::Usage(m))
    }
}

// ------------------------------------------------------------ command arguments

/// Whether an argument looks like a flag.
pub open spec fn is_flag_like(a: Seq<char>) -> bool {
    a.len() > 0 && a[0] == '-' && a != "-"@
}

/// Whether an argument looks like a flag.
fn flag_like(a: &str) -> (r: bool)
    ensures
        r == is_flag_like(a@),
{
    a.unicode_len() > 0 && a.get_char(0) == '-' && !same_text(a, "-")
}

/// `copy`'s arguments from `pos` on: the emit options, whether to store,
/// whether to emit, whether to trim, and the text words. After `--`, and
/// for anything not shaped like a flag (`-` alone included), words are text.
pub open spec fn copy_scan(
    args: Seq<Seq<char>>,
    pos: int,
    o: EmitOpts,
    store: bool,
    emit: bool,
    trim: bool,
    literal: bool,
    text: Seq<Seq<char>>,
    detected: Wrap,
) -> Result<(EmitOpts, bool, bool, bool, Seq<Seq<char>>), Seq<char>>
    decreases args.len() - pos,
{
    if pos < 0 || pos >= args.len() {
        Ok((o, store, emit, trim, text))
    } else {
        let a = args[pos];
        if literal || !is_flag_like(a) {
            copy_scan(args, pos + 1, o, store, emit, trim, literal, text.push(a), detected)
        } else if a == "--"@ {
            copy_scan(args, pos + 1, o, store, emit, trim, true, text, detected)
        } else if a == "--no-store"@ {
            copy_scan(args, pos + 1, o, false, emit, trim, literal, text, detected)
        } else if a == "--no-emit"@ {
            copy_scan(args, pos + 1, o, store, false, trim, literal, text, detected)
        } else if a == "--trim"@ {
            copy_scan(args, pos + 1, o, store, emit, true, literal, text, detected)
        } else {
            match emit_flag(o, args, pos, detected) {
                Err(m) => Err(m),
                Ok(None) => Err("copy: unknown flag '"@ + a + "'"@),
                Ok(Some((o2, p2))) => copy_scan(args, p2, o2, store, emit, trim, literal, text, detected),
            }
        }
    }
}

/// What `copy` was asked to do.
pub struct CopyArgs {
    /// How and where to emit.
    pub opts: EmitOpts,
    /// Record the entry in the history.
    pub store: bool,
    /// Send the sequence to the terminal.
    pub emit: bool,
    /// Strip trailing line breaks from the data.
    pub trim: bool,
    /// The text words; none (or `-` alone) means stdin.
    pub text_args: Vec<String>,
}

/// Parse `copy`'s arguments, starting from the emit options `opts`.
pub fn copy_args(args: &[String], opts: EmitOpts, detected: Wrap) -> (r: Result<CopyArgs, CliError>)
    ensures
        match copy_scan(texts(args@), 0, opts, true, true, false, false, seq![], detected) {
            Ok((o, st, em, tr, tx)) => r matches Ok(c) && c.opts == o && c.store == st && c.emit == em
                && c.trim == tr && texts(c.text_args@) == tx,
            Err(m) => usage_error(r, m),
        },
{
    let ghost a = texts(args@);
    let mut o = opts;
    let mut store = true;
    let mut emit = true;
    let mut trim = false;
    let mut literal = false;
    let mut text_args: Vec<String> = Vec::new();
    let mut i: usize = 0;
    proof {
        assert(texts(text_args@) =~= Seq::<Seq<char>>::empty());
    }
    while i < args.len()
        invariant
            i <= args@.len(),
            a == texts(args@),
            copy_scan(a, 0, opts, true, true, false, false, seq![], detected) == copy_scan(
                a,
                i as int,
                o,
                store,
                emit,
                trim,
                literal,
                texts(text_args@),
                detected,
            ),
        decreases args@.len() - i,
    {
        let arg = &args[i];
        proof {
            assert(a[i as int] == arg@);
        }
        let ghost before = text_args@;
        if literal || !flag_like(arg.as_str()) {
            text_args.push(arg.clone());
            proof {
                assert(texts(text_args@) =~= texts(before).push(arg@));
            }
            i = i + 1;
        } else if same_text(arg.as_str(), "--") {
            literal = true;
            i = i + 1;
        } else if same_text(arg.as_str(), "--no-store") {
            store = false;
            i = i + 1;
        } else if same_text(arg.as_str(), "--no-emit") {
            emit = false;
            i = i + 1;
        } else if same_text(arg.as_str(), "--trim") {
            trim = true;
            i = i + 1;
        } else {
            match o.take_flag(args, i, detected)? {
                Some(next) => {
                    i = next;
                },
                None => {
                    let mut m = "copy: unknown flag '".to_owned();
                    m.append(arg.as_str());
                    m.append("'");
                    return Err(CliError::Usage(m));
                },
            }
        }
    }
    Ok(CopyArgs { opts: o, store, emit, trim, text_args })
}

/// The emit options after `pick`'s or `emit`'s arguments from `pos` on, and
/// whether `--print` was given (only `pick` takes it); `verb` names the
/// command in the error for an unknown flag.
pub open spec fn emit_scan(
    args: Seq<Seq<char>>,
    pos: int,
    o: EmitOpts,
    print: bool,
    takes_print: bool,
    verb: Seq<char>,
    detected: Wrap,
) -> Result<(EmitOpts, bool), Seq<char>>
    decreases args.len() - pos,
{
    if pos < 0 || pos >= args.len() {
        Ok((o, print))
    } else if takes_print && args[pos] == "--print"@ {
        emit_scan(args, pos + 1, o, true, takes_print, verb, detected)
    } else {
        match emit_flag(o, args, pos, detected) {
            Err(m) => Err(m),
            Ok(None) => Err(verb + ": unknown flag '"@ + args[pos] + "'"@),
            Ok(Some((o2, p2))) => emit_scan(args, p2, o2, print, takes_print, verb, detected),
        }
    }
}

/// Parse `pick`'s (with `takes_print`) or `emit`'s arguments: the emit
/// options and whether `--print` was given.
pub fn emit_args(args: &[String], opts: EmitOpts, takes_print: bool, verb: &str, detected: Wrap) -> (r: Result<
    (EmitOpts, bool),
    CliError,
>)
    ensures
        match emit_scan(texts(args@), 0, opts, false, takes_print, verb@, detected) {
            Ok(x) => r matches Ok(y) && y == x,
            Err(m) => usage_error(r, m),
        },
{
    let ghost a = texts(args@);
    let mut o = opts;
    let mut print = false;
    let mut i: usize = 0;
    while i < args.len()
        invariant
            i <= args@.len(),
            a == texts(args@),
            emit_scan(a, 0, opts, false, takes_print, verb@, detected) == emit_scan(
                a,
                i as int,
                o,
                print,
                takes_print,
                verb@,
                detected,
            ),
        decreases args@.len() - i,
    {
        let arg = &args[i];
        proof {
            assert(a[i as int] == arg@);
        }
        if takes_print && same_text(arg.as_str(), "--print") {
            print = true;
            i = i + 1;
        } else {
            match o.take_flag(args, i, detected)? {
                Some(next) => {
                    i = next;
                },
                None => {
                    let mut m = verb.to_owned();
                    m.append(": unknown flag '");
                    m.append(arg.as_str());
                    m.append("'");
                    return Err(CliError::Usage(m));
                },
            }
        }
    }
    Ok((o, print))
}

/// `list`'s arguments from `pos` on: `--json`, and a row count from
/// `-n N` / `--count N`.
pub open spec fn list_scan(args: Seq<Seq<char>>, pos: int, json: bool, count: Option<usize>) -> Result<
    (bool, Option<usize>),
    Seq<char>,
>
    decreases args.len() - pos,
{
    if pos < 0 || pos >= args.len() {
        Ok((json, count))
    } else {
        let a = args[pos];
        if a == "--json"@ {
            list_scan(args, pos + 1, true, count)
        } else if a == "-n"@ || a == "--count"@ {
            if pos + 1 >= args.len() {
                Err("-n"@ + " needs a value"@)
            } else {
                match usize_text(args[pos + 1]) {
                    None => Err(count_message("-n"@, args[pos + 1])),
                    Some(n) => list_scan(args, pos + 2, json, Some(n)),
                }
            }
        } else {
            Err("list: unknown flag '"@ + a + "'"@)
        }
    }
}

/// Parse `list`'s arguments: whether to print JSON, and how many rows.
pub fn list_args(args: &[String]) -> (r: Result<(bool, Option<usize>), CliError>)
    ensures
        match list_scan(texts(args@), 0, false, None) {
            Ok(x) => r matches Ok(y) && y == x,
            Err(m) => usage_error(r, m),
        },
{
    let ghost a = texts(args@);
    let mut json = false;
    let mut count: Option<usize> = None;
    let mut i: usize = 0;
    while i < args.len()
        invariant
            i <= args@.len(),
            a == texts(args@),
            list_scan(a, 0, false, None) == list_scan(a, i as int, json, count),
        decreases args@.len() - i,
    {
        let arg = args[i].as_str();
        proof {
            assert(a[i as int] == arg@);
        }
        if same_text(arg, "--json") {
            json = true;
            i = i + 1;
        } else if same_text(arg, "-n") || same_text(arg, "--count") {
            let v = take_value(args, i + 1, "-n")?;
            proof {
                assert(a[i + 1] == v@);
            }
            count = Some(parse_count(v.as_str(), "-n")?);
            i = i + 2;
        } else {
            let mut m = "list: unknown flag '".to_owned();
            m.append(arg);
            m.append("'");
            return Err(CliError::Usage(m));
        }
    }
    Ok((json, count))
}

/// `search`'s arguments from `pos` on: `--json` anywhere, the first other
/// word as the pattern, and any further word an error.
pub open spec fn search_scan(args: Seq<Seq<char>>, pos: int, json: bool, pattern: Option<Seq<char>>) -> Result<
    (bool, Option<Seq<char>>),
    Seq<char>,
>
    decreases args.len() - pos,
{
    if pos < 0 || pos >= args.len() {
        Ok((json, pattern))
    } else {
        let a = args[pos];
        if a == "--json"@ {
            search_scan(args, pos + 1, true, pattern)
        } else if pattern is None {
            search_scan(args, pos + 1, json, Some(a))
        } else {
            Err("search: unexpected argument '"@ + a + "'"@)
        }
    }
}

/// Parse `search`'s arguments: whether to print JSON, and the pattern.
pub fn search_args(args: &[String]) -> (r: Result<(bool, String), CliError>)
    ensures
        match search_scan(texts(args@), 0, false, None) {
            Ok((j, Some(p))) => r matches Ok((x, y)) && x == j && y@ == p,
            Ok((_, None)) => usage_error(r, "search: missing PATTERN"@),
            Err(m) => usage_error(r, m),
        },
{
    let ghost a = texts(args@);
    let mut json = false;
    let mut pattern: Option<String> = None;
    let mut i: usize = 0;
    while i < args.len()
        invariant
            i <= args@.len(),
            a == texts(args@),
            search_scan(a, 0, false, None) == search_scan(a, i as int, json, opt_string(pattern)),
        decreases args@.len() - i,
    {
        let arg = &args[i];
        proof {
            assert(a[i as int] == arg@);
        }
        if same_text(arg.as_str(), "--json") {
            json = true;
        } else if pattern.is_none() {
            pattern = Some(arg.clone());
        } else {
            let mut m = "search: unexpected argument '".to_owned();
            m.append(arg.as_str());
            m.append("'");
            return Err(CliError::Usage(m));
        }
        i = i + 1;
    }
    match pattern {
        Some(p) => Ok((json, p)),
        None => Err(CliError::Usage("search: missing PATTERN".to_owned())),
    }
}

/// The arguments of a command that takes one optional flag (`clear --all`,
/// `decode --json`): none, that flag alone, or an error naming the first
/// argument.
pub open spec fn lone_flag_spec(args: Seq<Seq<char>>, flag: Seq<char>, verb: Seq<char>) -> Result<bool, Seq<char>> {
    if args.len() == 0 {
        Ok(false)
    } else if args.len() == 1 && args[0] == flag {
        Ok(true)
    } else {
        Err(verb + ": unknown flag '"@ + args[0] + "'"@)
    }
}

/// Parse the arguments of `clear` (`--all`) or `decode` (`--json`).
pub fn lone_flag(args: &[String], flag: &str, verb: &str) -> (r: Result<bool, CliError>)
    ensures
        match lone_flag_spec(texts(args@), flag@, verb@) {
            Ok(b) => r matches Ok(x) && x == b,
            Err(m) => usage_error(r, m),
        },
{
    if args.len() == 0 {
        return Ok(false);
    }
    proof {
        assert(texts(args@)[0] == args@[0]@);
    }
    if args.len() == 1 && same_text(args[0].as_str(), flag) {
        return Ok(true);
    }
    let mut m = verb.to_owned();
    m.append(": unknown flag '");
    m.append(args[0].as_str());
    m.append("'");
    Err(CliError::Usage(m))
}

// ------------------------------------------------------------ command results

/// Whether `copy` reads its data from stdin: no text words, or `-` alone.
pub open spec fn reads_stdin_spec(text: Seq<Seq<char>>) -> bool {
    text.len() == 0 || (text.len() == 1 && text[0] == "-"@)
}

/// Whether `copy` reads its data from stdin.
pub fn reads_stdin(text_args: &[String]) -> (r: bool)
    ensures
        r == reads_stdin_spec(texts(text_args@)),
{
    proof {
        if text_args@.len() > 0 {
            assert(texts(text_args@)[0] == text_args@[0]@);
        }
    }
    text_args.len() == 0 || (text_args.len() == 1 && same_text(text_args[0].as_str(), "-"))
}

/// Words joined by single spaces.
pub open spec fn join_words(ws: Seq<Seq<char>>) -> Seq<char>
    decreases ws.len(),
{
    if ws.len() == 0 {
        seq![]
    } else if ws.len() == 1 {
        ws[0]
    } else {
        join_words(ws.drop_last()) + seq![' '] + ws.last()
    }
}

/// The bytes `copy` stores for its text words: the words joined by spaces.
pub fn copy_text(text_args: &[String]) -> (data: Vec<u8>)
    ensures
        data@ == vstd::utf8::encode_utf8(join_words(texts(text_args@))),
{
    let ghost a = texts(text_args@);
    let mut s = String::new();
    let mut i: usize = 0;
    proof {
        assert(a.take(0) =~= Seq::<Seq<char>>::empty());
    }
    while i < text_args.len()
        invariant
            i <= text_args@.len(),
            a == texts(text_args@),
            s@ == join_words(a.take(i as int)),
        decreases text_args@.len() - i,
    {
        if i > 0 {
            push_char(&mut s, ' ');
        }
        s.append(text_args[i].as_str());
        proof {
            assert(a.take(i + 1).drop_last() =~= a.take(i as int));
            assert(a.take(i + 1).last() == text_args@[i as int]@);
            if i == 0 {
                assert(join_words(a.take(1)) == a.take(1)[0]);
                assert(s@ =~= join_words(a.take(1)));
            }
        }
        i = i + 1;
    }
    proof {
        assert(a.take(text_args@.len() as int) =~= a);
    }
    s.as_str().as_bytes_vec()
}

/// `d` without its trailing line breaks (`\n` and `\r`).
pub open spec fn strip_line_ends(d: Seq<u8>) -> Seq<u8>
    decreases d.len(),
{
    if d.len() > 0 && (d.last() == 10u8 || d.last() == 13u8) {
        strip_line_ends(d.drop_last())
    } else {
        d
    }
}

/// `copy --trim`: drop trailing line breaks.
pub fn trim_line_ends(data: &mut Vec<u8>)
    ensures
        final(data)@ == strip_line_ends(old(data)@),
    decreases old(data)@.len(),
{
    let n = data.len();
    if n > 0 && (data[n - 1] == 10u8 || data[n - 1] == 13u8) {
        data.pop();
        proof {
            assert(data@ =~= old(data)@.drop_last());
        }
        trim_line_ends(data);
    }
}

/// What became of the sequence `copy` built.
#[derive(Debug, Clone, Copy)]
pub enum EmitOutcome {
    /// `--no-emit`: recorded only.
    NotEmitted,
    /// The payload length and the limit it exceeded.
    OverLimit(usize, usize),
    /// Sent for this selection, to the terminal device (`true`) or to
    /// stdout (`false`), in this wrap.
    Sent(Selection, bool, Wrap),
}

/// Where a sequence went, as status lines name it.
pub open spec fn dest_name(to_tty: bool) -> Seq<char> {
    if to_tty {
        "/dev/tty"@
    } else {
        "stdout"@
    }
}

/// `/dev/tty` or `stdout`.
pub fn dest(to_tty: bool) -> (r: &'static str)
    ensures
        r@ == dest_name(to_tty),
{
    if to_tty {
        "/dev/tty"
    } else {
        "stdout"
    }
}

/// `copy`'s status line: what was done with how many bytes, where the
/// sequence went (or why not), and how full the history is.
pub open spec fn copy_note_spec(stored: bool, size: Seq<char>, outcome: EmitOutcome, len: nat, cap: nat) -> Seq<
    char,
> {
    let done = if stored { "copied"@ } else { "copied (unstored)"@ };
    let tail = match outcome {
        EmitOutcome::NotEmitted => " (stored only)"@,
        EmitOutcome::OverLimit(n, limit) => "; NOT sent to terminal: "@ + payload_message(n as nat, limit as nat),
        EmitOutcome::Sent(sel, tty, w) => " -> "@ + selection_name(sel) + " via "@ + dest_name(tty) + " ["@
            + wrap_name(w) + "]"@,
    };
    "clipring: "@ + done + seq![' '] + size + tail + " (history: "@ + dec_chars(len) + "/"@ + dec_chars(cap)
        + ")"@
}

/// `copy`'s status line; `size` is the data's size as `human_size` shows it.
pub fn copy_note(stored: bool, size: &str, outcome: EmitOutcome, len: usize, cap: usize) -> (s: String)
    ensures
        s@ == copy_note_spec(stored, size@, outcome, len as nat, cap as nat),
{
    let mut m = "clipring: ".to_owned();
    if stored {
        m.append("copied");
    } else {
        m.append("copied (unstored)");
    }
    push_char(&mut m, ' ');
    m.append(size);
    match outcome {
        EmitOutcome::NotEmitted => m.append(" (stored only)"),
        EmitOutcome::OverLimit(n, limit) => {
            m.append("; NOT sent to terminal: ");
            let p = payload_error(n, limit);
            m.append(p.as_str());
        },
        EmitOutcome::Sent(sel, tty, w) => {
            m.append(" -> ");
            m.append(sel.param_name());
            m.append(" via ");
            m.append(dest(tty));
            m.append(" [");
            m.append(w.name());
            m.append("]");
        },
    }
    m.append(" (history: ");
    push_dec(&mut m, len as u64);
    m.append("/");
    push_dec(&mut m, cap as u64);
    m.append(")");
    m
}

/// The prompt under the `pick` menu.
pub open spec fn pick_prompt_spec(len: nat) -> Seq<char> {
    "pick (0-"@ + dec_chars((len - 1) as nat) + ", q to cancel)> "@
}

/// `pick (0-N, q to cancel)> ` for a ring of `len` entries.
pub fn pick_prompt(len: usize) -> (s: String)
    requires
        len > 0,
    ensures
        s@ == pick_prompt_spec(len as nat),
{
    let mut m = "pick (0-".to_owned();
    push_dec(&mut m, (len - 1) as u64);
    m.append(", q to cancel)> ");
    m
}

/// `pick`'s status line after re-copying.
pub open spec fn recopied_spec(index: nat, size: Seq<char>, to_tty: bool) -> Seq<char> {
    "clipring: re-copied entry "@ + dec_chars(index) + " ("@ + size + ") via "@ + dest_name(to_tty)
}

/// `clipring: re-copied entry I (SIZE) via DEST`.
pub fn recopied(index: usize, size: &str, to_tty: bool) -> (s: String)
    ensures
        s@ == recopied_spec(index as nat, size@, to_tty),
{
    let mut m = "clipring: re-copied entry ".to_owned();
    push_dec(&mut m, index as u64);
    m.append(" (");
    m.append(size);
    m.append(") via ");
    m.append(dest(to_tty));
    m
}

/// `clear`'s status line: how many entries went, and how many pinned ones
/// stayed when some did.
pub open spec fn cleared_spec(removed: nat, kept: nat, all: bool) -> Seq<char> {
    let head = "clipring: removed "@ + dec_chars(removed) + " entr"@ + plural_y_chars(removed);
    if all || kept == 0 {
        head
    } else {
        head + ", kept "@ + dec_chars(kept) + " pinned"@
    }
}

/// `clear`'s status line.
pub fn cleared(removed: usize, kept: usize, all: bool) -> (s: String)
    ensures
        s@ == cleared_spec(removed as nat, kept as nat, all),
{
    let mut m = "clipring: removed ".to_owned();
    push_dec(&mut m, removed as u64);
    m.append(" entr");
    m.append(plural_y(removed));
    if !(all || kept == 0) {
        m.append(", kept ");
        push_dec(&mut m, kept as u64);
        m.append(" pinned");
    }
    m
}

/// `rm`'s status line: the index, the size and a short preview.
pub open spec fn removed_spec(index: nat, e: EntryView) -> Seq<char> {
    "clipring: removed entry "@ + dec_chars(index) + " ("@ + crate::textutil::size_text(e.data.len() as u64)
        + "): "@ + preview_spec(e.data, 40)
}

/// `clipring: removed entry I (SIZE): PREVIEW`.
pub fn removed(index: usize, entry: &Entry) -> (s: String)
    ensures
        s@ == removed_spec(index as nat, entry@),
{
    let mut m = "clipring: removed entry ".to_owned();
    push_dec(&mut m, index as u64);
    m.append(" (");
    let size = crate::textutil::human_size(entry.data.len() as u64);
    m.append(size.as_str());
    m.append("): ");
    let p = preview(entry.data.as_slice(), 40);
    m.append(p.as_str());
    m
}

/// `pin`'s or `unpin`'s status line.
pub open spec fn pinned_spec(pinned: bool, index: nat) -> Seq<char> {
    "clipring: "@ + (if pinned { "pin"@ } else { "unpin"@ }) + "ned entry "@ + dec_chars(index)
}

/// `clipring: pinned entry I` or `clipring: unpinned entry I`.
pub fn pinned_note(pinned: bool, index: usize) -> (s: String)
    ensures
        s@ == pinned_spec(pinned, index as nat),
{
    let mut m = "clipring: ".to_owned();
    m.append(if pinned { "pin" } else { "unpin" });
    m.append("ned entry ");
    push_dec(&mut m, index as u64);
    m
}

/// The members of a capture's `decode --json` line.
pub open spec fn capture_json_fields(selection: Seq<char>, data: Seq<u8>) -> Seq<(Seq<char>, ValueView)> {
    seq![
        ("selection"@, ValueView::Str(selection)),
        ("size"@, ValueView::UInt(data.len() as u64)),
        ("text"@, ValueView::Bool(vstd::utf8::valid_utf8(data))),
        ("preview"@, ValueView::Str(preview_spec(data, PREVIEW_CHARS as nat))),
    ]
}

/// One OSC 52 capture as a `decode --json` line.
pub fn capture_json(cap: &osc52::Capture) -> (s: String)
    ensures
        s@ == object_text(capture_json_fields(cap.selection@, cap.data@)),
{
    let fields = vec![
        ("selection", Value::Str(cap.selection.clone())),
        ("size", Value::UInt(cap.data.len() as u64)),
        ("text", Value::Bool(crate::text::utf8_str(cap.data.as_slice()).is_some())),
        ("preview", Value::Str(preview(cap.data.as_slice(), PREVIEW_CHARS))),
    ];
    let s = jsonl::encode(fields.as_slice());
    proof {
        assert(jsonl::fields_view(fields@) =~= capture_json_fields(cap.selection@, cap.data@));
    }
    s
}

/// The history file's path in the state directory.
pub fn history_path(state_dir: &str) -> (s: String)
    ensures
        s@ == crate::store::path_join(state_dir@, crate::store::HISTORY_FILE@),
{
    crate::store::join_path(state_dir, crate::store::HISTORY_FILE)
}

/// The warning for damaged history lines skipped on load.
pub open spec fn skipped_spec(skipped: nat, path: Seq<char>) -> Seq<char> {
    "clipring: warning: skipped "@ + dec_chars(skipped) + " damaged history line(s) in "@ + path
}

/// `clipring: warning: skipped N damaged history line(s) in PATH`.
pub fn skipped_warning(skipped: usize, path: &str) -> (s: String)
    ensures
        s@ == skipped_spec(skipped as nat, path@),
{
    let mut m = "clipring: warning: skipped ".to_owned();
    push_dec(&mut m, skipped as u64);
    m.append(" damaged history line(s) in ");
    m.append(path);
    m
}

/// `info`'s report: version, history path, counts, capacity, wrap, limit,
/// and whether stdout is a terminal; each line ends with `\n`.
pub open spec fn info_spec(path: Seq<char>, len: nat, pinned: nat, cap: nat, wrap: Wrap, limit: nat, tty: bool) -> Seq<
    char,
> {
    "clipring "@ + VERSION@ + seq!['\n'] + "state:    "@ + path + seq!['\n'] + "entries:  "@ + dec_chars(len)
        + " ("@ + dec_chars(pinned) + " pinned)"@ + seq!['\n'] + "capacity: "@ + dec_chars(cap) + seq!['\n']
        + "wrap:     "@ + wrap_name(wrap) + seq!['\n'] + "limit:    "@ + dec_chars(limit)
        + " bytes of base64"@ + seq!['\n'] + "tty:      "@ + (if tty {
        "stdout is a terminal"@
    } else {
        "stdout is piped"@
    }) + seq!['\n']
}

/// `info`'s report for a ring kept under `path`, with emit options `opts`.
pub fn info_text(path: &str, ring: &Ring, opts: &EmitOpts, stdout_tty: bool) -> (s: String)
    requires
        ring.wf(),
    ensures
        s@ == info_spec(
            path@,
            ring@.len(),
            crate::ring::pinned_count_of(ring@),
            ring.cap(),
            opts.wrap,
            opts.limit as nat,
            stdout_tty,
        ),
{
    let mut m = "clipring ".to_owned();
    m.append(VERSION);
    push_char(&mut m, '\n');
    m.append("state:    ");
    m.append(path);
    push_char(&mut m, '\n');
    m.append("entries:  ");
    push_dec(&mut m, ring.len() as u64);
    m.append(" (");
    push_dec(&mut m, ring.pinned_count() as u64);
    m.append(" pinned)");
    push_char(&mut m, '\n');
    m.append("capacity: ");
    push_dec(&mut m, ring.capacity() as u64);
    push_char(&mut m, '\n');
    m.append("wrap:     ");
    m.append(opts.wrap.name());
    push_char(&mut m, '\n');
    m.append("limit:    ");
    push_dec(&mut m, opts.limit as u64);
    m.append(" bytes of base64");
    push_char(&mut m, '\n');
    m.append("tty:      ");
    m.append(if stdout_tty { "stdout is a terminal" } else { "stdout is piped" });
    push_char(&mut m, '\n');
    m
}

// ------------------------------------------------------------ command reports

/// `nothing to VERB (stdin was empty)`.
pub open spec fn empty_input_message(verb: Seq<char>) -> Seq<char> {
    "nothing to "@ + verb + " (stdin was empty)"@
}

/// `copy` and `emit` refuse empty data: an operation error naming the verb.
pub fn require_input(data: &[u8], verb: &str) -> (r: Result<(), CliError>)
    ensures
        data@.len() > 0 ==> r is Ok,
        data@.len() == 0 ==> op_error(r, empty_input_message(verb@)),
{
    if data.len() == 0 {
        let mut m = "nothing to ".to_owned();
        m.append(verb);
        m.append(" (stdin was empty)");
        Err(CliError::Op(m))
    } else {
        Ok(())
    }
}

/// The entry `paste` prints: an empty history and an index past the end
/// are operation errors.
pub fn paste_entry(ring: &Ring, index: usize) -> (r: Result<&Entry, CliError>)
    ensures
        ring@.len() == 0 ==> op_error(r, "history is empty"@),
        0 < ring@.len() <= index ==> op_error(r, no_entry_message(index as nat, ring@.len())),
        index < ring@.len() ==> (r matches Ok(e) && e@ == ring@[index as int]),
{
    if ring.is_empty() {
        return Err(CliError::Op("history is empty".to_owned()));
    }
    match ring.get(index) {
        Some(e) => Ok(e),
        None => Err(CliError::Op(index_error(index, ring))),
    }
}

/// `pick` needs a non-empty history.
pub fn pick_ready(ring: &Ring) -> (r: Result<(), CliError>)
    ensures
        ring@.len() > 0 ==> r is Ok,
        ring@.len() == 0 ==> op_error(r, "history is empty — nothing to pick"@),
{
    if ring.is_empty() {
        Err(CliError::Op("history is empty — nothing to pick".to_owned()))
    } else {
        Ok(())
    }
}

/// The status line when a pick is cancelled.
pub fn cancelled() -> (s: String)
    ensures
        s@ == "clipring: cancelled"@,
{
    "clipring: cancelled".to_owned()
}

/// One entry's line in `list` and `search`: its row, or its JSON record.
pub open spec fn entry_line(index: nat, e: EntryView, json: bool, now_ms: u64) -> Seq<char> {
    if json {
        object_text(entry_json_fields(index, e))
    } else {
        crate::picker::row_text(index, e, now_ms)
    }
}

/// One entry's line in `list` and `search`.
pub fn entry_line_text(index: usize, entry: &Entry, json: bool, now_ms: u64) -> (s: String)
    ensures
        s@ == entry_line(index as nat, entry@, json, now_ms),
{
    if json {
        entry_json(index, entry)
    } else {
        crate::picker::format_row(index, entry, now_ms)
    }
}

/// What `list` prints: on stderr, a note when the history is empty (and no
/// JSON was asked for); on stdout, the lines of the newest `count` entries
/// (all of them without a count).
pub open spec fn list_spec(s: Seq<EntryView>, json: bool, count: Option<usize>, now_ms: u64) -> (Option<
    Seq<char>,
>, Seq<Seq<char>>) {
    if s.len() == 0 && !json {
        (Some("clipring: history is empty"@), seq![])
    } else {
        let n = match count {
            Some(c) => if c < s.len() { c as nat } else { s.len() },
            None => s.len(),
        };
        (None, Seq::new(n, |i: int| entry_line(i as nat, s[i], json, now_ms)))
    }
}

/// The text of an optional string, and of a list of strings.
pub open spec fn opt_string_view(o: Option<String>) -> Option<Seq<char>> {
    match o {
        Some(t) => Some(t@),
        None => None,
    }
}

/// What `list` prints: a note for stderr, if any, and the lines for stdout.
pub fn list_report(ring: &Ring, json: bool, count: Option<usize>, now_ms: u64) -> (r: (Option<String>, Vec<String>))
    ensures
        opt_string_view(r.0) == list_spec(ring@, json, count, now_ms).0,
        r.1@.map_values(|l: String| l@) == list_spec(ring@, json, count, now_ms).1,
{
    let mut lines: Vec<String> = Vec::new();
    if ring.is_empty() && !json {
        proof {
            assert(lines@.map_values(|l: String| l@) =~= Seq::<Seq<char>>::empty());
        }
        return (Some("clipring: history is empty".to_owned()), lines);
    }
    let n = match count {
        Some(c) => if c < ring.len() { c } else { ring.len() },
        None => ring.len(),
    };
    let ghost want = list_spec(ring@, json, count, now_ms).1;
    let mut i: usize = 0;
    while i < n
        invariant
            i <= n,
            n <= ring@.len(),
            want.len() == n,
            want == Seq::new(n as nat, |k: int| entry_line(k as nat, ring@[k], json, now_ms)),
            lines@.map_values(|l: String| l@) == want.take(i as int),
        decreases n - i,
    {
        let e = ring.get(i).unwrap();
        let line = entry_line_text(i, e, json, now_ms);
        let ghost before = lines@.map_values(|l: String| l@);
        proof {
            assert(e@ == ring@[i as int]);
            assert(want[i as int] == line@);
        }
        lines.push(line);
        proof {
            assert(lines@.map_values(|l: String| l@) =~= before.push(line@));
            assert(want.take(i + 1) =~= want.take(i as int).push(want[i as int]));
        }
        i = i + 1;
    }
    proof {
        assert(want.take(n as int) =~= want);
    }
    (None, lines)
}

/// What `search` reports for the indices `hits` it found for `pattern`: exit
/// status 1 and a note when nothing matched (like grep), else status 0 and
/// one line per hit.
pub open spec fn search_spec(s: Seq<EntryView>, hits: Seq<usize>, pattern: Seq<char>, json: bool, now_ms: u64) -> (
    int,
    Option<Seq<char>>,
    Seq<Seq<char>>,
) {
    if hits.len() == 0 {
        (1, Some("clipring: no entry matches '"@ + pattern + "'"@), seq![])
    } else {
        (0, None, Seq::new(hits.len(), |k: int| entry_line(hits[k] as nat, s[hits[k] as int], json, now_ms)))
    }
}

/// What `search` reports: exit status, a note for stderr, lines for stdout.
pub fn search_report(ring: &Ring, hits: &[usize], pattern: &str, json: bool, now_ms: u64) -> (r: (
    i32,
    Option<String>,
    Vec<String>,
))
    requires
        forall|k: int| 0 <= k < hits@.len() ==> #[trigger] hits@[k] < ring@.len(),
    ensures
        r.0 as int == search_spec(ring@, hits@, pattern@, json, now_ms).0,
        opt_string_view(r.1) == search_spec(ring@, hits@, pattern@, json, now_ms).1,
        r.2@.map_values(|l: String| l@) == search_spec(ring@, hits@, pattern@, json, now_ms).2,
{
    let mut lines: Vec<String> = Vec::new();
    if hits.len() == 0 {
        let mut m = "clipring: no entry matches '".to_owned();
        m.append(pattern);
        m.append("'");
        proof {
            assert(lines@.map_values(|l: String| l@) =~= Seq::<Seq<char>>::empty());
        }
        return (1, Some(m), lines);
    }
    let ghost want = search_spec(ring@, hits@, pattern@, json, now_ms).2;
    let mut k: usize = 0;
    while k < hits.len()
        invariant
            k <= hits@.len(),
            hits@.len() > 0,
            forall|j: int| 0 <= j < hits@.len() ==> #[trigger] hits@[j] < ring@.len(),
            want == Seq::new(hits@.len(), |j: int| entry_line(hits@[j] as nat, ring@[hits@[j] as int], json, now_ms)),
            lines@.map_values(|l: String| l@) == want.take(k as int),
        decreases hits@.len() - k,
    {
        let h = hits[k];
        let e = ring.get(h).unwrap();
        let line = entry_line_text(h, e, json, now_ms);
        let ghost before = lines@.map_values(|l: String| l@);
        proof {
            assert(e@ == ring@[h as int]);
            assert(want[k as int] == line@);
        }
        lines.push(line);
        proof {
            assert(lines@.map_values(|l: String| l@) =~= before.push(line@));
            assert(want.take(k + 1) =~= want.take(k as int).push(want[k as int]));
        }
        k = k + 1;
    }
    proof {
        assert(want.take(hits@.len() as int) =~= want);
    }
    (0, None, lines)
}

/// The bytes `decode` writes for some captures: each capture's JSON line
/// (with its line break), or its raw data.
pub open spec fn decode_output(caps: Seq<(Seq<char>, Seq<u8>)>, json: bool) -> Seq<u8>
    decreases caps.len(),
{
    if caps.len() == 0 {
        seq![]
    } else {
        decode_output(caps.drop_last(), json) + (if json {
            vstd::utf8::encode_utf8(object_text(capture_json_fields(caps.last().0, caps.last().1)))
                + seq![10u8]
        } else {
            caps.last().1
        })
    }
}

/// What `decode` reports: exit status 1 and a note when no set was found,
/// else status 0 and the bytes for stdout.
pub open spec fn decode_spec(caps: Seq<(Seq<char>, Seq<u8>)>, json: bool) -> (int, Option<Seq<char>>, Seq<u8>) {
    if caps.len() == 0 {
        (1, Some("clipring: no OSC 52 sequences found in input"@), seq![])
    } else {
        (0, None, decode_output(caps, json))
    }
}

/// Append the bytes of `b` to `out`.
fn push_bytes(out: &mut Vec<u8>, b: &[u8])
    ensures
        final(out)@ == old(out)@ + b@,
{
    let mut i: usize = 0;
    let ghost start = out@;
    while i < b.len()
        invariant
            i <= b@.len(),
            out@ == start + b@.take(i as int),
        decreases b@.len() - i,
    {
        out.push(b[i]);
        proof {
            assert(b@.take(i + 1) =~= b@.take(i as int).push(b@[i as int]));
            assert(out@ =~= start + b@.take(i + 1));
        }
        i = i + 1;
    }
    proof {
        assert(b@.take(b@.len() as int) =~= b@);
    }
}

/// What `decode` reports: exit status, a note for stderr, bytes for stdout.
pub fn decode_report(caps: &[osc52::Capture], json: bool) -> (r: (i32, Option<String>, Vec<u8>))
    ensures
        r.0 as int == decode_spec(caps@.map_values(|c: osc52::Capture| c@), json).0,
        opt_string_view(r.1) == decode_spec(caps@.map_values(|c: osc52::Capture| c@), json).1,
        r.2@ == decode_spec(caps@.map_values(|c: osc52::Capture| c@), json).2,
{
    let ghost cs = caps@.map_values(|c: osc52::Capture| c@);
    let mut out: Vec<u8> = Vec::new();
    if caps.len() == 0 {
        return (1, Some("clipring: no OSC 52 sequences found in input".to_owned()), out);
    }
    let mut k: usize = 0;
    proof {
        assert(cs.take(0) =~= Seq::<(Seq<char>, Seq<u8>)>::empty());
    }
    while k < caps.len()
        invariant
            k <= caps@.len(),
            cs == caps@.map_values(|c: osc52::Capture| c@),
            out@ == decode_output(cs.take(k as int), json),
        decreases caps@.len() - k,
    {
        let cap = &caps[k];
        let ghost before = out@;
        if json {
            let line = capture_json(cap);
            push_bytes(&mut out, line.as_str().as_bytes());
            out.push(10u8);
        } else {
            push_bytes(&mut out, cap.data.as_slice());
        }
        proof {
            let t = cs.take(k + 1);
            assert(t.drop_last() =~= cs.take(k as int));
            assert(t.last() == cap@);
            assert(out@ =~= decode_output(t, json));
        }
        k = k + 1;
    }
    proof {
        assert(cs.take(caps@.len() as int) =~= cs);
    }
    (0, None, out)
}

// ------------------------------------------------------------ laws

/// After a `--` that follows the command, global-flag extraction is over:
/// every remaining argument, flag-shaped or not, goes to the command.
pub proof fn lemma_globals_literal_tail(
    args: Seq<Seq<char>>,
    pos: int,
    state: Option<Seq<char>>,
    cap: Option<usize>,
    cmd: Option<Seq<char>>,
    rest: Seq<Seq<char>>,
)
    requires
        0 <= pos <= args.len(),
    ensures
        globals_scan(args, pos, state, cap, cmd, rest, true) == Ok::<_, Seq<char>>(
            (state, cap, cmd, rest + args.skip(pos)),
        ),
    decreases args.len() - pos,
{
    if pos == args.len() {
        assert(rest + args.skip(pos) =~= rest);
    } else {
        lemma_globals_literal_tail(args, pos + 1, state, cap, cmd, rest.push(args[pos]));
        assert(rest.push(args[pos]) + args.skip(pos + 1) =~= rest + args.skip(pos));
    }
}

/// After `--`, `copy` takes every remaining argument as text, flags
/// included, and its options stay as they were.
pub proof fn lemma_copy_literal_tail(
    args: Seq<Seq<char>>,
    pos: int,
    o: EmitOpts,
    store: bool,
    emit: bool,
    trim: bool,
    text: Seq<Seq<char>>,
    detected: Wrap,
)
    requires
        0 <= pos <= args.len(),
    ensures
        copy_scan(args, pos, o, store, emit, trim, true, text, detected) == Ok::<_, Seq<char>>(
            (o, store, emit, trim, text + args.skip(pos)),
        ),
    decreases args.len() - pos,
{
    if pos == args.len() {
        assert(text + args.skip(pos) =~= text);
    } else {
        lemma_copy_literal_tail(args, pos + 1, o, store, emit, trim, text.push(args[pos]), detected);
        assert(text.push(args[pos]) + args.skip(pos + 1) =~= text + args.skip(pos));
    }
}

} // verus!
