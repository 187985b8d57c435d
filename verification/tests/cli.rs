use clipring::cli::{
    capture_json, cleared, command_of, copy_args, copy_note, copy_text, emit_args, entry_json,
    help_text, history_path, index_error, info_text, list_args, lone_flag, optional_index,
    cancelled, decode_report, list_report, paste_entry, pick_ready, require_input, search_report,
    parse_count, parse_wrap, pick_prompt, pinned_note, reads_stdin, recopied, removed,
    required_index, search_args, settle_globals, skipped_warning, split_args, trim_line_ends,
    CliError, Command, EmitOpts, EmitOutcome, DEFAULT_CAPACITY, DEFAULT_LIMIT,
};
use clipring::jsonl::parse;
use clipring::osc52::{extract, sequence, Selection, Wrap};
use clipring::ring::{Entry, Ring};

fn args(words: &[&str]) -> Vec<String> {
    words.iter().map(|w| w.to_string()).collect()
}

fn usage(e: CliError) -> String {
    match e {
        CliError::Usage(m) => m,
        other => panic!("expected usage error, got {other:?}"),
    }
}

fn base_opts() -> EmitOpts {
    EmitOpts { selection: Selection::Clipboard, wrap: Wrap::Bare, limit: DEFAULT_LIMIT, force_stdout: false }
}

#[test]
fn parse_wrap_accepts_modes_and_rejects_typos() {
    assert_eq!(parse_wrap("none").unwrap(), Some(Wrap::Bare));
    assert_eq!(parse_wrap("tmux").unwrap(), Some(Wrap::Tmux));
    assert_eq!(parse_wrap("screen").unwrap(), Some(Wrap::Screen));
    assert!(parse_wrap("auto").unwrap().is_none());
    let CliError::Usage(msg) = parse_wrap("tmxu").unwrap_err() else {
        panic!("expected usage error");
    };
    assert!(msg.contains("auto|none|tmux|screen"), "msg was: {msg}");
}

#[test]
fn parse_count_rejects_negatives_and_words() {
    assert!(parse_count("-1", "--limit").is_err());
    assert!(parse_count("many", "--limit").is_err());
    assert_eq!(parse_count("0", "--limit").unwrap(), 0);
}

#[test]
fn optional_index_handles_all_shapes() {
    let none: [String; 0] = [];
    assert_eq!(optional_index(&none, "paste").unwrap(), None);
    assert_eq!(optional_index(&["7".into()], "paste").unwrap(), Some(7));
    assert!(optional_index(&["x".into()], "paste").is_err());
    assert!(optional_index(&["1".into(), "2".into()], "paste").is_err());
}

#[test]
fn help_mentions_every_command() {
    let help = help_text();
    for cmd in [
        "copy", "paste", "list", "pick", "search", "pin", "unpin", "rm", "clear", "emit", "decode",
        "info",
    ] {
        assert!(help.contains(cmd), "help is missing '{cmd}'");
    }
    assert!(help.contains("COMMANDS:"));
}

#[test]
fn entry_json_reports_text_flag_and_preview() {
    let entry = Entry { id: 3, at_ms: 9, pinned: true, data: b"hi there".to_vec() };
    let line = entry_json(1, &entry);
    let map = parse(&line).unwrap();
    assert_eq!(map.get("index").unwrap().as_uint(), Some(1));
    assert_eq!(map.get("text").unwrap().as_bool(), Some(true));
    assert_eq!(map.get("preview").unwrap().as_str(), Some("hi there"));
    assert_eq!(map.get("pin").unwrap().as_bool(), Some(true));
}

#[test]
fn value_errors_are_exact() {
    assert_eq!(
        usage(parse_count("-1", "--limit").unwrap_err()),
        "--limit: '-1' is not a non-negative integer"
    );
    assert_eq!(
        usage(parse_wrap("tmxu").unwrap_err()),
        "--wrap: 'tmxu' is not one of auto|none|tmux|screen"
    );
    assert_eq!(usage(optional_index(&args(&["x"]), "paste").unwrap_err()), "paste: 'x' is not an index");
    assert_eq!(
        usage(optional_index(&args(&["1", "2"]), "paste").unwrap_err()),
        "paste: unexpected argument '2'"
    );
    assert_eq!(usage(required_index(&args(&[]), "rm").unwrap_err()), "rm: missing INDEX");
    assert_eq!(required_index(&args(&["4"]), "rm").unwrap(), 4);
}

#[test]
fn help_text_fills_in_version_and_defaults() {
    let help = help_text();
    assert!(help.starts_with("clipring 0.1.0 — terminal clipboard history over OSC 52\n"));
    assert!(help.contains("(default 100000)"));
    assert!(help.contains("(default 50)"));
    assert!(help.ends_with("CLIPRING_WRAP      Default for --wrap\n"));
    assert_eq!(DEFAULT_CAPACITY, 50);
}

#[test]
fn globals_are_taken_before_or_after_the_command() {
    let g = split_args(&args(&["--state", "/s", "copy", "--capacity", "5", "hello"])).unwrap();
    assert_eq!(g.state_flag.as_deref(), Some("/s"));
    assert_eq!(g.capacity_flag, Some(5));
    assert_eq!(g.command.as_deref(), Some("copy"));
    assert_eq!(g.rest, args(&["hello"]));
    let g = split_args(&args(&["copy", "--", "--capacity", "5"])).unwrap();
    assert_eq!(g.capacity_flag, None);
    assert_eq!(g.rest, args(&["--", "--capacity", "5"]));
    let g = split_args(&args(&["--", "x"])).unwrap();
    assert_eq!(g.command.as_deref(), Some("--"));
    assert_eq!(usage(split_args(&args(&["list", "--state"])).err().unwrap()), "--state needs a value");
    assert_eq!(
        usage(split_args(&args(&["--capacity", "lots"])).err().unwrap()),
        "--capacity: 'lots' is not a non-negative integer"
    );
}

#[test]
fn settling_globals_reads_flags_then_environment() {
    assert_eq!(
        settle_globals(Some("/a"), Some(3), None, None, Some("/h"), Some("9")).unwrap(),
        ("/a".to_string(), 3)
    );
    assert_eq!(
        settle_globals(None, None, None, None, Some("/h"), Some("9")).unwrap(),
        ("/h/.local/state/clipring".to_string(), 9)
    );
    assert_eq!(
        settle_globals(None, None, Some("/e"), None, None, None).unwrap(),
        ("/e".to_string(), DEFAULT_CAPACITY)
    );
    match settle_globals(None, None, None, None, None, None).unwrap_err() {
        CliError::Op(m) => assert_eq!(m, "cannot locate a state directory: set $HOME or $CLIPRING_STATE"),
        other => panic!("expected op error, got {other:?}"),
    }
    assert_eq!(
        usage(settle_globals(None, None, Some("/e"), None, None, Some("x")).unwrap_err()),
        "$CLIPRING_CAPACITY: 'x' is not a non-negative integer"
    );
}

#[test]
fn command_words_and_aliases() {
    assert_eq!(command_of(Some("c")).unwrap(), Command::Copy);
    assert_eq!(command_of(Some("ls")).unwrap(), Command::List);
    assert_eq!(command_of(Some("-V")).unwrap(), Command::Version);
    assert_eq!(command_of(Some("help")).unwrap(), Command::Help);
    assert_eq!(command_of(Some("unpin")).unwrap(), Command::Unpin);
    assert_eq!(usage(command_of(None).unwrap_err()), "no command given");
    assert_eq!(usage(command_of(Some("frobnicate")).unwrap_err()), "unknown command 'frobnicate'");
}

#[test]
fn copy_arguments_split_flags_from_text() {
    let c = copy_args(&args(&["--no-store", "two", "-", "words", "--trim"]), base_opts(), Wrap::Tmux)
        .unwrap();
    assert!(!c.store && c.emit && c.trim);
    assert_eq!(c.text_args, args(&["two", "-", "words"]));
    let c = copy_args(&args(&["--primary", "--wrap", "auto", "--", "--no-emit"]), base_opts(), Wrap::Screen)
        .unwrap();
    assert_eq!(c.opts.selection, Selection::Primary);
    assert_eq!(c.opts.wrap, Wrap::Screen);
    assert!(c.emit);
    assert_eq!(c.text_args, args(&["--no-emit"]));
    let c = copy_args(&args(&["--limit", "16", "--stdout", "--no-emit"]), base_opts(), Wrap::Bare).unwrap();
    assert_eq!(c.opts.limit, 16);
    assert!(c.opts.force_stdout && !c.emit);
    assert_eq!(
        usage(copy_args(&args(&["--bogus"]), base_opts(), Wrap::Bare).err().unwrap()),
        "copy: unknown flag '--bogus'"
    );
    assert_eq!(
        usage(copy_args(&args(&["--limit"]), base_opts(), Wrap::Bare).err().unwrap()),
        "--limit needs a value"
    );
}

#[test]
fn emit_options_come_from_the_environment_then_flags() {
    let o = EmitOpts::from_env(Some("tmux"), Some("7"), Wrap::Screen).unwrap();
    assert_eq!((o.selection, o.wrap, o.limit, o.force_stdout), (Selection::Clipboard, Wrap::Tmux, 7, false));
    let o = EmitOpts::from_env(Some("auto"), None, Wrap::Screen).unwrap();
    assert_eq!((o.wrap, o.limit), (Wrap::Screen, DEFAULT_LIMIT));
    assert_eq!(
        usage(EmitOpts::from_env(None, Some("-5"), Wrap::Bare).unwrap_err()),
        "$CLIPRING_LIMIT: '-5' is not a non-negative integer"
    );
    let (o, print) = emit_args(&args(&["--print", "--primary"]), base_opts(), true, "pick", Wrap::Bare).unwrap();
    assert!(print);
    assert_eq!(o.selection, Selection::Primary);
    assert_eq!(
        usage(emit_args(&args(&["--print"]), base_opts(), false, "emit", Wrap::Bare).unwrap_err()),
        "emit: unknown flag '--print'"
    );
}

#[test]
fn over_limit_reports_payload_and_limit() {
    let mut o = base_opts();
    o.limit = 16;
    assert_eq!(o.over_limit(&[0u8; 12]), None);
    assert_eq!(o.over_limit(&[0u8; 13]), Some((20, 16)));
    o.limit = 0;
    assert_eq!(o.over_limit(&[0u8; 1000]), None);
}

#[test]
fn list_search_and_lone_flags() {
    assert_eq!(list_args(&args(&["--json", "-n", "2"])).unwrap(), (true, Some(2)));
    assert_eq!(list_args(&args(&["--count", "0"])).unwrap(), (false, Some(0)));
    assert_eq!(usage(list_args(&args(&["--count"])).unwrap_err()), "-n needs a value");
    assert_eq!(usage(list_args(&args(&["-x"])).unwrap_err()), "list: unknown flag '-x'");
    assert_eq!(search_args(&args(&["sel", "--json"])).unwrap(), (true, "sel".to_string()));
    assert_eq!(usage(search_args(&args(&["--json"])).unwrap_err()), "search: missing PATTERN");
    assert_eq!(usage(search_args(&args(&["a", "b"])).unwrap_err()), "search: unexpected argument 'b'");
    assert!(!lone_flag(&args(&[]), "--all", "clear").unwrap());
    assert!(lone_flag(&args(&["--all"]), "--all", "clear").unwrap());
    assert_eq!(
        usage(lone_flag(&args(&["--all", "x"]), "--all", "clear").unwrap_err()),
        "clear: unknown flag '--all'"
    );
    assert_eq!(usage(lone_flag(&args(&["-j"]), "--json", "decode").unwrap_err()), "decode: unknown flag '-j'");
}

#[test]
fn copy_data_and_status_lines() {
    assert!(reads_stdin(&args(&[])));
    assert!(reads_stdin(&args(&["-"])));
    assert!(!reads_stdin(&args(&["-", "x"])));
    assert_eq!(copy_text(&args(&["two", "words"])), b"two words");
    let mut d = b"  spaced  \n\r\n".to_vec();
    trim_line_ends(&mut d);
    assert_eq!(d, b"  spaced  ");
    assert_eq!(
        copy_note(true, "5 B", EmitOutcome::Sent(Selection::Clipboard, false, Wrap::Bare), 1, 50),
        "clipring: copied 5 B -> clipboard via stdout [none] (history: 1/50)"
    );
    assert_eq!(
        copy_note(true, "100 B", EmitOutcome::OverLimit(136, 16), 1, 50),
        "clipring: copied 100 B; NOT sent to terminal: payload 136 B exceeds limit 16 B (--limit 0 lifts it) (history: 1/50)"
    );
    assert_eq!(
        copy_note(false, "1 B", EmitOutcome::NotEmitted, 0, 3),
        "clipring: copied (unstored) 1 B (stored only) (history: 0/3)"
    );
}

#[test]
fn other_status_lines() {
    assert_eq!(pick_prompt(3), "pick (0-2, q to cancel)> ");
    assert_eq!(recopied(1, "6 B", true), "clipring: re-copied entry 1 (6 B) via /dev/tty");
    assert_eq!(cleared(1, 1, false), "clipring: removed 1 entry, kept 1 pinned");
    assert_eq!(cleared(2, 0, false), "clipring: removed 2 entries");
    assert_eq!(cleared(3, 4, true), "clipring: removed 3 entries");
    assert_eq!(pinned_note(true, 2), "clipring: pinned entry 2");
    assert_eq!(pinned_note(false, 0), "clipring: unpinned entry 0");
    let e = Entry { id: 1, at_ms: 0, pinned: false, data: b"gone\nnext".to_vec() };
    assert_eq!(removed(0, &e), "clipring: removed entry 0 (9 B): gone…");
    assert_eq!(skipped_warning(1, "/s/history.jsonl"), "clipring: warning: skipped 1 damaged history line(s) in /s/history.jsonl");
    assert_eq!(history_path("/s"), "/s/history.jsonl");
    assert_eq!(history_path("/s/"), "/s/history.jsonl");
    let mut ring = Ring::new(50);
    ring.push(b"only".to_vec(), 0);
    assert_eq!(index_error(3, &ring), "no entry 3 (history has 1 entry)");
}

#[test]
fn info_reports_counts_and_settings() {
    let mut ring = Ring::new(50);
    ring.push(b"x".to_vec(), 0);
    ring.set_pinned(0, true).unwrap();
    let text = info_text("/s/history.jsonl", &ring, &base_opts(), false);
    assert_eq!(
        text,
        "clipring 0.1.0\nstate:    /s/history.jsonl\nentries:  1 (1 pinned)\ncapacity: 50\nwrap:     none\nlimit:    100000 bytes of base64\ntty:      stdout is piped\n"
    );
}

#[test]
fn decode_json_line_describes_the_capture() {
    let seq = sequence(Selection::Primary, b"meta", Wrap::Bare);
    let caps = extract(&seq);
    let line = capture_json(&caps[0]);
    assert_eq!(line, r#"{"selection":"p","size":4,"text":true,"preview":"meta"}"#);
}

fn op(e: CliError) -> String {
    match e {
        CliError::Op(m) => m,
        other => panic!("expected op error, got {other:?}"),
    }
}

#[test]
fn empty_input_and_empty_history_are_refused() {
    assert!(require_input(b"x", "copy").is_ok());
    assert_eq!(op(require_input(b"", "copy").unwrap_err()), "nothing to copy (stdin was empty)");
    assert_eq!(op(require_input(b"", "emit").unwrap_err()), "nothing to emit (stdin was empty)");
    let mut ring = Ring::new(5);
    assert_eq!(op(paste_entry(&ring, 0).err().unwrap()), "history is empty");
    assert_eq!(op(pick_ready(&ring).unwrap_err()), "history is empty — nothing to pick");
    ring.push(b"only".to_vec(), 0);
    assert_eq!(paste_entry(&ring, 0).unwrap().data, b"only");
    assert_eq!(op(paste_entry(&ring, 1).err().unwrap()), "no entry 1 (history has 1 entry)");
    assert!(pick_ready(&ring).is_ok());
    assert_eq!(cancelled(), "clipring: cancelled");
}

#[test]
fn list_and_search_reports() {
    let mut ring = Ring::new(5);
    let (note, lines) = list_report(&ring, false, None, 0);
    assert_eq!(note.as_deref(), Some("clipring: history is empty"));
    assert!(lines.is_empty());
    let (note, lines) = list_report(&ring, true, None, 0);
    assert!(note.is_none() && lines.is_empty());
    ring.push(b"alpha".to_vec(), 0);
    ring.push(b"beta".to_vec(), 0);
    let (note, lines) = list_report(&ring, false, Some(1), 0);
    assert!(note.is_none());
    assert_eq!(lines, vec!["    0   now       4 B  beta".to_string()]);
    let (_, lines) = list_report(&ring, true, None, 0);
    assert_eq!(lines.len(), 2);
    assert!(lines[1].starts_with(r#"{"index":1,"id":1,"#));
    let (status, note, lines) = search_report(&ring, &ring.search("ALP"), "ALP", false, 0);
    assert_eq!(status, 0);
    assert!(note.is_none());
    assert_eq!(lines, vec!["    1   now       5 B  alpha".to_string()]);
    let (status, note, lines) = search_report(&ring, &ring.search("zzz"), "zzz", true, 0);
    assert_eq!(status, 1);
    assert_eq!(note.as_deref(), Some("clipring: no entry matches 'zzz'"));
    assert!(lines.is_empty());
}

#[test]
fn decode_reports_status_and_bytes() {
    let (status, note, out) = decode_report(&extract(b"plain text"), false);
    assert_eq!(status, 1);
    assert_eq!(note.as_deref(), Some("clipring: no OSC 52 sequences found in input"));
    assert!(out.is_empty());
    let mut stream = sequence(Selection::Clipboard, b"one", Wrap::Bare);
    stream.extend(sequence(Selection::Primary, b"two", Wrap::Screen));
    let caps = extract(&stream);
    let (status, note, out) = decode_report(&caps, false);
    assert_eq!((status, note), (0, None));
    assert_eq!(out, b"onetwo");
    let (_, _, out) = decode_report(&caps, true);
    assert_eq!(
        String::from_utf8(out).unwrap(),
        "{\"selection\":\"c\",\"size\":3,\"text\":true,\"preview\":\"one\"}\n{\"selection\":\"p\",\"size\":3,\"text\":true,\"preview\":\"two\"}\n"
    );
}

#[test]
fn history_path_in_an_empty_directory_is_the_file_name() {
    assert_eq!(history_path(""), "history.jsonl");
}
