use std::path::PathBuf;

use clipring::ring::{Entry, Ring};
use clipring::store::{
    entry_from_line, entry_to_line, history_text, parse_history, resolve_state_dir, ring_from_text,
    HISTORY_FILE,
};

#[test]
fn record_round_trips_binary_and_pin_state() {
    let entry = Entry {
        id: 12,
        at_ms: 1_752_300_000_123,
        pinned: true,
        data: vec![0, 1, 2, 0xff, b'\n'],
    };
    let line = entry_to_line(&entry);
    assert_eq!(entry_from_line(&line).unwrap(), entry);
}

#[test]
fn record_rejects_missing_fields_and_wrong_types() {
    let err = entry_from_line(r#"{"id":1,"t":2,"pin":false}"#).unwrap_err();
    assert!(err.contains("data"), "err was: {err}");
    assert!(entry_from_line(r#"{"id":"x","t":2,"pin":false,"data":""}"#).is_err());
    assert!(entry_from_line(r#"{"id":1,"t":2,"pin":false,"data":"@@"}"#).is_err());
}

#[test]
fn resolve_state_dir_precedence() {
    let flag = resolve_state_dir(Some("/a"), Some("/b"), Some("/c"), Some("/d")).unwrap();
    assert_eq!(PathBuf::from(flag), PathBuf::from("/a"));
    let env = resolve_state_dir(None, Some("/b"), Some("/c"), Some("/d")).unwrap();
    assert_eq!(PathBuf::from(env), PathBuf::from("/b"));
    let xdg = resolve_state_dir(None, None, Some("/c"), Some("/d")).unwrap();
    assert_eq!(PathBuf::from(xdg), PathBuf::from("/c/clipring"));
    let home = resolve_state_dir(None, None, None, Some("/d")).unwrap();
    assert_eq!(PathBuf::from(home), PathBuf::from("/d/.local/state/clipring"));
    assert!(resolve_state_dir(None, None, None, None).is_err());
}

#[test]
fn resolve_state_dir_ignores_empty_xdg() {
    let dir = resolve_state_dir(None, None, Some(""), Some("/d")).unwrap();
    assert_eq!(PathBuf::from(dir), PathBuf::from("/d/.local/state/clipring"));
}

#[test]
fn state_dir_errors_and_trailing_slashes() {
    assert_eq!(
        resolve_state_dir(Some(""), Some("/b"), None, None).unwrap_err(),
        "state directory is empty"
    );
    assert_eq!(
        resolve_state_dir(None, None, Some(""), Some("")).unwrap_err(),
        "cannot locate a state directory: set $HOME or $CLIPRING_STATE"
    );
    assert_eq!(resolve_state_dir(None, None, Some("/c/"), None).unwrap(), "/c/clipring");
    assert_eq!(
        resolve_state_dir(None, None, None, Some("/home/u")).unwrap(),
        "/home/u/.local/state/clipring"
    );
}

#[test]
fn records_are_single_lines_with_fixed_field_order() {
    let entry = Entry { id: 7, at_ms: 9, pinned: false, data: b"hi".to_vec() };
    assert_eq!(entry_to_line(&entry), r#"{"id":7,"t":9,"pin":false,"data":"aGk="}"#);
}

#[test]
fn record_errors_say_which_field_is_wrong() {
    assert_eq!(
        entry_from_line(r#"{"t":2,"pin":false,"data":""}"#).unwrap_err(),
        "missing field 'id'"
    );
    assert_eq!(
        entry_from_line(r#"{"id":"x","t":2,"pin":false,"data":""}"#).unwrap_err(),
        "'id' is not an integer"
    );
    assert_eq!(
        entry_from_line(r#"{"id":1,"t":true,"pin":false,"data":""}"#).unwrap_err(),
        "'t' is not an integer"
    );
    assert_eq!(
        entry_from_line(r#"{"id":1,"t":2,"pin":0,"data":""}"#).unwrap_err(),
        "'pin' is not a bool"
    );
    assert_eq!(
        entry_from_line(r#"{"id":1,"t":2,"pin":true,"data":5}"#).unwrap_err(),
        "'data' is not a string"
    );
    assert_eq!(
        entry_from_line(r#"{"id":1,"t":2,"pin":false,"data":"@@"}"#).unwrap_err(),
        "bad 'data': invalid base64 byte 0x40 at 0"
    );
}

#[test]
fn history_text_reads_back_as_the_same_entries() {
    let mut ring = Ring::new(50);
    ring.push(b"one".to_vec(), 100);
    ring.push(vec![0, 0xff, b'\n', b'"'], 200);
    ring.push("two\r\nlines 🎉".as_bytes().to_vec(), 300);
    ring.set_pinned(1, true).unwrap();
    let text = history_text(&ring);
    assert_eq!(text.lines().count(), 3);
    let (entries, skipped) = parse_history(&text);
    assert_eq!(skipped, 0);
    let original: Vec<Entry> = ring.iter().cloned().collect();
    assert_eq!(entries, original);
}

#[test]
fn damaged_and_blank_lines_are_counted_or_ignored() {
    let good = entry_to_line(&Entry { id: 1, at_ms: 5, pinned: false, data: b"ok".to_vec() });
    let text = format!("{good}\r\n\n   \t\n{{\"id\":2,\"t\":6,\"pin\":fal\nnot json at all\n{good}");
    let (entries, skipped) = parse_history(&text);
    assert_eq!(entries.len(), 2);
    assert_eq!(skipped, 2);
    assert_eq!(entries[0].data, b"ok");
}

#[test]
fn empty_history_text_has_no_entries() {
    assert_eq!(parse_history(""), (Vec::new(), 0));
    assert_eq!(history_text(&Ring::new(3)), "");
    assert_eq!(HISTORY_FILE, "history.jsonl");
}

#[test]
fn a_reloaded_ring_is_the_saved_ring() {
    let mut ring = Ring::new(3);
    for (i, s) in ["a", "b", "c", "d", "b"].iter().enumerate() {
        ring.push(s.as_bytes().to_vec(), i as u64);
    }
    ring.set_pinned(2, true).unwrap();
    let (entries, skipped) = parse_history(&history_text(&ring));
    assert_eq!(skipped, 0);
    let mut reloaded = Ring::from_entries(entries, ring.capacity());
    let a: Vec<Entry> = ring.iter().cloned().collect();
    let b: Vec<Entry> = reloaded.iter().cloned().collect();
    assert_eq!(a, b);
    assert!(reloaded.next_id() <= ring.next_id());
    reloaded.push(b"fresh".to_vec(), 9);
    assert!(ring.iter().all(|e| e.id != reloaded.get(0).unwrap().id));
}

#[test]
fn ring_from_text_rebuilds_and_refuses_the_last_id() {
    let a = entry_to_line(&Entry { id: 3, at_ms: 1, pinned: false, data: b"a".to_vec() });
    let b = entry_to_line(&Entry { id: 8, at_ms: 2, pinned: true, data: b"b".to_vec() });
    let c = entry_to_line(&Entry { id: 5, at_ms: 3, pinned: false, data: b"c".to_vec() });
    let (ring, skipped) = ring_from_text(&format!("{a}\n{b}\n\n{c}\ngarbage\n"), 1).unwrap();
    assert_eq!(skipped, 1);
    let ids: Vec<u64> = ring.iter().map(|e| e.id).collect();
    assert_eq!(ids, vec![3, 8]);
    assert_eq!(ring.next_id(), 9);
    let max = entry_to_line(&Entry { id: u64::MAX, at_ms: 0, pinned: false, data: vec![] });
    assert!(ring_from_text(&max, 5).is_none());
    let (empty, skipped) = ring_from_text("", 5).unwrap();
    assert!(empty.is_empty() && skipped == 0 && empty.capacity() == 5);
}
