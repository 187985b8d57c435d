use clipring::picker::{format_row, menu_lines, parse_choice, PREVIEW_CHARS};
use clipring::ring::{Entry, Ring};

fn entry(data: &[u8], pinned: bool) -> Entry {
    Entry { id: 1, at_ms: 0, pinned, data: data.to_vec() }
}

#[test]
fn row_shows_pin_marker_index_age_size_preview() {
    let row = format_row(3, &entry(b"hello world", true), 45_000);
    assert_eq!(row, "*   3   45s      11 B  hello world");
    let row = format_row(0, &entry(b"x", false), 0);
    assert!(row.starts_with("    0"), "unpinned rows keep alignment: {row:?}");
}

#[test]
fn menu_lists_newest_first() {
    let mut ring = Ring::new(10);
    ring.push(b"older".to_vec(), 0);
    ring.push(b"newer".to_vec(), 1000);
    let lines = menu_lines(&ring, 2000);
    assert_eq!(lines.len(), 2);
    assert!(lines[0].contains("newer"));
    assert!(lines[1].contains("older"));
}

#[test]
fn choice_accepts_in_range_numbers() {
    assert_eq!(parse_choice("0", 3).unwrap(), Some(0));
    assert_eq!(parse_choice(" 2 \n", 3).unwrap(), Some(2));
}

#[test]
fn choice_cancels_on_empty_or_q() {
    assert_eq!(parse_choice("", 3).unwrap(), None);
    assert_eq!(parse_choice("\n", 3).unwrap(), None);
    assert_eq!(parse_choice("Q", 3).unwrap(), None);
}

#[test]
fn choice_rejects_bad_input_with_guidance() {
    let err = parse_choice("3", 3).unwrap_err();
    assert!(err.contains("0-2"), "err was: {err}");
    let err = parse_choice("abc", 5).unwrap_err();
    assert!(err.contains("0-4"), "err was: {err}");
    assert!(err.contains('q'), "err was: {err}");
}

#[test]
fn choice_messages_are_exact() {
    assert_eq!(parse_choice("3", 3).unwrap_err(), "index 3 out of range (0-2)");
    assert_eq!(parse_choice(" abc ", 5).unwrap_err(), "'abc' is not an index (enter 0-4, or q)");
    assert_eq!(
        parse_choice("99999999999999999999999", 2).unwrap_err(),
        "'99999999999999999999999' is not an index (enter 0-1, or q)"
    );
    assert_eq!(parse_choice("-1", 2).unwrap_err(), "'-1' is not an index (enter 0-1, or q)");
}

#[test]
fn choice_accepts_what_usize_parsing_accepts() {
    assert_eq!(parse_choice("+1", 2).unwrap(), Some(1));
    assert_eq!(parse_choice("\u{3000}q\u{a0}", 2).unwrap(), None);
    assert_eq!(parse_choice("q", 0).unwrap(), None);
    assert!(parse_choice("qq", 2).is_err());
    assert!(parse_choice("+", 2).is_err());
}

#[test]
fn rows_pad_each_column_and_never_cut() {
    let row = format_row(1234, &entry(b"a\tb\nc", false), 0);
    assert_eq!(row, "  1234   now       5 B  a b…");
    let big = Entry { id: 1, at_ms: 0, pinned: false, data: vec![b'z'; 2048] };
    let row = format_row(7, &big, 200 * 86_400_000);
    assert_eq!(row, format!("    7  200d    2.0 KB  {}…", "z".repeat(PREVIEW_CHARS)));
}

#[test]
fn rows_never_carry_control_characters() {
    for data in [&b"\x1b[31mred\x1b[0m"[..], b"\x07bell\x08", "\u{9b}csi".as_bytes(), b"\xff\x1b"] {
        let row = format_row(0, &entry(data, true), 0);
        assert!(!row.chars().any(|c| c.is_control()), "row leaked a control: {row:?}");
    }
}
