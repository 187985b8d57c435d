use clipring::textutil::{human_age, human_size, preview};

#[test]
fn preview_takes_first_line_and_marks_continuation() {
    assert_eq!(preview(b"one line", 40), "one line");
    assert_eq!(preview(b"first\nsecond", 40), "first…");
    assert_eq!(preview(b"trailing newline\n", 40), "trailing newline");
    assert_eq!(preview(b"crlf line\r\nnext", 40), "crlf line…");
    assert_eq!(preview(b"a\tb", 40), "a b", "tabs flatten to spaces");
}

#[test]
fn preview_truncates_at_char_boundary() {
    assert_eq!(preview("héllo wörld".as_bytes(), 5), "héllo…");
    assert_eq!(preview("日本語テキスト".as_bytes(), 3), "日本語…");
}

#[test]
fn preview_neutralizes_escape_sequences() {
    let p = preview(b"\x1b[31mred\x1b[0m", 40);
    assert!(!p.contains('\x1b'), "preview leaked ESC: {p:?}");
    assert!(p.contains("red"));
}

#[test]
fn preview_sketches_binary() {
    let p = preview(&[0x89, 0x50, 0x4e, 0x47, 0xff], 40);
    assert_eq!(p, "(binary: 89 50 4e 47 ff)");
    let long = preview(&[0u8; 100], 40);
    assert!(long.ends_with('…'), "long binary gets ellipsis: {long}");
}

#[test]
fn human_size_boundaries() {
    assert_eq!(human_size(0), "0 B");
    assert_eq!(human_size(1023), "1023 B");
    assert_eq!(human_size(1024), "1.0 KB");
    assert_eq!(human_size(1536), "1.5 KB");
    assert_eq!(human_size(1024 * 1024), "1.0 MB");
    assert_eq!(human_size(5 * 1024 * 1024 * 1024), "5.0 GB");
}

#[test]
fn human_age_buckets_and_clock_skew() {
    let now = 1_000_000_000;
    assert_eq!(human_age(now, now), "now");
    assert_eq!(human_age(now, now - 1_500), "now");
    assert_eq!(human_age(now, now - 45_000), "45s");
    assert_eq!(human_age(now, now - 12 * 60_000), "12m");
    assert_eq!(human_age(now, now - 5 * 3_600_000), "5h");
    assert_eq!(human_age(now, now - 9 * 86_400_000), "9d");
    assert_eq!(human_age(1000, 99_999_999), "now");
}

#[test]
fn human_size_rounds_like_float_formatting() {
    // 1280 / 1024 = 1.25 exactly: the tie goes to the even digit.
    assert_eq!(human_size(1280), "1.2 KB");
    assert_eq!(human_size(1331), "1.3 KB");
    assert_eq!(human_size(1_048_575), "1024.0 KB");
    assert_eq!(human_size(1_073_741_823), "1024.0 MB");
    assert_eq!(human_size(2 * 1024 * 1024 * 1024 * 1024), "2048.0 GB");
    assert_eq!(human_size(u64::MAX), "17179869184.0 GB");
    for n in [1024u64, 1500, 10_000, 123_456_789, 9_007_199_254_740_993, u64::MAX - 12345] {
        let mut v = n as f64;
        let mut unit = "B";
        for u in ["KB", "MB", "GB"] {
            v /= 1024.0;
            unit = u;
            if v < 1024.0 {
                break;
            }
        }
        assert_eq!(human_size(n), format!("{v:.1} {unit}"), "n={n}");
    }
}

#[test]
fn human_age_bucket_edges() {
    assert_eq!(human_age(1_999, 0), "now");
    assert_eq!(human_age(2_000, 0), "2s");
    assert_eq!(human_age(59_999, 0), "59s");
    assert_eq!(human_age(60_000, 0), "1m");
    assert_eq!(human_age(3_599_999, 0), "59m");
    assert_eq!(human_age(3_600_000, 0), "1h");
    assert_eq!(human_age(86_399_999, 0), "23h");
    assert_eq!(human_age(86_400_000, 0), "1d");
}

#[test]
fn preview_edges() {
    assert_eq!(preview(b"", 5), "");
    assert_eq!(preview(b"abc", 0), "…");
    assert_eq!(preview(b"abc", 3), "abc");
    assert_eq!(preview(b"abcd", 3), "abc…");
    assert_eq!(preview(b"abc\n", 3), "abc…");
    assert_eq!(preview(b"x\r", 40), "x…");
    assert_eq!(preview(b"\n", 40), "");
    assert_eq!(preview("\u{7f}\u{85}\u{a0}".as_bytes(), 40), "··\u{a0}");
    assert_eq!(preview(&[1, 2, 3, 4, 5, 6, 7, 8, 9], 40), "········ ");
    assert_eq!(preview(&[0xff, 1, 2, 3, 4, 5, 6, 7, 8], 40), "(binary: ff 01 02 03 04 05 06 07 …)");
    assert_eq!(preview(&[0xff, 1, 2, 3, 4, 5, 6, 7], 40), "(binary: ff 01 02 03 04 05 06 07)");
    assert_eq!(preview(&[0xc3], 40), "(binary: c3)");
}
