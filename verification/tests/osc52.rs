use clipring::base64;
use clipring::osc52::{detect_wrap, extract, payload_len, sequence, Selection, Wrap};

fn split_dcs_bodies(seq: &[u8]) -> Vec<Vec<u8>> {
    let mut bodies = Vec::new();
    let mut i = 0;
    while i + 1 < seq.len() {
        assert_eq!(&seq[i..i + 2], b"\x1bP", "chunk must start with DCS");
        let mut j = i + 2;
        while !(seq[j] == 0x1b && seq[j + 1] == b'\\') {
            j += 1;
        }
        bodies.push(seq[i + 2..j].to_vec());
        i = j + 2;
    }
    bodies
}

#[test]
fn bare_sequence_has_exact_frame_per_selection() {
    let seq = sequence(Selection::Clipboard, b"hi", Wrap::Bare);
    assert_eq!(seq, b"\x1b]52;c;aGk=\x07");
    let seq = sequence(Selection::Primary, b"hi", Wrap::Bare);
    assert_eq!(seq, b"\x1b]52;p;aGk=\x07");
}

#[test]
fn tmux_wrap_doubles_inner_escapes() {
    let seq = sequence(Selection::Clipboard, b"x", Wrap::Tmux);
    assert!(seq.starts_with(b"\x1bPtmux;"));
    assert!(seq.ends_with(b"\x1b\\"));
    let body = &seq[7..seq.len() - 2];
    assert!(body.starts_with(b"\x1b\x1b]52;c;"));
    assert_eq!(body.iter().filter(|&&b| b == 0x07).count(), 1);
}

#[test]
fn screen_wrap_chunks_long_sequences() {
    let seq = sequence(Selection::Clipboard, &vec![b'a'; 2000], Wrap::Screen);
    let chunks = seq.windows(2).filter(|w| w == b"\x1bP").count();
    assert!(chunks >= 4, "expected >=4 chunks, got {chunks}");
    for part in split_dcs_bodies(&seq) {
        assert!(part.len() <= 768, "chunk of {} bytes", part.len());
    }
}

#[test]
fn detect_prefers_tmux_over_screen_term() {
    assert_eq!(
        detect_wrap(Some("/tmp/tmux-0/default,42,0"), Some("screen-256color")),
        Wrap::Tmux
    );
    assert_eq!(detect_wrap(None, Some("screen.xterm-256color")), Wrap::Screen);
    assert_eq!(detect_wrap(None, Some("xterm-256color")), Wrap::Bare);
    assert_eq!(detect_wrap(Some(""), Some("xterm")), Wrap::Bare);
    assert_eq!(detect_wrap(None, None), Wrap::Bare);
}

#[test]
fn extract_reads_bare_sequence() {
    let caps = extract(b"noise\x1b]52;c;aGVsbG8=\x07more");
    assert_eq!(caps.len(), 1);
    assert_eq!(caps[0].selection, "c");
    assert_eq!(caps[0].data, b"hello");
}

#[test]
fn extract_accepts_st_terminator() {
    let caps = extract(b"\x1b]52;p;aGk=\x1b\\");
    assert_eq!(caps[0].selection, "p");
    assert_eq!(caps[0].data, b"hi");
}

#[test]
fn extract_round_trips_tmux_wrap() {
    let data = b"tmux carried this".to_vec();
    let seq = sequence(Selection::Clipboard, &data, Wrap::Tmux);
    let caps = extract(&seq);
    assert_eq!(caps.len(), 1);
    assert_eq!(caps[0].data, data);
}

#[test]
fn extract_round_trips_screen_chunks() {
    let data = vec![7u8; 3000];
    let seq = sequence(Selection::Clipboard, &data, Wrap::Screen);
    let caps = extract(&seq);
    assert_eq!(caps.len(), 1);
    assert_eq!(caps[0].data, data);
}

#[test]
fn extract_round_trips_binary_data() {
    let data: Vec<u8> = (0u8..=255).collect();
    for wrap in [Wrap::Bare, Wrap::Tmux, Wrap::Screen] {
        let seq = sequence(Selection::Clipboard, &data, wrap);
        assert_eq!(extract(&seq)[0].data, data, "wrap {wrap:?}");
    }
}

#[test]
fn extract_finds_multiple_sets_in_order() {
    let mut stream = sequence(Selection::Clipboard, b"first", Wrap::Bare);
    stream.extend_from_slice(b"\x1b[1mother escapes\x1b[0m");
    stream.extend(sequence(Selection::Primary, b"second", Wrap::Tmux));
    let caps = extract(&stream);
    assert_eq!(caps.len(), 2);
    assert_eq!(caps[0].data, b"first");
    assert_eq!(caps[1].data, b"second");
    assert_eq!(caps[1].selection, "p");
}

#[test]
fn extract_skips_protocol_chatter_and_damage() {
    let caps = extract(b"\x1b]52;c;?\x07\x1b]52;c;eWVz\x07");
    assert_eq!(caps.len(), 1);
    assert_eq!(caps[0].data, b"yes");
    assert!(extract(b"\x1b]52;c;!not-base64!\x07").is_empty());
    assert!(extract(b"\x1b]52;c;aGVsbG8=").is_empty());
}

#[test]
fn payload_len_matches_encoded_length() {
    for n in [0usize, 1, 2, 3, 100, 1000] {
        let data = vec![0u8; n];
        assert_eq!(payload_len(&data), base64::encode(&data).len(), "n={n}");
    }
}

#[test]
fn every_wrap_and_selection_reads_back_as_written() {
    for sel in [Selection::Clipboard, Selection::Primary] {
        for wrap in [Wrap::Bare, Wrap::Tmux, Wrap::Screen] {
            for n in [0usize, 1, 5, 700, 2500] {
                let data: Vec<u8> = (0..n).map(|i| (i * 7 % 256) as u8).collect();
                let caps = extract(&sequence(sel, &data, wrap));
                assert_eq!(caps.len(), 1, "{sel:?} {wrap:?} {n}");
                assert_eq!(caps[0].selection, sel.param());
                assert_eq!(caps[0].data, data);
            }
        }
    }
}

#[test]
fn names_and_params_are_the_protocol_words() {
    assert_eq!(Selection::Clipboard.param(), "c");
    assert_eq!(Selection::Primary.param(), "p");
    assert_eq!(Wrap::Bare.name(), "none");
    assert_eq!(Wrap::Tmux.name(), "tmux");
    assert_eq!(Wrap::Screen.name(), "screen");
}

#[test]
fn screen_term_must_start_with_screen() {
    assert_eq!(detect_wrap(None, Some("screen")), Wrap::Screen);
    assert_eq!(detect_wrap(None, Some("xscreen")), Wrap::Bare);
    assert_eq!(detect_wrap(None, Some("scree")), Wrap::Bare);
}

#[test]
fn selection_parameter_is_read_as_text_with_replacement() {
    let caps = extract(b"\x1b]52;s0;aGk=\x07\x1b]52;\xff;aGk=\x07");
    assert_eq!(caps.len(), 2);
    assert_eq!(caps[0].selection, "s0");
    assert_eq!(caps[1].selection, "\u{FFFD}");
    assert_eq!(caps[1].data, b"hi");
}

#[test]
fn a_set_cut_short_does_not_hide_the_next_one() {
    let caps = extract(b"\x1b]52;c;aGk\x1b]52;c;aGk=\x07");
    assert_eq!(caps.len(), 1);
    assert_eq!(caps[0].selection, "c");
    assert_eq!(caps[0].data, b"hi");
    let caps = extract(b"\x1b]52;c;aGk=\x1b[0m\x07");
    assert!(caps.is_empty());
    let mut stream = b"\x1b]52;c;trunc".to_vec();
    stream.extend(sequence(Selection::Primary, b"after", Wrap::Tmux));
    let caps = extract(&stream);
    assert_eq!(caps.len(), 1);
    assert_eq!(caps[0].data, b"after");
}

#[test]
fn an_escape_in_the_selection_parameter_stays_in_it() {
    let caps = extract(b"\x1b]52;c\x1b;aGk=\x07");
    assert_eq!(caps.len(), 1);
    assert_eq!(caps[0].selection, "c\u{1b}");
    assert_eq!(caps[0].data, b"hi");
    // The selection runs to the first `;`, so a second introducer before it
    // is part of the selection and the payload that follows is not base64.
    let caps = extract(b"\x1b]52;c\x1b]52;p;eWVz\x1b\\");
    assert!(caps.is_empty());
}
