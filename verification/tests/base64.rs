use clipring::base64::{decode, encode};

#[test]
fn rfc4648_vectors_encode_and_decode() {
    // The canonical RFC 4648 §10 test vectors pin the alphabet and
    // padding behavior exactly, in both directions.
    for (raw, b64) in [
        (&b""[..], ""),
        (b"f", "Zg=="),
        (b"fo", "Zm8="),
        (b"foo", "Zm9v"),
        (b"foob", "Zm9vYg=="),
        (b"fooba", "Zm9vYmE="),
        (b"foobar", "Zm9vYmFy"),
    ] {
        assert_eq!(encode(raw), b64);
        assert_eq!(decode(b64).unwrap(), raw);
    }
}

#[test]
fn decodes_unpadded_input() {
    assert_eq!(decode("Zg").unwrap(), b"f");
    assert_eq!(decode("Zm8").unwrap(), b"fo");
}

#[test]
fn decode_skips_interleaved_whitespace() {
    assert_eq!(decode("Zm 9v\nYm\r\nFy").unwrap(), b"foobar");
}

#[test]
fn round_trips_all_byte_values() {
    let data: Vec<u8> = (0u8..=255).collect();
    assert_eq!(decode(&encode(&data)).unwrap(), data);
}

#[test]
fn round_trips_every_tail_length() {
    for n in 0..=6usize {
        let data = vec![0xA5u8; n];
        assert_eq!(decode(&encode(&data)).unwrap(), data, "len {n}");
    }
}

#[test]
fn rejects_malformed_input() {
    let err = decode("Zm9*").unwrap_err();
    assert!(err.contains("0x2a"), "err was: {err}");
    assert!(decode("Zm9vY").is_err());
    assert!(decode("Zg==Zg==").is_err());
}

#[test]
fn encode_output_is_ascii_and_4_aligned() {
    let s = encode(&[0, 159, 146, 150]);
    assert!(s.is_ascii());
    assert_eq!(s.len() % 4, 0);
}

#[test]
fn decode_of_encode_gives_back_every_prefix_of_a_binary_buffer() {
    let data: Vec<u8> = (0u8..=255).rev().chain(0u8..40).collect();
    for n in 0..data.len() {
        assert_eq!(decode(&encode(&data[..n])).unwrap(), &data[..n]);
    }
}

#[test]
fn encoded_length_is_four_per_started_triple() {
    for n in 0..20usize {
        assert_eq!(encode(&vec![1u8; n]).len(), (n + 2) / 3 * 4);
    }
}

#[test]
fn decode_errors_say_exactly_what_went_wrong() {
    assert_eq!(decode("Zm9*").unwrap_err(), "invalid base64 byte 0x2a at 3");
    assert_eq!(decode("Zm9vY").unwrap_err(), "truncated base64: lone trailing sextet");
    assert_eq!(decode("Zg==Zg==").unwrap_err(), "data after '=' padding at byte 4");
}

#[test]
fn empty_and_whitespace_only_input_decode_to_nothing() {
    assert_eq!(decode("").unwrap(), Vec::<u8>::new());
    assert_eq!(decode(" \n\r\t").unwrap(), Vec::<u8>::new());
}

#[test]
fn whitespace_anywhere_is_transparent() {
    for s in ["Zm9vYmFy", "Zg==", "Zm8", "Zm9vY", "Zm9*"] {
        let plain = decode(s);
        for i in 0..=s.len() {
            for w in [" ", "\t", "\n", "\r", "\u{c}"] {
                let spaced = format!("{}{}{}", &s[..i], w, &s[i..]);
                let got = decode(&spaced);
                assert_eq!(got.is_ok(), plain.is_ok(), "{spaced:?}");
                if let Ok(d) = &plain {
                    assert_eq!(got.as_ref().unwrap(), d, "{spaced:?}");
                }
            }
        }
    }
}
