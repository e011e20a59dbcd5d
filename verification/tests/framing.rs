use lsp_framing::{parse_message, FrameError, ParseError};

const INITIALIZE: &str =
    r#"{"jsonrpc":"2.0","method":"initialize","id":1,"params":{"capabilities":{}}}"#;

fn parsed<'a>(rest: &'a str, body: &'a str) -> Result<(&'a [u8], &'a [u8]), ParseError> {
    Ok((rest.as_bytes(), body.as_bytes()))
}

fn incomplete(needed: usize) -> Result<(&'static [u8], &'static [u8]), ParseError> {
    Err(ParseError::Incomplete(needed))
}

fn failed(error: FrameError) -> Result<(&'static [u8], &'static [u8]), ParseError> {
    Err(ParseError::Failed(error))
}

#[test]
fn test_parse_exact() {
    let decoded =
        r#"{"jsonrpc":"2.0","method":"initialize","id":1,"params":{"capabilities":{}}}"#;
    let sample = format!("Content-Length: {}\r\n\r\n{}", decoded.len(), decoded);
    assert_eq!(
        parse_message(sample.as_bytes()),
        Ok(("".as_bytes(), decoded.as_bytes()))
    );
}

#[test]
fn test_optional_content_type() {
    let decoded =
        r#"{"jsonrpc":"2.0","method":"initialize","id":1,"params":{"capabilities":{}}}"#;
    let content_type = "Content-Type: application/vscode-jsonrpc; charset=utf-8".to_string();

    let sample = format!(
        "Content-Length: {}\r\n{}\r\n\r\n{}",
        decoded.len(),
        content_type,
        decoded
    );
    assert_eq!(
        parse_message(sample.as_bytes()),
        Ok(("".as_bytes(), decoded.as_bytes()))
    );
}

#[test]
fn test_incomplete_error_with_size() {
    let decoded =
        r#"{"jsonrpc":"2.0","method":"initialize","id":1,"params":{"capabilities":{}}}"#;

    let sample = format!("Content-Length: {}\r\n\r\n", decoded.len());
    assert_eq!(
        parse_message(sample.as_bytes()),
        Err(ParseError::Incomplete(decoded.len()))
    );

    assert_eq!(
        parse_message((sample + "{").as_bytes()),
        Err(ParseError::Incomplete(decoded.len() - 1))
    );
}

#[test]
fn two_byte_payload_and_nothing_behind_it() {
    assert_eq!(parse_message(b"Content-Length: 2\r\n\r\n{}"), parsed("", "{}"));
}

#[test]
fn payload_of_seventy_six_bytes_behind_a_typed_header() {
    let payload =
        r#"{"jsonrpc":"2.0","method":"initialize","id":10,"params":{"capabilities":{}}}"#;
    assert_eq!(payload.len(), 76);
    let sample = format!(
        "Content-Length: 76\r\nContent-Type: application/vscode-jsonrpc; charset=utf-8\r\n\r\n{}",
        payload
    );
    assert_eq!(parse_message(sample.as_bytes()), parsed("", payload));
}

#[test]
fn header_without_payload_asks_for_all_of_it() {
    assert_eq!(parse_message(b"Content-Length: 76\r\n\r\n"), incomplete(76));
    assert_eq!(parse_message(b"Content-Length: 76\r\n\r\n{"), incomplete(75));
}

#[test]
fn what_follows_the_payload_is_handed_back() {
    assert_eq!(
        parse_message(b"Content-Length: 2\r\n\r\n{}Content-Length: 4\r\n\r\nnull"),
        parsed("Content-Length: 4\r\n\r\nnull", "{}")
    );
    let (rest, _) = parse_message(b"Content-Length: 2\r\n\r\n{}Content-Length: 4\r\n\r\nnull").unwrap();
    assert_eq!(parse_message(rest), parsed("", "null"));
}

#[test]
fn payload_is_cut_by_length_and_not_by_content() {
    assert_eq!(parse_message(b"Content-Length: 3\r\n\r\n\r\n\r\n"), parsed("\n", "\r\n\r"));
    assert_eq!(parse_message(b"Content-Length: 0\r\n\r\n"), parsed("", ""));
    assert_eq!(parse_message(b"Content-Length: 0\r\n\r\nrest"), parsed("rest", ""));
    assert_eq!(parse_message(b"Content-Length: 1\r\n\r\n\xff\x00"), Ok((&b"\x00"[..], &b"\xff"[..])));
}

#[test]
fn leading_zeros_do_not_change_the_length() {
    assert_eq!(parse_message(b"Content-Length: 0002\r\n\r\n{}"), parsed("", "{}"));
    assert_eq!(
        parse_message(b"Content-Length: 0000000000000000000000000000000000000001\r\n\r\nx"),
        parsed("", "x")
    );
}

#[test]
fn round_trip_of_payloads_of_many_lengths() {
    for length in [0usize, 1, 9, 10, 11, 99, 100, 101, 255, 1000, 4096, 70000] {
        let payload: Vec<u8> = (0..length).map(|i| (i * 7 + 3) as u8).collect();
        let mut message = format!("Content-Length: {}\r\n\r\n", length).into_bytes();
        message.extend_from_slice(&payload);
        assert_eq!(parse_message(&message), Ok((&b""[..], &payload[..])));
    }
}

#[test]
fn every_proper_beginning_of_a_message_is_incomplete() {
    let plain = format!("Content-Length: {}\r\n\r\n{}", INITIALIZE.len(), INITIALIZE);
    let typed = format!(
        "Content-Length: {}\r\nContent-Type: application/vscode-jsonrpc; charset=utf8\r\n\r\n{}",
        INITIALIZE.len(),
        INITIALIZE
    );
    let spaced = "Content-Length: 3\r\nContent-Type: text/plain;   charset=utf-8\r\n\r\nabc".to_string();
    let bare = "Content-Length: 3\r\nContent-Type: text/plain\r\n\r\nabc".to_string();
    for message in [plain, typed, spaced, bare] {
        let bytes = message.as_bytes();
        assert!(matches!(parse_message(bytes), Ok((rest, _)) if rest.is_empty()));
        for cut in 0..bytes.len() {
            assert!(
                matches!(parse_message(&bytes[..cut]), Err(ParseError::Incomplete(n)) if n >= 1),
                "cut at {}",
                cut
            );
        }
    }
}

#[test]
fn needed_counts_the_bytes_that_the_step_in_hand_lacks() {
    assert_eq!(parse_message(b""), incomplete(16));
    assert_eq!(parse_message(b"C"), incomplete(15));
    assert_eq!(parse_message(b"Content-Length:"), incomplete(1));
    assert_eq!(parse_message(b"Content-Length: "), incomplete(1));
    assert_eq!(parse_message(b"Content-Length: 12"), incomplete(1));
    assert_eq!(parse_message(b"Content-Length: 12\r"), incomplete(1));
    assert_eq!(parse_message(b"Content-Length: 12\r\n"), incomplete(2));
    assert_eq!(parse_message(b"Content-Length: 12\r\n\r"), incomplete(1));
    assert_eq!(parse_message(b"Content-Length: 12\r\nC"), incomplete(13));
    assert_eq!(parse_message(b"Content-Length: 12\r\nContent-Type:"), incomplete(1));
    assert_eq!(parse_message(b"Content-Length: 12\r\nContent-Type: "), incomplete(1));
    assert_eq!(parse_message(b"Content-Length: 12\r\nContent-Type: a/b"), incomplete(1));
    assert_eq!(parse_message(b"Content-Length: 12\r\nContent-Type: a/b;"), incomplete(1));
    assert_eq!(parse_message(b"Content-Length: 12\r\nContent-Type: a/b;  "), incomplete(1));
    assert_eq!(parse_message(b"Content-Length: 12\r\nContent-Type: a/b; c"), incomplete(7));
    assert_eq!(parse_message(b"Content-Length: 12\r\nContent-Type: a/b; charset="), incomplete(5));
    assert_eq!(parse_message(b"Content-Length: 12\r\nContent-Type: a/b; charset=utf"), incomplete(2));
    assert_eq!(parse_message(b"Content-Length: 12\r\nContent-Type: a/b; charset=utf-"), incomplete(1));
    assert_eq!(parse_message(b"Content-Length: 12\r\nContent-Type: a/b; charset=utf8"), incomplete(2));
    assert_eq!(parse_message(b"Content-Length: 12\r\nContent-Type: a/b; charset=utf-8\r"), incomplete(1));
    assert_eq!(parse_message(b"Content-Length: 12\r\nContent-Type: a/b\r\n"), incomplete(2));
    assert_eq!(parse_message(b"Content-Length: 12\r\nContent-Type: a/b\r\n\r\n0123"), incomplete(8));
}

#[test]
fn a_buffer_that_does_not_begin_with_the_literal_fails() {
    assert_eq!(parse_message(b"X"), failed(FrameError::MissingHeader));
    assert_eq!(parse_message(b"content-length: 2\r\n\r\n{}"), failed(FrameError::MissingHeader));
    assert_eq!(parse_message(b"Content-Length:2\r\n\r\n{}"), failed(FrameError::MissingHeader));
    assert_eq!(parse_message(b"Content-Length 2\r\n\r\n{}"), failed(FrameError::MissingHeader));
    assert_eq!(parse_message(b" Content-Length: 2\r\n\r\n{}"), failed(FrameError::MissingHeader));
    assert_eq!(
        parse_message(b"Content-Type: a/b\r\nContent-Length: 2\r\n\r\n{}"),
        failed(FrameError::MissingHeader)
    );
    let mut long = b"Content-Lenght: 2\r\n\r\n".to_vec();
    long.extend_from_slice(&[b'x'; 4096]);
    assert_eq!(parse_message(&long), failed(FrameError::MissingHeader));
}

#[test]
fn a_length_that_is_no_number_fails() {
    assert_eq!(parse_message(b"Content-Length: \r\n\r\n"), failed(FrameError::MalformedLength));
    assert_eq!(parse_message(b"Content-Length: x"), failed(FrameError::MalformedLength));
    assert_eq!(parse_message(b"Content-Length: -2\r\n\r\n{}"), failed(FrameError::MalformedLength));
    assert_eq!(parse_message(b"Content-Length: +2\r\n\r\n{}"), failed(FrameError::MalformedLength));
    assert_eq!(parse_message(b"Content-Length:  2\r\n\r\n{}"), failed(FrameError::MalformedLength));
    assert_eq!(parse_message(b"Content-Length: 2x\r\n\r\n{}"), failed(FrameError::MalformedLength));
    assert_eq!(parse_message(b"Content-Length: 2\n\n{}"), failed(FrameError::MalformedLength));
}

#[test]
fn a_length_beyond_usize_fails_once_the_header_is_whole() {
    let huge = "9".repeat(40);
    let whole = format!("Content-Length: {}\r\n\r\n", huge);
    assert_eq!(parse_message(whole.as_bytes()), failed(FrameError::MalformedLength));
    let open = format!("Content-Length: {}\r\n", huge);
    assert_eq!(parse_message(open.as_bytes()), incomplete(2));
    let broken = format!("Content-Length: {}\r\nX", huge);
    assert_eq!(parse_message(broken.as_bytes()), failed(FrameError::MalformedHeader));
    let above = format!("Content-Length: {}\r\n\r\n", usize::MAX as u128 + 1);
    assert_eq!(parse_message(above.as_bytes()), failed(FrameError::MalformedLength));
    let top = format!("Content-Length: {}\r\n\r\n", usize::MAX);
    assert_eq!(parse_message(top.as_bytes()), incomplete(usize::MAX));
}

#[test]
fn a_charset_other_than_utf8_fails() {
    for value in ["latin1", "", "UTF-8", "utf-16", "utf", "utf-", "utf-8x", "utf8 ", "ascii"] {
        let sample = format!(
            "Content-Length: 2\r\nContent-Type: text/plain; charset={}\r\n\r\n{{}}",
            value
        );
        assert_eq!(
            parse_message(sample.as_bytes()),
            failed(FrameError::MalformedCharset),
            "charset={}",
            value
        );
    }
    assert_eq!(
        parse_message(b"Content-Length: 2\r\nContent-Type: text/plain; charset=l"),
        failed(FrameError::MalformedCharset)
    );
}

#[test]
fn both_spellings_of_the_charset_and_any_number_of_spaces_pass() {
    for clause in [";charset=utf-8", "; charset=utf8", ";    charset=utf-8", ";  charset=utf8", ""] {
        let sample = format!("Content-Length: 2\r\nContent-Type: a/b{}\r\n\r\n{{}}", clause);
        assert_eq!(parse_message(sample.as_bytes()), parsed("", "{}"), "{:?}", clause);
    }
}

#[test]
fn a_header_block_that_breaks_the_grammar_elsewhere_fails() {
    let cases: [&[u8]; 12] = [
        b"Content-Length: 2\rX",
        b"Content-Length: 2\r\nX",
        b"Content-Length: 2\r\n\rX",
        b"Content-Length: 2\r\n\n{}",
        b"Content-Length: 2\r\nContent-Type: \r\n\r\n{}",
        b"Content-Length: 2\r\nContent-Type: ;charset=utf-8\r\n\r\n{}",
        b"Content-Length: 2\r\nContent-Type: a/b; boundary=x\r\n\r\n{}",
        b"Content-Length: 2\r\nContent-Type: a/b;\tcharset=utf-8\r\n\r\n{}",
        b"Content-Length: 2\r\nContent-Type: a/b; Charset=utf-8\r\n\r\n{}",
        b"Content-Length: 2\r\nContent-Type: a/b\r\nContent-Type: a/b\r\n\r\n{}",
        b"Content-Length: 2\r\nContent-Type: a/b; charset=utf-8\r\r\n\r\n{}",
        b"Content-Length: 2\r\ncontent-type: a/b\r\n\r\n{}",
    ];
    for case in cases {
        assert_eq!(
            parse_message(case),
            failed(FrameError::MalformedHeader),
            "{:?}",
            String::from_utf8_lossy(case)
        );
    }
}

#[test]
fn a_failure_stays_whatever_follows() {
    let broken: [&[u8]; 4] = [
        b"Content-Lenght",
        b"Content-Length: x",
        b"Content-Length: 2\r\nContent-Type: a; charset=latin1",
        b"Content-Length: 2\r\nFoo",
    ];
    for head in broken {
        let first = parse_message(head);
        assert!(matches!(first, Err(ParseError::Failed(_))));
        let mut longer = head.to_vec();
        longer.extend_from_slice(b"\r\n\r\n{}");
        assert_eq!(parse_message(&longer), first);
    }
}

#[test]
fn fewer_bytes_than_needed_never_complete_a_message() {
    let message = b"Content-Length: 0\r\nContent-Type: a; charset=utf8\r\n\r\n";
    for cut in 0..message.len() {
        let needed = match parse_message(&message[..cut]) {
            Err(ParseError::Incomplete(n)) => n,
            other => panic!("cut at {}: {:?}", cut, other),
        };
        assert!(cut + needed <= message.len(), "cut at {}", cut);
    }
    let shortest = b"Content-Length: 0\r\n\r\n";
    for cut in 0..shortest.len() {
        let needed = match parse_message(&shortest[..cut]) {
            Err(ParseError::Incomplete(n)) => n,
            other => panic!("cut at {}: {:?}", cut, other),
        };
        assert!(cut + needed <= shortest.len(), "cut at {}", cut);
    }
}

#[test]
fn an_incomplete_buffer_can_be_completed() {
    let cases: [(&[u8], &[u8], usize); 9] = [
        (b"", b"Content-Length: 0\r\n\r\n", 0),
        (b"Content-Len", b"gth: 0\r\n\r\n", 0),
        (b"Content-Length: ", b"0\r\n\r\n", 0),
        (b"Content-Length: 12", b"\r\n\r\n", 12),
        (b"Content-Length: 12\r", b"\n\r\n", 12),
        (b"Content-Length: 3\r\nContent-", b"Type: a\r\n\r\n", 3),
        (b"Content-Length: 3\r\nContent-Type: ", b"a\r\n\r\n", 3),
        (b"Content-Length: 3\r\nContent-Type: a/b; cha", b"rset=utf-8\r\n\r\n", 3),
        (b"Content-Length: 3\r\nContent-Type: a/b;charset=utf8", b"\r\n\r\n", 3),
    ];
    for (begun, rest, length) in cases {
        assert!(matches!(parse_message(begun), Err(ParseError::Incomplete(_))));
        let mut whole = begun.to_vec();
        whole.extend_from_slice(rest);
        let payload = vec![0u8; length];
        whole.extend_from_slice(&payload);
        assert_eq!(parse_message(&whole), Ok((&b""[..], &payload[..])));
    }
}
