use lsp_framing::{find_next_message, parse_message, ParseError};
use nom::branch::alt;
use nom::bytes::streaming::{is_not, tag, take_until};
use nom::character::streaming::{char, crlf, digit1, space0};
use nom::combinator::{map_res, opt};
use nom::multi::length_data;
use nom::sequence::{delimited, terminated};
use nom::{IResult, Parser};

/// The message grammar, written with nom's streaming combinators.
fn message(input: &[u8]) -> IResult<&[u8], &[u8]> {
    let content_len = delimited(tag("Content-Length: "), digit1, crlf);
    let utf8 = alt((tag("utf-8"), tag("utf8")));
    let charset = (char(';'), space0, tag("charset="), utf8);
    let content_type = (tag("Content-Type: "), is_not(";\r"), opt(charset), crlf);
    let header = terminated(terminated(content_len, opt(content_type)), crlf);
    let header = map_res(header, std::str::from_utf8);
    let length = map_res(header, |s: &str| s.parse::<usize>());
    length_data(length).parse(input)
}

fn marker(input: &[u8]) -> IResult<&[u8], usize> {
    nom::combinator::map(take_until("Content-Length"), |s: &[u8]| s.len()).parse(input)
}

/// Both say "a message", with the same payload and remainder; or both ask
/// for more; or both refuse.
fn same_verdict(input: &[u8]) -> bool {
    match (parse_message(input), message(input)) {
        (Ok(ours), Ok(theirs)) => ours == theirs,
        (Err(ParseError::Incomplete(_)), Err(nom::Err::Incomplete(_))) => true,
        (Err(ParseError::Failed(_)), Err(nom::Err::Error(_))) => true,
        _ => false,
    }
}

/// Messages of many shapes, some of them broken, each with the length of
/// its header block.
fn samples_with_header() -> Vec<(usize, Vec<u8>)> {
    let lengths = ["0", "3", "003", "12", "99999999999999999999999999"];
    let types = [
        "",
        "Content-Type: a\r\n",
        "Content-Type: application/vscode-jsonrpc; charset=utf-8\r\n",
        "Content-Type: text/plain;charset=utf8\r\n",
        "Content-Type: text/plain;   charset=utf-8\r\n",
        "Content-Type: text/plain; charset=latin1\r\n",
        "Content-Type: text/plain; boundary=b\r\n",
        "Content-Type: multi part\r\n",
    ];
    let payloads = ["", "abc", "{\"a\":\r\n\r\n}x", "Content-Length: 1\r\n\r\ny"];
    let mut all = Vec::new();
    for length in lengths {
        for kind in types {
            for payload in payloads {
                let header = format!("Content-Length: {}\r\n{}\r\n", length, kind);
                all.push((header.len(), format!("{}{}", header, payload).into_bytes()));
            }
        }
    }
    all
}

fn samples() -> Vec<Vec<u8>> {
    samples_with_header().into_iter().map(|sample| sample.1).collect()
}

#[test]
fn every_beginning_of_every_sample_gets_the_same_verdict() {
    for sample in samples() {
        for cut in 0..=sample.len() {
            assert!(same_verdict(&sample[..cut]), "{:?}", String::from_utf8_lossy(&sample[..cut]));
        }
    }
}

#[test]
fn one_changed_byte_gets_the_same_verdict() {
    let changes = [b'\r', b'\n', b' ', b';', b'0', b'9', b'C', b'c', b'u', b'-', b'8', b'=', b':', 0, 255];
    for sample in samples() {
        let head = sample.len().min(80);
        for at in 0..head {
            for change in changes {
                let mut changed = sample.clone();
                changed[at] = change;
                assert!(same_verdict(&changed), "{:?}", String::from_utf8_lossy(&changed));
                let cut = (at + 3).min(changed.len());
                assert!(same_verdict(&changed[..cut]), "{:?}", String::from_utf8_lossy(&changed[..cut]));
            }
        }
    }
}

#[test]
fn one_dropped_or_doubled_byte_gets_the_same_verdict() {
    for sample in samples() {
        let head = sample.len().min(80);
        for at in 0..head {
            let mut dropped = sample.clone();
            dropped.remove(at);
            assert!(same_verdict(&dropped), "{:?}", String::from_utf8_lossy(&dropped));
            let mut doubled = sample.clone();
            doubled.insert(at, sample[at]);
            assert!(same_verdict(&doubled), "{:?}", String::from_utf8_lossy(&doubled));
        }
    }
}

#[test]
fn payload_bytes_still_missing_are_counted_alike() {
    let mut counted = 0;
    for (header, sample) in samples_with_header() {
        for cut in header..sample.len() {
            if let Err(ParseError::Incomplete(ours)) = parse_message(&sample[..cut]) {
                assert_eq!(
                    message(&sample[..cut]),
                    Err(nom::Err::Incomplete(nom::Needed::new(ours)))
                );
                counted += 1;
            }
        }
    }
    assert!(counted > 0);
}

#[test]
fn the_marker_is_found_at_the_same_place() {
    let buffers: [&[u8]; 8] = [
        b"",
        b"Content-Length",
        b"xContent-Length: 1\r\n\r\ny",
        b"Content-LengtContent-Length",
        b"CCCCContent-LengthContent-Length",
        b"no marker here",
        b"Content-Lengt",
        b"\r\n\r\nContent-Type: a\r\nContent-Length: 0\r\n\r\n",
    ];
    for buffer in buffers {
        for cut in 0..=buffer.len() {
            let part = &buffer[..cut];
            match (find_next_message(part), marker(part)) {
                (Ok(ours), Ok(theirs)) => assert_eq!(ours, theirs),
                (Err(ParseError::Incomplete(_)), Err(nom::Err::Incomplete(_))) => {},
                (ours, theirs) => panic!("{:?} {:?}", ours, theirs),
            }
        }
    }
}

/// A small generator of numbers, the same on every run.
struct Dice(u64);

impl Dice {
    fn roll(&mut self, sides: usize) -> usize {
        self.0 = self.0.wrapping_mul(6364136223846793005).wrapping_add(1442695040888963407);
        ((self.0 >> 33) as usize) % sides
    }
}

#[test]
fn buffers_thrown_together_get_the_same_verdict() {
    let parts: [&[u8]; 28] = [
        b"Content-Length: ",
        b"Content-Length:",
        b"Content-Type: ",
        b"Content-",
        b"charset=",
        b"utf-8",
        b"utf8",
        b"utf",
        b"\r\n",
        b"\r",
        b"\n",
        b";",
        b" ",
        b"  ",
        b"0",
        b"1",
        b"7",
        b"42",
        b"a",
        b"text/plain",
        b"=",
        b"-",
        b"8",
        b"C",
        b"{}",
        b"abc",
        b"\r\n\r\n",
        b"18446744073709551616",
    ];
    let mut dice = Dice(2024);
    for _ in 0..60000 {
        let mut buffer = Vec::new();
        let mut pieces = 1 + dice.roll(10);
        if dice.roll(4) != 0 {
            buffer.extend_from_slice(b"Content-Length: ");
            if dice.roll(4) != 0 {
                buffer.extend_from_slice(parts[14 + dice.roll(4)]);
                buffer.extend_from_slice(b"\r\n");
                if dice.roll(2) == 0 {
                    buffer.extend_from_slice(b"Content-Type: ");
                    if dice.roll(2) == 0 {
                        buffer.extend_from_slice(b"a/b");
                        if dice.roll(2) == 0 {
                            buffer.extend_from_slice(b"; charset=");
                        }
                    }
                }
            }
        } else {
            pieces += 4;
        }
        for _ in 0..pieces {
            buffer.extend_from_slice(parts[dice.roll(parts.len())]);
        }
        assert!(same_verdict(&buffer), "{:?}", String::from_utf8_lossy(&buffer));
    }
}
