//! Taking one message off the front of a buffer.

use vstd::prelude::*;
use crate::decimal::{decimal, decimal_value};
use crate::grammar::{
    charset_clause, charset_close, digits_end, header, lemma_run_end, length_digits,
    length_line, length_tag, line_end, outcome, type_line, ByteClass, Outcome, Step,
    CHARSET_KEY, CR, CRLF, LENGTH_TAG, SEMICOLON, TYPE_TAG, UTF8, UTF_8,
};
use crate::outcome::{FrameError, ParseError};
use crate::scan::{skip_run, step_of, take_literal};
use crate::written::{header_block, kind_of, read_message_was_written};

verus! {

/// Takes the end of a line at `at`.
fn take_line_end(input: &[u8], at: usize) -> (r: Result<usize, ParseError>)
    requires
        at <= input@.len(),
    ensures
        step_of(r) == line_end(input@, at as int),
{
    take_literal(input, at, CRLF.as_slice(), FrameError::MalformedHeader)
}

/// Takes the first line.
fn take_length_line(input: &[u8]) -> (r: Result<usize, ParseError>)
    ensures
        step_of(r) == length_line(input@),
{
    let start = match take_literal(input, 0, LENGTH_TAG.as_slice(), FrameError::MissingHeader) {
        Ok(a) => a,
        Err(halt) => {
            return Err(halt);
        },
    };
    let end = skip_run(input, start, ByteClass::Digit);
    if end == input.len() {
        Err(ParseError::Incomplete(1))
    } else if end == start || input[end] != CR {
        Err(ParseError::Failed(FrameError::MalformedLength))
    } else {
        take_line_end(input, end)
    }
}

/// Takes the end of a charset value at `at`.
fn take_charset_close(input: &[u8], at: usize) -> (r: Result<usize, ParseError>)
    requires
        at <= input@.len(),
    ensures
        step_of(r) == charset_close(input@, at as int),
{
    if at < input.len() && input[at] != CR {
        Err(ParseError::Failed(FrameError::MalformedCharset))
    } else {
        take_line_end(input, at)
    }
}

/// Takes what follows the `;` behind a type token, from `at` on.
fn take_charset_clause(input: &[u8], at: usize) -> (r: Result<usize, ParseError>)
    requires
        at <= input@.len(),
    ensures
        step_of(r) == charset_clause(input@, at as int),
{
    let key = skip_run(input, at, ByteClass::Space);
    if key == input.len() {
        return Err(ParseError::Incomplete(1));
    }
    let value = match take_literal(input, key, CHARSET_KEY.as_slice(), FrameError::MalformedHeader) {
        Ok(c) => c,
        Err(halt) => {
            return Err(halt);
        },
    };
    match take_literal(input, value, UTF_8.as_slice(), FrameError::MalformedCharset) {
        Ok(x) => take_charset_close(input, x),
        Err(ParseError::Incomplete(n)) => Err(ParseError::Incomplete(n)),
        Err(ParseError::Failed(_)) => {
            match take_literal(input, value, UTF8.as_slice(), FrameError::MalformedCharset) {
                Ok(x) => take_charset_close(input, x),
                Err(halt) => Err(halt),
            }
        },
    }
}

/// Takes the rest of a `Content-Type` line behind its literal, from `at` on.
fn take_type_line(input: &[u8], at: usize) -> (r: Result<usize, ParseError>)
    requires
        at <= input@.len(),
    ensures
        step_of(r) == type_line(input@, at as int),
{
    let end = skip_run(input, at, ByteClass::Token);
    if end == input.len() {
        Err(ParseError::Incomplete(1))
    } else if end == at {
        Err(ParseError::Failed(FrameError::MalformedHeader))
    } else if input[end] == SEMICOLON {
        take_charset_clause(input, end + 1)
    } else {
        take_line_end(input, end)
    }
}

/// The places that reading a header block finds.
struct Span {
    /// Where the digits of the length begin.
    digits: usize,
    /// Where they end.
    digits_end: usize,
    /// Where the payload begins.
    body: usize,
}

/// Reads the header block.
fn take_header(input: &[u8]) -> (r: Result<Span, ParseError>)
    ensures
        match r {
            Ok(span) => {
                &&& header(input@) == Step::Go(span.body as int)
                &&& span.digits == length_tag().len()
                &&& span.digits_end == digits_end(input@)
                &&& span.digits <= span.digits_end <= span.body <= input@.len()
            },
            Err(halt) => step_of(Err(halt)) == header(input@),
        },
{
    let digits = LENGTH_TAG.as_slice().len();
    let second = match take_length_line(input) {
        Ok(p) => p,
        Err(halt) => {
            return Err(halt);
        },
    };
    proof {
        lemma_run_end(input@, digits as int, ByteClass::Digit);
    }
    let digits_end = second - CRLF.as_slice().len();
    match take_line_end(input, second) {
        Ok(body) => Ok(Span { digits, digits_end, body }),
        Err(ParseError::Incomplete(n)) => Err(ParseError::Incomplete(n)),
        Err(ParseError::Failed(_)) => {
            let token = match take_literal(
                input,
                second,
                TYPE_TAG.as_slice(),
                FrameError::MalformedHeader,
            ) {
                Ok(t) => t,
                Err(halt) => {
                    return Err(halt);
                },
            };
            let blank = match take_type_line(input, token) {
                Ok(q) => q,
                Err(halt) => {
                    return Err(halt);
                },
            };
            match take_line_end(input, blank) {
                Ok(body) => Ok(Span { digits, digits_end, body }),
                Err(halt) => Err(halt),
            }
        },
    }
}

/// Takes one message off the front of `input`.
///
/// On success the result is the pair of what follows the message and the
/// message's payload, both borrowed from `input`. The payload has exactly
/// the declared length; no byte between header block and remainder is
/// dropped or read twice. `Incomplete` says that the buffer is a beginning
/// of a message and how many bytes it lacks at least; the caller keeps the
/// buffer, adds to it and calls again. `Failed` says that the buffer breaks
/// the grammar; it does so whatever follows.
///
/// The header block is read to its end before its length is turned into a
/// number: digits that stand for more than `usize::MAX` fail only then.
///
/// The first clause says which of the three it is, for every buffer. The
/// second repeats of a success what follows from the first: the buffer is
/// its header block, the payload and the remainder, one behind the other.
pub fn parse_message(input: &[u8]) -> (res: Result<(&[u8], &[u8]), ParseError>)
    ensures
        match outcome(input@) {
            Outcome::Parsed { payload, remainder } => {
                &&& res matches Ok((rest, body))
                &&& body@ == payload
                &&& rest@ == remainder
            },
            Outcome::Incomplete(n) => {
                &&& res matches Err(ParseError::Incomplete(needed))
                &&& needed == n
            },
            Outcome::Failed(e) => {
                &&& res matches Err(ParseError::Failed(error))
                &&& error == e
            },
        },
        res matches Ok((rest, body)) ==> {
            &&& body@.len() == decimal_value(length_digits(input@))
            &&& input@ == header_block(length_digits(input@), kind_of(input@)) + body@ + rest@
        },
{
    proof {
        if outcome(input@) is Parsed {
            read_message_was_written(input@);
        }
    }
    let span = match take_header(input) {
        Ok(span) => span,
        Err(halt) => {
            return Err(halt);
        },
    };
    proof {
        lemma_run_end(input@, span.digits as int, ByteClass::Digit);
    }
    let digits = &input[span.digits..span.digits_end];
    assert(digits@ == length_digits(input@));
    let length = match decimal(digits) {
        Some(v) => v,
        None => {
            return Err(ParseError::Failed(FrameError::MalformedLength));
        },
    };
    let have = input.len() - span.body;
    if have < length {
        Err(ParseError::Incomplete(length - have))
    } else {
        let end = span.body + length;
        Ok((&input[end..input.len()], &input[span.body..end]))
    }
}

} // verus!
