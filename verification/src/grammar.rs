//! The wire format, as a mathematical function from the bytes of a buffer to
//! the outcome of framing it.
//!
//! The grammar is read one step at a time, left to right. Each step looks at
//! the bytes from some position on and has one of three results ([`Step`]):
//! it matched and the next step goes on behind it, the buffer ended before it
//! could be decided, or the bytes can never match.

use vstd::prelude::*;
use crate::decimal::{decimal_value, is_digit};
use crate::outcome::FrameError;

verus! {

/// The carriage return, with which the end of a line begins.
pub const CR: u8 = '\r' as u8;

/// `;`, which ends a type token and opens its parameter.
pub const SEMICOLON: u8 = ';' as u8;

/// The space.
pub const SPACE: u8 = ' ' as u8;

/// `Content-Length: `, with its one space.
pub const LENGTH_TAG: [u8; 16] = [
    'C' as u8, 'o' as u8, 'n' as u8, 't' as u8, 'e' as u8, 'n' as u8, 't' as u8, '-' as u8,
    'L' as u8, 'e' as u8, 'n' as u8, 'g' as u8, 't' as u8, 'h' as u8, ':' as u8, ' ' as u8,
];

/// `Content-Type: `, with its one space.
pub const TYPE_TAG: [u8; 14] = [
    'C' as u8, 'o' as u8, 'n' as u8, 't' as u8, 'e' as u8, 'n' as u8, 't' as u8, '-' as u8,
    'T' as u8, 'y' as u8, 'p' as u8, 'e' as u8, ':' as u8, ' ' as u8,
];

/// `charset=`
pub const CHARSET_KEY: [u8; 8] = [
    'c' as u8, 'h' as u8, 'a' as u8, 'r' as u8, 's' as u8, 'e' as u8, 't' as u8, '=' as u8,
];

/// `utf-8`
pub const UTF_8: [u8; 5] = ['u' as u8, 't' as u8, 'f' as u8, '-' as u8, '8' as u8];

/// `utf8`
pub const UTF8: [u8; 4] = ['u' as u8, 't' as u8, 'f' as u8, '8' as u8];

/// `\r\n`
pub const CRLF: [u8; 2] = ['\r' as u8, '\n' as u8];

/// The bytes of [`LENGTH_TAG`].
pub open spec fn length_tag() -> Seq<u8> {
    LENGTH_TAG@
}

/// The bytes of [`TYPE_TAG`].
pub open spec fn type_tag() -> Seq<u8> {
    TYPE_TAG@
}

/// The bytes of [`CHARSET_KEY`].
pub open spec fn charset_key() -> Seq<u8> {
    CHARSET_KEY@
}

/// The bytes of [`UTF_8`].
pub open spec fn utf_8() -> Seq<u8> {
    UTF_8@
}

/// The bytes of [`UTF8`].
pub open spec fn utf8() -> Seq<u8> {
    UTF8@
}

/// The bytes of [`CRLF`].
pub open spec fn crlf() -> Seq<u8> {
    CRLF@
}

/// The kinds of byte that the grammar takes in runs.
#[derive(Clone, Copy, Debug, PartialEq, Eq, Structural)]
pub enum ByteClass {
    /// `0` to `9`.
    Digit,
    /// Anything but `;` and `\r`: the bytes of a type token.
    Token,
    /// The space.
    Space,
}

impl ByteClass {
    /// Whether `b` is of this class.
    pub open spec fn holds(self, b: u8) -> bool {
        match self {
            ByteClass::Digit => is_digit(b),
            ByteClass::Token => b != SEMICOLON && b != CR,
            ByteClass::Space => b == SPACE,
        }
    }
}

/// What one step of the grammar finds.
pub enum Step {
    /// It matched, and the next step begins at this position.
    Go(int),
    /// The buffer ended first. This many bytes are the least that must follow
    /// before the step can match.
    Wait(nat),
    /// It can never match.
    Fail(FrameError),
}

/// The first `n` bytes of `lit` stand in `s` from position `at` on.
pub open spec fn agrees(s: Seq<u8>, at: int, lit: Seq<u8>, n: int) -> bool {
    forall|i: int| 0 <= i < n ==> s[at + i] == #[trigger] lit[i]
}

/// The step that takes the literal `lit` at position `at`. As far as the
/// buffer reaches it must agree with the literal, else the step fails with
/// `e`; where it agrees and ends early, the step waits for the rest of the
/// literal.
pub open spec fn literal(s: Seq<u8>, at: int, lit: Seq<u8>, e: FrameError) -> Step
    recommends
        0 <= at <= s.len(),
{
    let have = if s.len() - at < lit.len() {
        s.len() - at
    } else {
        lit.len() as int
    };
    if !agrees(s, at, lit, have) {
        Step::Fail(e)
    } else if have < lit.len() {
        Step::Wait((lit.len() - have) as nat)
    } else {
        Step::Go(at + lit.len())
    }
}

/// Where the longest run of bytes of `class` that begins at `from` ends: the
/// position of the first byte from there on that is not of the class, or the
/// buffer's length where every byte is.
pub open spec fn run_end(s: Seq<u8>, from: int, class: ByteClass) -> int
    decreases s.len() - from,
{
    if 0 <= from < s.len() && class.holds(s[from]) {
        run_end(s, from + 1, class)
    } else {
        from
    }
}

/// The step that ends a line: `\r\n` at position `at`.
pub open spec fn line_end(s: Seq<u8>, at: int) -> Step {
    literal(s, at, crlf(), FrameError::MalformedHeader)
}

/// The first line: the literal, one or more digits, `\r\n`. What stands
/// between the literal and the next `\r` has to be digits, and at least one.
pub open spec fn length_line(s: Seq<u8>) -> Step {
    match literal(s, 0, length_tag(), FrameError::MissingHeader) {
        Step::Go(a) => {
            let d = run_end(s, a, ByteClass::Digit);
            if d == s.len() {
                Step::Wait(1)
            } else if d == a || s[d] != CR {
                Step::Fail(FrameError::MalformedLength)
            } else {
                line_end(s, d)
            }
        },
        halt => halt,
    }
}

/// The end of a `charset` value at `at`: the value ends with the line, so
/// the next byte, if there is one, has to be `\r`.
pub open spec fn charset_close(s: Seq<u8>, at: int) -> Step {
    if at < s.len() && s[at] != CR {
        Step::Fail(FrameError::MalformedCharset)
    } else {
        line_end(s, at)
    }
}

/// What may follow the `;` behind a type token, from `at` on: spaces,
/// `charset=`, then `utf-8` or `utf8`, then the end of the line.
pub open spec fn charset_clause(s: Seq<u8>, at: int) -> Step {
    let b = run_end(s, at, ByteClass::Space);
    if b == s.len() {
        Step::Wait(1)
    } else {
        match literal(s, b, charset_key(), FrameError::MalformedHeader) {
            Step::Go(c) => match literal(s, c, utf_8(), FrameError::MalformedCharset) {
                Step::Go(x) => charset_close(s, x),
                Step::Wait(n) => Step::Wait(n),
                Step::Fail(_) => match literal(s, c, utf8(), FrameError::MalformedCharset) {
                    Step::Go(x) => charset_close(s, x),
                    halt => halt,
                },
            },
            halt => halt,
        }
    }
}

/// The rest of a `Content-Type` line behind its literal, from `at` on: a
/// type token of at least one byte, an optional `charset` clause, `\r\n`.
pub open spec fn type_line(s: Seq<u8>, at: int) -> Step {
    let e = run_end(s, at, ByteClass::Token);
    if e == s.len() {
        Step::Wait(1)
    } else if e == at {
        Step::Fail(FrameError::MalformedHeader)
    } else if s[e] == SEMICOLON {
        charset_clause(s, e + 1)
    } else {
        line_end(s, e)
    }
}

/// The whole header block. Behind the first line stands either the blank
/// line, or one `Content-Type` line and then the blank line. `Go(b)` says
/// that the payload begins at `b`.
pub open spec fn header(s: Seq<u8>) -> Step {
    match length_line(s) {
        Step::Go(p) => match line_end(s, p) {
            Step::Fail(_) => match literal(s, p, type_tag(), FrameError::MalformedHeader) {
                Step::Go(t) => match type_line(s, t) {
                    Step::Go(q) => line_end(s, q),
                    halt => halt,
                },
                halt => halt,
            },
            step => step,
        },
        halt => halt,
    }
}

/// Where the digits of the first line end.
pub open spec fn digits_end(s: Seq<u8>) -> int {
    run_end(s, length_tag().len() as int, ByteClass::Digit)
}

/// The digits of the first line.
pub open spec fn length_digits(s: Seq<u8>) -> Seq<u8> {
    s.subrange(length_tag().len() as int, digits_end(s))
}

/// The outcome of framing a buffer.
pub enum Outcome {
    /// The buffer begins with a whole message.
    Parsed {
        /// The bytes behind the header block, as many as it declares.
        payload: Seq<u8>,
        /// Everything behind the payload.
        remainder: Seq<u8>,
    },
    /// The buffer is a proper beginning of a message, and at least this many
    /// bytes are missing.
    Incomplete(nat),
    /// The buffer breaks the grammar.
    Failed(FrameError),
}

/// The outcome of framing the buffer `s`: the header block is read first;
/// only a whole header block has its length turned into a number, and only
/// a number that fits has the payload cut off behind the block.
pub open spec fn outcome(s: Seq<u8>) -> Outcome {
    match header(s) {
        Step::Go(b) => {
            let length = decimal_value(length_digits(s));
            let have = s.len() - b;
            if length > usize::MAX {
                Outcome::Failed(FrameError::MalformedLength)
            } else if have < length {
                Outcome::Incomplete((length - have) as nat)
            } else {
                Outcome::Parsed {
                    payload: s.subrange(b, b + length),
                    remainder: s.subrange(b + length, s.len() as int),
                }
            }
        },
        Step::Wait(n) => Outcome::Incomplete(n),
        Step::Fail(e) => Outcome::Failed(e),
    }
}

/// A run ends at or behind its start, holds bytes of its class only, and
/// stops at the buffer's end or before a byte of another class.
pub proof fn lemma_run_end(s: Seq<u8>, from: int, class: ByteClass)
    requires
        0 <= from <= s.len(),
    ensures
        from <= run_end(s, from, class) <= s.len(),
        forall|i: int| from <= i < run_end(s, from, class) ==> class.holds(#[trigger] s[i]),
        run_end(s, from, class) < s.len() ==> !class.holds(s[run_end(s, from, class)]),
    decreases s.len() - from,
{
    if from < s.len() && class.holds(s[from]) {
        lemma_run_end(s, from + 1, class);
    }
}

/// A position that has what `lemma_run_end` states is the end of the run.
pub proof fn lemma_run_end_is(s: Seq<u8>, from: int, class: ByteClass, end: int)
    requires
        0 <= from <= end <= s.len(),
        forall|i: int| from <= i < end ==> class.holds(#[trigger] s[i]),
        end < s.len() ==> !class.holds(s[end]),
    ensures
        run_end(s, from, class) == end,
    decreases end - from,
{
    if from < end {
        lemma_run_end_is(s, from + 1, class, end);
    }
}

/// The bytes of `whole` stand in `s` from `at` on.
pub open spec fn holds_at(s: Seq<u8>, at: int, whole: Seq<u8>) -> bool {
    &&& 0 <= at
    &&& at + whole.len() <= s.len()
    &&& agrees(s, at, whole, whole.len() as int)
}

/// Where `whole` stands in the buffer, each part of it stands at its place.
pub proof fn lemma_part_holds(s: Seq<u8>, at: int, whole: Seq<u8>, from: int, part: Seq<u8>)
    requires
        holds_at(s, at, whole),
        0 <= from,
        from + part.len() <= whole.len(),
        whole.subrange(from, from + part.len()) == part,
    ensures
        holds_at(s, at + from, part),
{
    assert forall|i: int| 0 <= i < part.len() implies s[at + from + i] == #[trigger] part[i] by {
        assert(whole.subrange(from, from + part.len())[i] == whole[from + i]);
        assert(s[at + (from + i)] == whole[from + i]);
    }
}

/// A literal that stands in the buffer is taken.
pub proof fn lemma_literal_taken(s: Seq<u8>, at: int, lit: Seq<u8>, e: FrameError)
    requires
        holds_at(s, at, lit),
    ensures
        literal(s, at, lit, e) == Step::Go(at + lit.len()),
{
}

/// A literal is refused where one of its bytes within the buffer is wrong.
pub proof fn lemma_literal_refused(s: Seq<u8>, at: int, lit: Seq<u8>, i: int, e: FrameError)
    requires
        0 <= at,
        0 <= i < lit.len(),
        at + i < s.len(),
        s[at + i] != lit[i],
    ensures
        literal(s, at, lit, e) == Step::Fail(e),
{
}

/// A run that stands in the buffer before a byte of another class ends
/// there.
pub proof fn lemma_run_taken(s: Seq<u8>, at: int, run: Seq<u8>, class: ByteClass)
    requires
        holds_at(s, at, run),
        forall|i: int| 0 <= i < run.len() ==> class.holds(#[trigger] run[i]),
        at + run.len() < s.len(),
        !class.holds(s[at + run.len()]),
    ensures
        run_end(s, at, class) == at + run.len(),
{
    assert forall|i: int| at <= i < at + run.len() implies class.holds(#[trigger] s[i]) by {
        assert(s[at + (i - at)] == run[i - at]);
    }
    lemma_run_end_is(s, at, class, at + run.len());
}

/// A literal that was taken stands in the buffer.
pub proof fn lemma_literal_read(s: Seq<u8>, at: int, lit: Seq<u8>, e: FrameError)
    requires
        0 <= at,
        literal(s, at, lit, e) is Go,
    ensures
        literal(s, at, lit, e) == Step::Go(at + lit.len()),
        at + lit.len() <= s.len(),
        s.subrange(at, at + lit.len()) == lit,
{
    assert(s.subrange(at, at + lit.len()) =~= lit);
}

} // verus!
