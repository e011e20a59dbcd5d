//! Messages as they are written, and that framing reads back what was
//! written.

use vstd::prelude::*;
use crate::decimal::{all_digits, decimal_digits, decimal_value, lemma_decimal_digits};
use crate::grammar::{
    charset_clause, charset_close, charset_key, crlf, digits_end, header, holds_at,
    lemma_literal_read, lemma_literal_refused, lemma_literal_taken, lemma_part_holds,
    lemma_run_end, lemma_run_taken, length_digits, length_line, length_tag, line_end, literal,
    outcome, run_end, type_line, type_tag, utf8, utf_8, ByteClass, Outcome, Step, CR,
    SEMICOLON, SPACE,
};
use crate::outcome::FrameError;

verus! {

/// A `charset` clause as it is written.
pub struct CharsetClause {
    /// The number of spaces between `;` and `charset=`.
    pub spaces: nat,
    /// Whether the value is written `utf-8` or `utf8`.
    pub hyphen: bool,
}

/// A `Content-Type` line as it is written.
pub struct TypeLine {
    /// The type token.
    pub token: Seq<u8>,
    /// The clause behind the token, if there is one.
    pub charset: Option<CharsetClause>,
}

impl CharsetClause {
    /// `;`, the spaces, `charset=` and the value.
    pub open spec fn bytes(self) -> Seq<u8> {
        seq![SEMICOLON] + Seq::new(self.spaces, |i: int| SPACE) + charset_key() + if self.hyphen {
            utf_8()
        } else {
            utf8()
        }
    }
}

impl TypeLine {
    /// The token has a byte, and none of its bytes is `;` or `\r`.
    pub open spec fn well_formed(self) -> bool {
        &&& self.token.len() >= 1
        &&& forall|i: int| 0 <= i < self.token.len() ==> ByteClass::Token.holds(#[trigger] self.token[i])
    }

    /// The line, with the `\r\n` that ends it.
    pub open spec fn bytes(self) -> Seq<u8> {
        type_tag() + self.token + match self.charset {
            Some(clause) => clause.bytes(),
            None => Seq::empty(),
        } + crlf()
    }
}

/// The first line of a header block, with `digits` for the length.
pub open spec fn first_line(digits: Seq<u8>) -> Seq<u8> {
    length_tag() + digits + crlf()
}

/// A header block: the first line, the `Content-Type` line if there is
/// one, and the blank line.
pub open spec fn header_block(digits: Seq<u8>, kind: Option<TypeLine>) -> Seq<u8> {
    first_line(digits) + match kind {
        Some(line) => line.bytes(),
        None => Seq::empty(),
    } + crlf()
}

/// The message that carries `payload`, its length written without leading
/// zeros.
pub open spec fn frame(kind: Option<TypeLine>, payload: Seq<u8>) -> Seq<u8> {
    header_block(decimal_digits(payload.len()), kind) + payload
}

/// A written `charset` clause, with the end of its line, is taken.
proof fn lemma_charset_taken(s: Seq<u8>, at: int, clause: CharsetClause)
    requires
        holds_at(s, at, clause.bytes() + crlf()),
    ensures
        charset_clause(s, at + 1) == Step::Go(at + clause.bytes().len() + 2),
{
    let whole = clause.bytes() + crlf();
    let spaces = Seq::new(clause.spaces, |i: int| SPACE);
    let value = if clause.hyphen {
        utf_8()
    } else {
        utf8()
    };
    let key: int = 1 + clause.spaces as int;
    let c: int = key + 8;
    let x: int = c + value.len();
    assert(whole.subrange(1, key) =~= spaces);
    assert(whole.subrange(key, c) =~= charset_key());
    assert(whole.subrange(c, x) =~= value);
    assert(whole.subrange(x, x + 2) =~= crlf());
    lemma_part_holds(s, at, whole, 1, spaces);
    lemma_part_holds(s, at, whole, key, charset_key());
    lemma_part_holds(s, at, whole, c, value);
    lemma_part_holds(s, at, whole, x, crlf());
    assert(s[at + key + 0] == charset_key()[0]);
    lemma_run_taken(s, at + 1, spaces, ByteClass::Space);
    lemma_literal_taken(s, at + key, charset_key(), FrameError::MalformedHeader);
    lemma_literal_taken(s, at + c, value, FrameError::MalformedCharset);
    lemma_literal_taken(s, at + x, crlf(), FrameError::MalformedHeader);
    assert(s[at + x + 0] == crlf()[0]);
    if !clause.hyphen {
        assert(s[at + c + 3] == utf8()[3]);
        lemma_literal_refused(s, at + c, utf_8(), 3, FrameError::MalformedCharset);
    }
}

/// A written `Content-Type` line is taken.
proof fn lemma_type_line_taken(s: Seq<u8>, at: int, line: TypeLine)
    requires
        line.well_formed(),
        holds_at(s, at, line.bytes()),
    ensures
        literal(s, at, type_tag(), FrameError::MalformedHeader) == Step::Go(at + 14),
        type_line(s, at + 14) == Step::Go(at + line.bytes().len()),
        line_end(s, at) is Fail,
{
    let whole = line.bytes();
    let tail = match line.charset {
        Some(clause) => clause.bytes(),
        None => Seq::empty(),
    } + crlf();
    let e: int = 14 + line.token.len() as int;
    assert(whole.subrange(0, 14) =~= type_tag());
    assert(whole.subrange(14, e) =~= line.token);
    assert(whole.subrange(e, whole.len() as int) =~= tail);
    lemma_part_holds(s, at, whole, 0, type_tag());
    lemma_part_holds(s, at, whole, 14, line.token);
    lemma_part_holds(s, at, whole, e, tail);
    lemma_literal_taken(s, at, type_tag(), FrameError::MalformedHeader);
    assert(s[at + 0] == type_tag()[0]);
    lemma_literal_refused(s, at, crlf(), 0, FrameError::MalformedHeader);
    assert(s[at + e + 0] == tail[0]);
    match line.charset {
        Some(clause) => {
            assert(tail[0] == SEMICOLON);
            lemma_run_taken(s, at + 14, line.token, ByteClass::Token);
            lemma_charset_taken(s, at + e, clause);
        },
        None => {
            assert(tail =~= crlf());
            assert(tail[0] == CR);
            lemma_run_taken(s, at + 14, line.token, ByteClass::Token);
            lemma_literal_taken(s, at + e, crlf(), FrameError::MalformedHeader);
        },
    }
}

/// A written first line is taken, and its digits are the digits of the
/// length.
proof fn lemma_first_line_taken(s: Seq<u8>, digits: Seq<u8>)
    requires
        digits.len() >= 1,
        all_digits(digits),
        holds_at(s, 0, first_line(digits)),
    ensures
        length_line(s) == Step::Go(first_line(digits).len() as int),
        length_digits(s) == digits,
{
    let whole = first_line(digits);
    let d: int = 16 + digits.len() as int;
    assert(whole.subrange(0, 16) =~= length_tag());
    assert(whole.subrange(16, d) =~= digits);
    assert(whole.subrange(d, d + 2) =~= crlf());
    lemma_part_holds(s, 0, whole, 0, length_tag());
    lemma_part_holds(s, 0, whole, 16, digits);
    lemma_part_holds(s, 0, whole, d, crlf());
    lemma_literal_taken(s, 0, length_tag(), FrameError::MissingHeader);
    assert(s[d + 0] == crlf()[0]);
    lemma_run_taken(s, 16, digits, ByteClass::Digit);
    lemma_literal_taken(s, d, crlf(), FrameError::MalformedHeader);
    assert(length_digits(s) =~= digits) by {
        assert(length_tag().len() == 16);
        assert forall|i: int| 0 <= i < digits.len() implies s[16 + i] == #[trigger] digits[i] by {}
    }
}

/// A written header block is taken, and the digits read from it are the
/// digits that were written.
proof fn lemma_header_taken(s: Seq<u8>, digits: Seq<u8>, kind: Option<TypeLine>)
    requires
        digits.len() >= 1,
        all_digits(digits),
        kind matches Some(line) ==> line.well_formed(),
        holds_at(s, 0, header_block(digits, kind)),
    ensures
        header(s) == Step::Go(header_block(digits, kind).len() as int),
        length_digits(s) == digits,
{
    let whole = header_block(digits, kind);
    let first = first_line(digits);
    let middle = match kind {
        Some(line) => line.bytes(),
        None => Seq::empty(),
    };
    let p: int = first.len() as int;
    let q: int = p + middle.len();
    assert(whole.subrange(0, p) =~= first);
    assert(whole.subrange(p, q) =~= middle);
    assert(whole.subrange(q, q + 2) =~= crlf());
    lemma_part_holds(s, 0, whole, 0, first);
    lemma_part_holds(s, 0, whole, p, middle);
    lemma_part_holds(s, 0, whole, q, crlf());
    lemma_first_line_taken(s, digits);
    lemma_literal_taken(s, q, crlf(), FrameError::MalformedHeader);
    match kind {
        Some(line) => {
            lemma_type_line_taken(s, p, line);
        },
        None => {},
    }
}

/// A written message is read: a header block whose digits stand for the
/// length of the payload that follows it frames to that payload, and to
/// whatever follows the payload as the remainder. Leading zeros among the
/// digits do no harm.
pub proof fn written_message_is_read(
    digits: Seq<u8>,
    kind: Option<TypeLine>,
    payload: Seq<u8>,
    rest: Seq<u8>,
)
    requires
        digits.len() >= 1,
        all_digits(digits),
        decimal_value(digits) == payload.len(),
        payload.len() <= usize::MAX,
        kind matches Some(line) ==> line.well_formed(),
    ensures
        outcome(header_block(digits, kind) + payload + rest) == (Outcome::Parsed {
            payload,
            remainder: rest,
        }),
{
    let block = header_block(digits, kind);
    let s = block + payload + rest;
    assert(holds_at(s, 0, block));
    lemma_header_taken(s, digits, kind);
    let body: int = block.len() as int;
    let end: int = body + payload.len();
    assert(s.subrange(body, end) =~= payload);
    assert(s.subrange(end, s.len() as int) =~= rest);
}

/// What is written is read back: the message that carries a payload frames
/// to that payload, with nothing left behind it.
pub proof fn round_trip(kind: Option<TypeLine>, payload: Seq<u8>)
    requires
        payload.len() <= usize::MAX,
        kind matches Some(line) ==> line.well_formed(),
    ensures
        outcome(frame(kind, payload)) == (Outcome::Parsed { payload, remainder: Seq::empty() }),
{
    let digits = decimal_digits(payload.len());
    lemma_decimal_digits(payload.len());
    written_message_is_read(digits, kind, payload, Seq::empty());
    assert(frame(kind, payload) =~= header_block(digits, kind) + payload + Seq::<u8>::empty());
}

/// The `charset` clause that begins with the `;` at `at`.
pub open spec fn clause_at(s: Seq<u8>, at: int) -> CharsetClause {
    let key = run_end(s, at + 1, ByteClass::Space);
    let value = key + charset_key().len();
    CharsetClause {
        spaces: (key - at - 1) as nat,
        hyphen: literal(s, value, utf_8(), FrameError::MalformedCharset) is Go,
    }
}

/// The `Content-Type` line that begins at `at`.
pub open spec fn type_line_at(s: Seq<u8>, at: int) -> TypeLine {
    let token = at + type_tag().len();
    let end = run_end(s, token, ByteClass::Token);
    TypeLine {
        token: s.subrange(token, end),
        charset: if s[end] == SEMICOLON {
            Some(clause_at(s, end))
        } else {
            None
        },
    }
}

/// The `Content-Type` line of the header block of `s`, if it has one.
pub open spec fn kind_of(s: Seq<u8>) -> Option<TypeLine> {
    let second = digits_end(s) + crlf().len();
    if line_end(s, second) is Go {
        None
    } else {
        Some(type_line_at(s, second))
    }
}

/// A first line that was taken was written with the digits read from it.
proof fn lemma_first_line_read(s: Seq<u8>)
    requires
        length_line(s) is Go,
    ensures
        length_digits(s).len() >= 1,
        all_digits(length_digits(s)),
        length_line(s) == Step::Go(first_line(length_digits(s)).len() as int),
        first_line(length_digits(s)).len() == digits_end(s) + 2,
        first_line(length_digits(s)).len() <= s.len(),
        s.subrange(0, first_line(length_digits(s)).len() as int) == first_line(length_digits(s)),
{
    let d = run_end(s, 16, ByteClass::Digit);
    assert(length_tag().len() == 16);
    lemma_literal_read(s, 0, length_tag(), FrameError::MissingHeader);
    lemma_run_end(s, 16, ByteClass::Digit);
    lemma_literal_read(s, d, crlf(), FrameError::MalformedHeader);
    let digits = length_digits(s);
    assert(s.subrange(0, d + 2) =~= s.subrange(0, 16) + digits + s.subrange(d, d + 2));
}

/// A `charset` clause that was taken, with the end of its line, was written
/// as the clause read from it.
proof fn lemma_clause_read(s: Seq<u8>, at: int)
    requires
        0 <= at < s.len(),
        s[at] == SEMICOLON,
        charset_clause(s, at + 1) is Go,
    ensures
        charset_clause(s, at + 1) == Step::Go(at + clause_at(s, at).bytes().len() + 2),
        at + clause_at(s, at).bytes().len() + 2 <= s.len(),
        s.subrange(at, at + clause_at(s, at).bytes().len() + 2) == clause_at(s, at).bytes()
            + crlf(),
{
    let clause = clause_at(s, at);
    let key = run_end(s, at + 1, ByteClass::Space);
    lemma_run_end(s, at + 1, ByteClass::Space);
    lemma_literal_read(s, key, charset_key(), FrameError::MalformedHeader);
    let c = key + 8;
    let value = if clause.hyphen {
        utf_8()
    } else {
        utf8()
    };
    lemma_literal_read(s, c, value, FrameError::MalformedCharset);
    let x: int = c + value.len();
    lemma_literal_read(s, x, crlf(), FrameError::MalformedHeader);
    let spaces = Seq::new(clause.spaces, |i: int| SPACE);
    assert(s.subrange(at + 1, key) =~= spaces);
    assert(s.subrange(at, at + 1) =~= seq![SEMICOLON]);
    assert(s.subrange(at, x + 2) =~= s.subrange(at, at + 1) + s.subrange(at + 1, key)
        + s.subrange(key, c) + s.subrange(c, x) + s.subrange(x, x + 2));
}

/// A `Content-Type` line that was taken was written as the line read from
/// it.
proof fn lemma_type_line_read(s: Seq<u8>, at: int)
    requires
        0 <= at,
        literal(s, at, type_tag(), FrameError::MalformedHeader) is Go,
        type_line(s, at + 14) is Go,
    ensures
        type_line_at(s, at).well_formed(),
        type_line(s, at + 14) == Step::Go(at + type_line_at(s, at).bytes().len()),
        at + type_line_at(s, at).bytes().len() <= s.len(),
        s.subrange(at, at + type_line_at(s, at).bytes().len()) == type_line_at(s, at).bytes(),
{
    let line = type_line_at(s, at);
    lemma_literal_read(s, at, type_tag(), FrameError::MalformedHeader);
    let a = at + 14;
    let e = run_end(s, a, ByteClass::Token);
    lemma_run_end(s, a, ByteClass::Token);
    assert forall|i: int| 0 <= i < line.token.len() implies ByteClass::Token.holds(
        #[trigger] line.token[i],
    ) by {
        assert(line.token[i] == s[a + i]);
    }
    if s[e] == SEMICOLON {
        lemma_clause_read(s, e);
        let clause = clause_at(s, e);
        let q: int = e + clause.bytes().len() + 2;
        assert(s.subrange(at, q) =~= s.subrange(at, a) + s.subrange(a, e) + clause.bytes()
            + crlf()) by {
            assert(s.subrange(e, q) == clause.bytes() + crlf());
            assert(s.subrange(at, q) =~= s.subrange(at, a) + s.subrange(a, e) + s.subrange(e, q));
        }
    } else {
        lemma_literal_read(s, e, crlf(), FrameError::MalformedHeader);
        assert(s.subrange(at, e + 2) =~= s.subrange(at, a) + s.subrange(a, e) + Seq::<u8>::empty()
            + s.subrange(e, e + 2));
    }
}

/// A header block that was taken was written with the digits and the
/// `Content-Type` line read from it.
proof fn lemma_header_read(s: Seq<u8>)
    requires
        header(s) is Go,
    ensures
        length_digits(s).len() >= 1,
        all_digits(length_digits(s)),
        kind_of(s) matches Some(line) ==> line.well_formed(),
        header(s) == Step::Go(header_block(length_digits(s), kind_of(s)).len() as int),
        header_block(length_digits(s), kind_of(s)).len() <= s.len(),
        s.subrange(0, header_block(length_digits(s), kind_of(s)).len() as int) == header_block(
            length_digits(s),
            kind_of(s),
        ),
{
    lemma_first_line_read(s);
    let digits = length_digits(s);
    let first = first_line(digits);
    let p: int = first.len() as int;
    if line_end(s, p) is Go {
        lemma_literal_read(s, p, crlf(), FrameError::MalformedHeader);
        assert(s.subrange(0, p + 2) =~= s.subrange(0, p) + Seq::<u8>::empty() + s.subrange(
            p,
            p + 2,
        ));
    } else {
        lemma_type_line_read(s, p);
        let line = type_line_at(s, p);
        let q: int = p + line.bytes().len();
        lemma_literal_read(s, q, crlf(), FrameError::MalformedHeader);
        assert(s.subrange(0, q + 2) =~= s.subrange(0, p) + s.subrange(p, q) + s.subrange(
            q,
            q + 2,
        ));
    }
}

/// A message that is read was written: a buffer with a message at its front
/// is a header block with one or more digits and, if it has a
/// `Content-Type` line, a well-formed one; then a payload of the length for
/// which the digits stand; then the remainder.
pub proof fn read_message_was_written(s: Seq<u8>)
    requires
        outcome(s) is Parsed,
    ensures
        outcome(s) matches Outcome::Parsed { payload, remainder } && {
            &&& length_digits(s).len() >= 1
            &&& all_digits(length_digits(s))
            &&& kind_of(s) matches Some(line) ==> line.well_formed()
            &&& decimal_value(length_digits(s)) == payload.len()
            &&& s == header_block(length_digits(s), kind_of(s)) + payload + remainder
        },
{
    lemma_header_read(s);
    if let Outcome::Parsed { payload, remainder } = outcome(s) {
        let block = header_block(length_digits(s), kind_of(s));
        let b: int = block.len() as int;
        assert(s =~= s.subrange(0, b) + payload + remainder);
    }
}

/// `value` begins with the bytes of `lit`.
spec fn begins_with(value: Seq<u8>, lit: Seq<u8>) -> bool {
    &&& value.len() >= lit.len()
    &&& forall|i: int| 0 <= i < lit.len() ==> value[i] == #[trigger] lit[i]
}

/// The end of a charset value that is one of the two spellings and goes on:
/// behind the spelling there is a byte, and it is not `\r`.
proof fn lemma_longer_value_fails(s: Seq<u8>, at: int, value: Seq<u8>, lit: Seq<u8>)
    requires
        holds_at(s, at, value + seq![CR]),
        begins_with(value, lit),
        value != lit,
        forall|i: int| 0 <= i < value.len() ==> value[i] != CR,
    ensures
        literal(s, at, lit, FrameError::MalformedCharset) == Step::Go(at + lit.len()),
        charset_close(s, at + lit.len()) == Step::Fail(FrameError::MalformedCharset),
{
    let whole = value + seq![CR];
    if value.len() == lit.len() {
        assert(value =~= lit);
    }
    assert forall|i: int| 0 <= i < lit.len() implies s[at + i] == #[trigger] lit[i] by {
        assert(s[at + i] == whole[i]);
    }
    let n = lit.len() as int;
    assert(s[at + n] == whole[n]);
    assert(whole[n] == value[n]);
}

/// A value that does not begin with `lit` has the literal refused: one of
/// the bytes is wrong, or the `\r` behind the value comes too early.
proof fn lemma_other_value_refused(s: Seq<u8>, at: int, value: Seq<u8>, lit: Seq<u8>)
    requires
        holds_at(s, at, value + seq![CR]),
        !begins_with(value, lit),
        forall|i: int| 0 <= i < lit.len() ==> lit[i] != CR,
    ensures
        literal(s, at, lit, FrameError::MalformedCharset) == Step::Fail(
            FrameError::MalformedCharset,
        ),
{
    let whole = value + seq![CR];
    if value.len() < lit.len() {
        let n = value.len() as int;
        assert(s[at + n] == whole[n]);
        lemma_literal_refused(s, at, lit, n, FrameError::MalformedCharset);
    } else {
        let i = choose|i: int| 0 <= i < lit.len() && value[i] != #[trigger] lit[i];
        assert(s[at + i] == whole[i]);
        lemma_literal_refused(s, at, lit, i, FrameError::MalformedCharset);
    }
}

/// A `Content-Type` line up to the value of its `charset` clause: the
/// literal, the token, `;`, the spaces and `charset=`.
pub open spec fn charset_opening(token: Seq<u8>, spaces: nat) -> Seq<u8> {
    type_tag() + token + seq![SEMICOLON] + Seq::new(spaces, |i: int| SPACE) + charset_key()
}

/// Behind a written opening the clause is read from its value on.
proof fn lemma_opening_taken(s: Seq<u8>, at: int, token: Seq<u8>, spaces: nat)
    requires
        token.len() >= 1,
        forall|i: int| 0 <= i < token.len() ==> ByteClass::Token.holds(#[trigger] token[i]),
        holds_at(s, at, charset_opening(token, spaces)),
        at + charset_opening(token, spaces).len() < s.len(),
    ensures
        line_end(s, at) is Fail,
        literal(s, at, type_tag(), FrameError::MalformedHeader) == Step::Go(at + 14),
        run_end(s, at + 14, ByteClass::Token) == at + 14 + token.len(),
        at + 14 + token.len() < s.len(),
        s[at + 14 + token.len()] == SEMICOLON,
        run_end(s, at + 15 + token.len(), ByteClass::Space) == at + 15 + token.len() + spaces,
        literal(s, at + 15 + token.len() + spaces, charset_key(), FrameError::MalformedHeader)
            == Step::Go(at + charset_opening(token, spaces).len()),
{
    let whole = charset_opening(token, spaces);
    let gap = Seq::new(spaces, |i: int| SPACE);
    let e: int = 14 + token.len() as int;
    let b: int = e + 1 + spaces as int;
    assert(whole.subrange(0, 14) =~= type_tag());
    assert(whole.subrange(14, e) =~= token);
    assert(whole.subrange(e + 1, b) =~= gap);
    assert(whole.subrange(b, b + 8) =~= charset_key());
    lemma_part_holds(s, at, whole, 0, type_tag());
    lemma_part_holds(s, at, whole, 14, token);
    lemma_part_holds(s, at, whole, e + 1, gap);
    lemma_part_holds(s, at, whole, b, charset_key());
    assert(s[at + 0] == type_tag()[0]);
    lemma_literal_refused(s, at, crlf(), 0, FrameError::MalformedHeader);
    lemma_literal_taken(s, at, type_tag(), FrameError::MalformedHeader);
    assert(s[at + e] == whole[e]);
    lemma_run_taken(s, at + 14, token, ByteClass::Token);
    assert(s[at + b + 0] == charset_key()[0]);
    lemma_run_taken(s, at + e + 1, gap, ByteClass::Space);
    lemma_literal_taken(s, at + b, charset_key(), FrameError::MalformedHeader);
}

/// The value of a `charset` clause that is neither spelling is refused.
proof fn lemma_foreign_value_refused(s: Seq<u8>, at: int, value: Seq<u8>)
    requires
        holds_at(s, at, value + seq![CR]),
        forall|i: int| 0 <= i < value.len() ==> value[i] != CR,
        value != utf_8(),
        value != utf8(),
    ensures
        match literal(s, at, utf_8(), FrameError::MalformedCharset) {
            Step::Go(x) => charset_close(s, x) == Step::Fail(FrameError::MalformedCharset),
            Step::Wait(_) => false,
            Step::Fail(_) => match literal(s, at, utf8(), FrameError::MalformedCharset) {
                Step::Go(x) => charset_close(s, x) == Step::Fail(FrameError::MalformedCharset),
                Step::Wait(_) => false,
                Step::Fail(e) => e == FrameError::MalformedCharset,
            },
        },
{
    if begins_with(value, utf_8()) {
        lemma_longer_value_fails(s, at, value, utf_8());
    } else {
        lemma_other_value_refused(s, at, value, utf_8());
        if begins_with(value, utf8()) {
            lemma_longer_value_fails(s, at, value, utf8());
        } else {
            lemma_other_value_refused(s, at, value, utf8());
        }
    }
}

/// A buffer that holds a first line, the opening of a `charset` clause
/// behind it, and then a value that is neither spelling, fails.
proof fn lemma_foreign_charset_fails(
    s: Seq<u8>,
    digits: Seq<u8>,
    token: Seq<u8>,
    spaces: nat,
    value: Seq<u8>,
)
    requires
        digits.len() >= 1,
        all_digits(digits),
        token.len() >= 1,
        forall|i: int| 0 <= i < token.len() ==> ByteClass::Token.holds(#[trigger] token[i]),
        forall|i: int| 0 <= i < value.len() ==> value[i] != CR,
        value != utf_8(),
        value != utf8(),
        holds_at(s, 0, first_line(digits)),
        holds_at(s, first_line(digits).len() as int, charset_opening(token, spaces)),
        holds_at(
            s,
            (first_line(digits).len() + charset_opening(token, spaces).len()) as int,
            value + seq![CR],
        ),
    ensures
        outcome(s) == Outcome::Failed(FrameError::MalformedCharset),
{
    let p: int = first_line(digits).len() as int;
    let c: int = p + charset_opening(token, spaces).len();
    lemma_first_line_taken(s, digits);
    lemma_opening_taken(s, p, token, spaces);
    lemma_foreign_value_refused(s, c, value);
    assert(charset_clause(s, p + 15 + token.len()) == Step::Fail(FrameError::MalformedCharset));
    assert(type_line(s, p + 14) == Step::Fail(FrameError::MalformedCharset));
    assert(header(s) == Step::Fail(FrameError::MalformedCharset));
}

/// A header block whose `charset` clause names anything but `utf-8` or
/// `utf8` fails with `MalformedCharset`. The value is what stands between
/// `charset=` and the next `\r`; what follows that `\r` does not matter.
pub proof fn foreign_charset_fails(
    digits: Seq<u8>,
    token: Seq<u8>,
    spaces: nat,
    value: Seq<u8>,
    rest: Seq<u8>,
)
    requires
        digits.len() >= 1,
        all_digits(digits),
        token.len() >= 1,
        forall|i: int| 0 <= i < token.len() ==> ByteClass::Token.holds(#[trigger] token[i]),
        forall|i: int| 0 <= i < value.len() ==> value[i] != CR,
        value != utf_8(),
        value != utf8(),
    ensures
        outcome(first_line(digits) + charset_opening(token, spaces) + value + seq![CR] + rest)
            == Outcome::Failed(FrameError::MalformedCharset),
{
    let first = first_line(digits);
    let opening = charset_opening(token, spaces);
    let closed = value + seq![CR];
    let s = first + opening + value + seq![CR] + rest;
    let p: int = first.len() as int;
    let c: int = p + opening.len();
    assert(s.subrange(0, p) =~= first);
    assert(s.subrange(p, c) =~= opening);
    assert(s.subrange(c, c + closed.len()) =~= closed);
    assert(holds_at(s, 0, s));
    lemma_part_holds(s, 0, s, 0, first);
    lemma_part_holds(s, 0, s, p, opening);
    lemma_part_holds(s, 0, s, c, closed);
    lemma_foreign_charset_fails(s, digits, token, spaces, value);
}

} // verus!
