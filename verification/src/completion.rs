//! That a buffer which is incomplete can still become a message: for each
//! place at which the grammar may wait, the bytes that let it go on.

use vstd::prelude::*;
use crate::decimal::decimal_value;
use crate::grammar::{
    charset_clause, charset_close, charset_key, crlf, digits_end, header, holds_at,
    lemma_literal_taken, lemma_part_holds, lemma_run_end, lemma_run_end_is, lemma_run_taken,
    length_digits, length_line, length_tag, line_end, literal, outcome, run_end, type_line,
    type_tag, utf8, utf_8, ByteClass, Outcome, Step, SEMICOLON,
};
use crate::growth::{
    lemma_header_grows, lemma_length_line_grows, lemma_line_end_grows, lemma_literal_grows,
    lemma_run_grows, lemma_type_line_grows,
};
use crate::outcome::FrameError;

verus! {

/// What a literal at `at` still lacks where the buffer ends within it.
pub open spec fn literal_rest(s: Seq<u8>, at: int, lit: Seq<u8>) -> Seq<u8> {
    lit.skip(s.len() - at)
}

/// A literal that waits is matched once its rest stands behind the buffer.
proof fn lemma_literal_completes(s: Seq<u8>, t: Seq<u8>, at: int, lit: Seq<u8>, e: FrameError)
    requires
        0 <= at <= s.len(),
        literal(s, at, lit, e) is Wait,
        holds_at(s + t, s.len() as int, literal_rest(s, at, lit)),
    ensures
        literal(s + t, at, lit, e) == Step::Go(at + lit.len()),
        at + lit.len() == s.len() + literal_rest(s, at, lit).len(),
{
    let u = s + t;
    let have = s.len() - at;
    let rest = literal_rest(s, at, lit);
    assert forall|i: int| 0 <= i < lit.len() implies u[at + i] == #[trigger] lit[i] by {
        if i < have {
            assert(u[at + i] == s[at + i]);
        } else {
            assert(u[s.len() + (i - have)] == rest[i - have]);
        }
    }
}

/// A run that reached the buffer's end ends there once a byte of another
/// class stands behind the buffer.
proof fn lemma_run_completes(s: Seq<u8>, t: Seq<u8>, from: int, class: ByteClass)
    requires
        0 <= from <= s.len(),
        run_end(s, from, class) == s.len(),
        t.len() >= 1,
        !class.holds(t[0]),
    ensures
        run_end(s + t, from, class) == s.len(),
{
    let u = s + t;
    lemma_run_end(s, from, class);
    assert forall|i: int| from <= i < s.len() implies class.holds(#[trigger] u[i]) by {
        assert(u[i] == s[i]);
    }
    assert(u[s.len() as int] == t[0]);
    lemma_run_end_is(u, from, class, s.len() as int);
}

/// The digit `0`, the shortest length that can be written.
pub open spec fn zero() -> Seq<u8> {
    seq!['0' as u8]
}

/// The bytes with which a first line that waits is complete: the rest of the
/// literal or of the line's end; where no digit stands yet, a `0` as well.
pub open spec fn length_line_rest(s: Seq<u8>) -> Seq<u8> {
    match literal(s, 0, length_tag(), FrameError::MissingHeader) {
        Step::Go(a) => {
            let d = run_end(s, a, ByteClass::Digit);
            if d < s.len() {
                literal_rest(s, d, crlf())
            } else if d == a {
                zero() + crlf()
            } else {
                crlf()
            }
        },
        _ => literal_rest(s, 0, length_tag()) + zero() + crlf(),
    }
}

/// The digits that the first line has once `length_line_rest` stands behind
/// it: those that the buffer holds, or the `0` that was added.
pub open spec fn digits_in_hand(s: Seq<u8>) -> Seq<u8> {
    if s.len() <= length_tag().len() || digits_end(s) == length_tag().len() {
        zero()
    } else {
        length_digits(s)
    }
}

/// With its rest behind the buffer the first line is taken, to the end of
/// that rest.
proof fn lemma_length_line_completes(s: Seq<u8>, t: Seq<u8>)
    requires
        length_line(s) is Wait,
        holds_at(s + t, s.len() as int, length_line_rest(s)),
    ensures
        length_line(s + t) == Step::Go((s.len() + length_line_rest(s).len()) as int),
        length_digits(s + t) == digits_in_hand(s),
{
    let u = s + t;
    let n = s.len() as int;
    let rest = length_line_rest(s);
    let a = length_tag().len() as int;
    lemma_literal_grows(s, t, 0, length_tag(), FrameError::MissingHeader);
    if literal(s, 0, length_tag(), FrameError::MissingHeader) is Go {
        let d = run_end(s, a, ByteClass::Digit);
        lemma_run_grows(s, t, a, ByteClass::Digit);
        if d < n {
            assert(u[d] == s[d]);
            lemma_literal_completes(s, t, d, crlf(), FrameError::MalformedHeader);
            assert(length_digits(u) =~= length_digits(s));
        } else if d == a {
            assert(rest.subrange(0, 1) =~= zero());
            assert(rest.subrange(1, 3) =~= crlf());
            lemma_part_holds(u, n, rest, 0, zero());
            lemma_part_holds(u, n, rest, 1, crlf());
            assert(u[n + 1 + 0] == crlf()[0]);
            lemma_run_taken(u, a, zero(), ByteClass::Digit);
            lemma_literal_taken(u, a + 1, crlf(), FrameError::MalformedHeader);
            assert(length_digits(u) =~= zero());
        } else {
            assert(u[n + 0] == crlf()[0]);
            assert(u[n] == t[0]);
            lemma_run_completes(s, t, a, ByteClass::Digit);
            lemma_literal_taken(u, n, crlf(), FrameError::MalformedHeader);
            assert(length_digits(u) =~= length_digits(s));
        }
    } else {
        let lack = literal_rest(s, 0, length_tag());
        let k = lack.len() as int;
        assert(rest.subrange(0, k) =~= lack);
        assert(rest.subrange(k, k + 1) =~= zero());
        assert(rest.subrange(k + 1, k + 3) =~= crlf());
        lemma_part_holds(u, n, rest, 0, lack);
        lemma_part_holds(u, n, rest, k, zero());
        lemma_part_holds(u, n, rest, k + 1, crlf());
        lemma_literal_completes(s, t, 0, length_tag(), FrameError::MissingHeader);
        assert(u[a + 1 + 0] == crlf()[0]);
        lemma_run_taken(u, a, zero(), ByteClass::Digit);
        lemma_literal_taken(u, a + 1, crlf(), FrameError::MalformedHeader);
        assert(length_digits(u) =~= zero());
    }
}

/// With the rest of the line's end behind the buffer, the end of a charset
/// value is taken.
proof fn lemma_charset_close_completes(s: Seq<u8>, t: Seq<u8>, at: int)
    requires
        0 <= at <= s.len(),
        charset_close(s, at) is Wait,
        holds_at(s + t, s.len() as int, literal_rest(s, at, crlf())),
    ensures
        charset_close(s + t, at) == Step::Go((s.len() + literal_rest(s, at, crlf()).len()) as int),
{
    let u = s + t;
    let rest = literal_rest(s, at, crlf());
    lemma_literal_completes(s, t, at, crlf(), FrameError::MalformedHeader);
    if at < s.len() {
        assert(u[at] == s[at]);
    } else {
        assert(u[s.len() as int + 0] == rest[0]);
    }
}

/// The bytes with which a `charset` clause that waits is complete, the end
/// of its line included. Where the value is still open it becomes `utf-8`.
pub open spec fn charset_clause_rest(s: Seq<u8>, at: int) -> Seq<u8> {
    let b = run_end(s, at, ByteClass::Space);
    if b == s.len() {
        charset_key() + utf_8() + crlf()
    } else {
        match literal(s, b, charset_key(), FrameError::MalformedHeader) {
            Step::Go(c) => match literal(s, c, utf_8(), FrameError::MalformedCharset) {
                Step::Go(x) => literal_rest(s, x, crlf()),
                Step::Wait(_) => literal_rest(s, c, utf_8()) + crlf(),
                Step::Fail(_) => literal_rest(s, c + utf8().len() as int, crlf()),
            },
            _ => literal_rest(s, b, charset_key()) + utf_8() + crlf(),
        }
    }
}

/// Behind `charset=` at `c`, `utf-8` and the end of the line stand in the
/// buffer: the clause is taken.
proof fn lemma_value_taken(u: Seq<u8>, c: int)
    requires
        holds_at(u, c, utf_8() + crlf()),
    ensures
        literal(u, c, utf_8(), FrameError::MalformedCharset) == Step::Go(c + 5),
        charset_close(u, c + 5) == Step::Go(c + 7),
{
    let whole = utf_8() + crlf();
    assert(whole.subrange(0, 5) =~= utf_8());
    assert(whole.subrange(5, 7) =~= crlf());
    lemma_part_holds(u, c, whole, 0, utf_8());
    lemma_part_holds(u, c, whole, 5, crlf());
    lemma_literal_taken(u, c, utf_8(), FrameError::MalformedCharset);
    lemma_literal_taken(u, c + 5, crlf(), FrameError::MalformedHeader);
    assert(u[c + 5 + 0] == crlf()[0]);
}

/// With its rest behind the buffer a `charset` clause is taken, to the end
/// of that rest.
proof fn lemma_charset_clause_completes(s: Seq<u8>, t: Seq<u8>, at: int)
    requires
        0 <= at <= s.len(),
        charset_clause(s, at) is Wait,
        holds_at(s + t, s.len() as int, charset_clause_rest(s, at)),
    ensures
        charset_clause(s + t, at) == Step::Go((s.len() + charset_clause_rest(s, at).len()) as int),
{
    let u = s + t;
    let n = s.len() as int;
    let rest = charset_clause_rest(s, at);
    let b = run_end(s, at, ByteClass::Space);
    lemma_run_grows(s, t, at, ByteClass::Space);
    if b == n {
        let value = utf_8() + crlf();
        assert(rest.subrange(0, 8) =~= charset_key());
        assert(rest.subrange(8, 15) =~= value);
        lemma_part_holds(u, n, rest, 0, charset_key());
        lemma_part_holds(u, n, rest, 8, value);
        assert(u[n + 0] == charset_key()[0]);
        assert(u[n] == t[0]);
        lemma_run_completes(s, t, at, ByteClass::Space);
        lemma_literal_taken(u, n, charset_key(), FrameError::MalformedHeader);
        lemma_value_taken(u, n + 8);
    } else {
        lemma_literal_grows(s, t, b, charset_key(), FrameError::MalformedHeader);
        match literal(s, b, charset_key(), FrameError::MalformedHeader) {
            Step::Go(c) => {
                lemma_literal_grows(s, t, c, utf_8(), FrameError::MalformedCharset);
                match literal(s, c, utf_8(), FrameError::MalformedCharset) {
                    Step::Go(x) => {
                        lemma_charset_close_completes(s, t, x);
                    },
                    Step::Wait(_) => {
                        let lack = literal_rest(s, c, utf_8());
                        let k = lack.len() as int;
                        assert(rest.subrange(0, k) =~= lack);
                        assert(rest.subrange(k, k + 2) =~= crlf());
                        lemma_part_holds(u, n, rest, 0, lack);
                        lemma_part_holds(u, n, rest, k, crlf());
                        lemma_literal_completes(s, t, c, utf_8(), FrameError::MalformedCharset);
                        lemma_literal_taken(u, c + 5, crlf(), FrameError::MalformedHeader);
                        assert(u[c + 5 + 0] == crlf()[0]);
                    },
                    Step::Fail(_) => {
                        lemma_literal_grows(s, t, c, utf8(), FrameError::MalformedCharset);
                        if literal(s, c, utf8(), FrameError::MalformedCharset) is Wait {
                            // the two spellings begin alike: a byte that is
                            // wrong for the one is wrong for the other
                            let have = s.len() - c;
                            let i = choose|i: int|
                                0 <= i < have && s[c + i] != #[trigger] utf_8()[i];
                            assert(s[c + i] == utf8()[i]);
                        }
                        lemma_charset_close_completes(s, t, c + utf8().len() as int);
                    },
                }
            },
            _ => {
                let lack = literal_rest(s, b, charset_key());
                let k = lack.len() as int;
                let value = utf_8() + crlf();
                assert(rest.subrange(0, k) =~= lack);
                assert(rest.subrange(k, k + 7) =~= value);
                lemma_part_holds(u, n, rest, 0, lack);
                lemma_part_holds(u, n, rest, k, value);
                lemma_literal_completes(s, t, b, charset_key(), FrameError::MalformedHeader);
                lemma_value_taken(u, b + 8);
            },
        }
    }
}

/// A letter, the shortest type token that can be written.
pub open spec fn letter() -> Seq<u8> {
    seq!['a' as u8]
}

/// The bytes with which the rest of a `Content-Type` line that waits is
/// complete, the end of the line included. Where no byte of the token
/// stands yet, a letter is added.
pub open spec fn type_line_rest(s: Seq<u8>, at: int) -> Seq<u8> {
    let e = run_end(s, at, ByteClass::Token);
    if e == s.len() {
        if e == at {
            letter() + crlf()
        } else {
            crlf()
        }
    } else if s[e] == SEMICOLON {
        charset_clause_rest(s, e + 1)
    } else {
        literal_rest(s, e, crlf())
    }
}

/// A letter and the end of the line stand in the buffer behind the literal
/// of a `Content-Type` line: the line is taken.
proof fn lemma_letter_taken(u: Seq<u8>, at: int)
    requires
        holds_at(u, at, letter() + crlf()),
    ensures
        type_line(u, at) == Step::Go(at + 3),
{
    let whole = letter() + crlf();
    assert(whole.subrange(0, 1) =~= letter());
    assert(whole.subrange(1, 3) =~= crlf());
    lemma_part_holds(u, at, whole, 0, letter());
    lemma_part_holds(u, at, whole, 1, crlf());
    assert(u[at + 1 + 0] == crlf()[0]);
    lemma_run_taken(u, at, letter(), ByteClass::Token);
    lemma_literal_taken(u, at + 1, crlf(), FrameError::MalformedHeader);
}

/// With its rest behind the buffer a `Content-Type` line is taken, to the
/// end of that rest.
proof fn lemma_type_line_completes(s: Seq<u8>, t: Seq<u8>, at: int)
    requires
        0 <= at <= s.len(),
        type_line(s, at) is Wait,
        holds_at(s + t, s.len() as int, type_line_rest(s, at)),
    ensures
        type_line(s + t, at) == Step::Go((s.len() + type_line_rest(s, at).len()) as int),
{
    let u = s + t;
    let n = s.len() as int;
    let e = run_end(s, at, ByteClass::Token);
    lemma_run_grows(s, t, at, ByteClass::Token);
    if e == n {
        if e == at {
            lemma_letter_taken(u, at);
        } else {
            assert(u[n + 0] == crlf()[0]);
            assert(u[n] == t[0]);
            lemma_run_completes(s, t, at, ByteClass::Token);
            lemma_literal_taken(u, n, crlf(), FrameError::MalformedHeader);
        }
    } else {
        assert(u[e] == s[e]);
        if s[e] == SEMICOLON {
            lemma_charset_clause_completes(s, t, e + 1);
        } else {
            lemma_literal_completes(s, t, e, crlf(), FrameError::MalformedHeader);
        }
    }
}

/// The bytes with which a header block that waits is complete: the shortest
/// way from where the buffer ends to the blank line.
pub open spec fn header_rest(s: Seq<u8>) -> Seq<u8> {
    match length_line(s) {
        Step::Go(p) => match line_end(s, p) {
            Step::Fail(_) => match literal(s, p, type_tag(), FrameError::MalformedHeader) {
                Step::Go(a) => match type_line(s, a) {
                    Step::Go(q) => literal_rest(s, q, crlf()),
                    _ => type_line_rest(s, a) + crlf(),
                },
                _ => literal_rest(s, p, type_tag()) + letter() + crlf() + crlf(),
            },
            _ => literal_rest(s, p, crlf()),
        },
        _ => length_line_rest(s) + crlf(),
    }
}

/// With its rest behind the buffer the header block is taken, to the end of
/// that rest, and its digits are the digits in hand.
proof fn lemma_header_completes(s: Seq<u8>, t: Seq<u8>)
    requires
        header(s) is Wait,
        holds_at(s + t, s.len() as int, header_rest(s)),
    ensures
        header(s + t) == Step::Go((s.len() + header_rest(s).len()) as int),
        length_digits(s + t) == digits_in_hand(s),
{
    let u = s + t;
    let n = s.len() as int;
    let rest = header_rest(s);
    lemma_length_line_grows(s, t);
    match length_line(s) {
        Step::Go(p) => {
            assert(length_digits(u) =~= length_digits(s));
            lemma_line_end_grows(s, t, p);
            match line_end(s, p) {
                Step::Fail(_) => {
                    lemma_literal_grows(s, t, p, type_tag(), FrameError::MalformedHeader);
                    match literal(s, p, type_tag(), FrameError::MalformedHeader) {
                        Step::Go(a) => {
                            lemma_type_line_grows(s, t, a);
                            match type_line(s, a) {
                                Step::Go(q) => {
                                    lemma_literal_completes(
                                        s,
                                        t,
                                        q,
                                        crlf(),
                                        FrameError::MalformedHeader,
                                    );
                                },
                                _ => {
                                    let lack = type_line_rest(s, a);
                                    let k = lack.len() as int;
                                    assert(rest.subrange(0, k) =~= lack);
                                    assert(rest.subrange(k, k + 2) =~= crlf());
                                    lemma_part_holds(u, n, rest, 0, lack);
                                    lemma_part_holds(u, n, rest, k, crlf());
                                    lemma_type_line_completes(s, t, a);
                                    lemma_literal_taken(u, n + k, crlf(), FrameError::MalformedHeader);
                                },
                            }
                        },
                        _ => {
                            let lack = literal_rest(s, p, type_tag());
                            let k = lack.len() as int;
                            let line = letter() + crlf();
                            assert(rest.subrange(0, k) =~= lack);
                            assert(rest.subrange(k, k + 3) =~= line);
                            assert(rest.subrange(k + 3, k + 5) =~= crlf());
                            lemma_part_holds(u, n, rest, 0, lack);
                            lemma_part_holds(u, n, rest, k, line);
                            lemma_part_holds(u, n, rest, k + 3, crlf());
                            lemma_literal_completes(s, t, p, type_tag(), FrameError::MalformedHeader);
                            lemma_letter_taken(u, n + k);
                            lemma_literal_taken(u, n + k + 3, crlf(), FrameError::MalformedHeader);
                        },
                    }
                },
                _ => {
                    lemma_literal_completes(s, t, p, crlf(), FrameError::MalformedHeader);
                },
            }
        },
        _ => {
            let lack = length_line_rest(s);
            let k = lack.len() as int;
            assert(rest.subrange(0, k) =~= lack);
            assert(rest.subrange(k, k + 2) =~= crlf());
            lemma_part_holds(u, n, rest, 0, lack);
            lemma_part_holds(u, n, rest, k, crlf());
            lemma_length_line_completes(s, t);
            lemma_literal_taken(u, n + k, crlf(), FrameError::MalformedHeader);
        },
    }
}

/// `n` bytes of any value: here, zeros.
pub open spec fn filler(n: nat) -> Seq<u8> {
    Seq::new(n, |i: int| 0u8)
}

/// Bytes that make a message of an incomplete buffer: what the header block
/// still lacks, and then as many bytes as the payload still lacks.
pub open spec fn completion(s: Seq<u8>) -> Seq<u8> {
    match header(s) {
        Step::Go(b) => filler((decimal_value(length_digits(s)) - (s.len() - b)) as nat),
        _ => header_rest(s) + filler(decimal_value(digits_in_hand(s))),
    }
}

/// An incomplete buffer can still become a message, unless the digits that
/// it holds already stand for a length beyond `usize::MAX`: with
/// `completion` behind it, the buffer is one message and nothing more.
pub proof fn incomplete_can_be_completed(s: Seq<u8>)
    requires
        outcome(s) is Incomplete,
        decimal_value(digits_in_hand(s)) <= usize::MAX,
    ensures
        outcome(s + completion(s)) matches Outcome::Parsed { payload, remainder }
            && remainder.len() == 0,
{
    let t = completion(s);
    let u = s + t;
    match header(s) {
        Step::Go(b) => {
            lemma_header_grows(s, t);
        },
        _ => {
            let rest = header_rest(s);
            assert(holds_at(u, s.len() as int, rest));
            lemma_header_completes(s, t);
        },
    }
}

} // verus!
