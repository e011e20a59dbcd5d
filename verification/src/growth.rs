//! How the steps of the grammar behave when bytes are added behind a
//! buffer: what was decided stays decided, and a step that waits for `n`
//! bytes does not match before `n` bytes have come.

use vstd::prelude::*;
use crate::grammar::{
    agrees, charset_clause, charset_close, charset_key, crlf, digits_end, header, lemma_run_end,
    length_digits, length_line, length_tag, line_end, literal, run_end, type_line, type_tag,
    utf8, utf_8, ByteClass, Step,
};
use crate::outcome::FrameError;

verus! {

/// What a step on a longer buffer owes to the same step on the shorter one:
/// a match or a failure is kept as it is, and behind a wait for `n` bytes
/// there is no match unless `extra`, the number of bytes added, reaches `n`.
pub open spec fn kept(before: Step, after: Step, extra: nat) -> bool {
    match before {
        Step::Go(_) => after == before,
        Step::Fail(_) => after == before,
        Step::Wait(n) => after is Go ==> extra >= n,
    }
}

/// A step that matched from `at` on ends within the buffer.
pub open spec fn within(step: Step, at: int, len: nat) -> bool {
    step matches Step::Go(x) ==> at <= x <= len
}

/// A literal on a longer buffer: besides what every step owes, a literal
/// that waits, waits for exactly what it lacks, before and after.
pub proof fn lemma_literal_grows(s: Seq<u8>, t: Seq<u8>, at: int, lit: Seq<u8>, e: FrameError)
    requires
        0 <= at <= s.len(),
    ensures
        kept(literal(s, at, lit, e), literal(s + t, at, lit, e), t.len()),
        within(literal(s, at, lit, e), at, s.len()),
        literal(s, at, lit, e) matches Step::Wait(n) ==> n + s.len() == at + lit.len() && n >= 1,
        literal(s, at, lit, e) is Wait ==> (literal(s + t, at, lit, e) matches Step::Wait(m)
            ==> m + t.len() + s.len() == at + lit.len()),
{
    let u = s + t;
    let have = if s.len() - at < lit.len() {
        s.len() - at
    } else {
        lit.len() as int
    };
    let more = if u.len() - at < lit.len() {
        u.len() - at
    } else {
        lit.len() as int
    };
    assert(have <= more);
    if agrees(u, at, lit, more) {
        assert forall|i: int| 0 <= i < have implies s[at + i] == #[trigger] lit[i] by {
            assert(u[at + i] == s[at + i]);
        }
    }
    if !agrees(s, at, lit, have) {
        let i = choose|i: int| 0 <= i < have && s[at + i] != #[trigger] lit[i];
        assert(u[at + i] == s[at + i]);
    }
    if have == lit.len() && agrees(s, at, lit, have) {
        assert forall|i: int| 0 <= i < more implies u[at + i] == #[trigger] lit[i] by {
            assert(u[at + i] == s[at + i]);
        }
    }
}

/// A run that ended before the buffer's end ends there on a longer buffer
/// too; one that reached the end may go on.
pub proof fn lemma_run_grows(s: Seq<u8>, t: Seq<u8>, from: int, class: ByteClass)
    requires
        0 <= from <= s.len(),
    ensures
        from <= run_end(s, from, class) <= s.len(),
        run_end(s, from, class) < s.len() ==> run_end(s + t, from, class) == run_end(
            s,
            from,
            class,
        ),
        run_end(s, from, class) == s.len() ==> run_end(s + t, from, class) >= s.len(),
    decreases s.len() - from,
{
    let u = s + t;
    if from < s.len() {
        assert(u[from] == s[from]);
        if class.holds(s[from]) {
            lemma_run_grows(s, t, from + 1, class);
        }
    } else {
        lemma_run_end(u, from, class);
    }
}

/// The end of a line on a longer buffer.
pub proof fn lemma_line_end_grows(s: Seq<u8>, t: Seq<u8>, at: int)
    requires
        0 <= at <= s.len(),
    ensures
        kept(line_end(s, at), line_end(s + t, at), t.len()),
        within(line_end(s, at), at, s.len()),
{
    lemma_literal_grows(s, t, at, crlf(), FrameError::MalformedHeader);
}

/// The first line on a longer buffer. Once it has matched, its digits end
/// where they ended.
pub proof fn lemma_length_line_grows(s: Seq<u8>, t: Seq<u8>)
    ensures
        kept(length_line(s), length_line(s + t), t.len()),
        within(length_line(s), 0, s.len()),
        length_line(s) matches Step::Go(p) ==> {
            &&& length_tag().len() < digits_end(s)
            &&& p == digits_end(s) + crlf().len()
            &&& digits_end(s + t) == digits_end(s)
        },
{
    let u = s + t;
    lemma_literal_grows(s, t, 0, length_tag(), FrameError::MissingHeader);
    if let Step::Go(a) = literal(s, 0, length_tag(), FrameError::MissingHeader) {
        lemma_run_grows(s, t, a, ByteClass::Digit);
        let d = run_end(s, a, ByteClass::Digit);
        if d < s.len() {
            assert(u[d] == s[d]);
            lemma_line_end_grows(s, t, d);
        } else if t.len() == 0 {
            assert(u =~= s);
        }
    }
}

/// The end of a charset value on a longer buffer.
pub proof fn lemma_charset_close_grows(s: Seq<u8>, t: Seq<u8>, at: int)
    requires
        0 <= at <= s.len(),
    ensures
        kept(charset_close(s, at), charset_close(s + t, at), t.len()),
        within(charset_close(s, at), at, s.len()),
{
    let u = s + t;
    lemma_line_end_grows(s, t, at);
    if at < s.len() {
        assert(u[at] == s[at]);
    }
}

/// A `charset` clause on a longer buffer. Where the clause waited for the
/// rest of `utf-8` and the longer buffer spells `utf8`, the line still has to
/// end, which takes more bytes than were waited for.
pub proof fn lemma_charset_clause_grows(s: Seq<u8>, t: Seq<u8>, at: int)
    requires
        0 <= at <= s.len(),
    ensures
        kept(charset_clause(s, at), charset_clause(s + t, at), t.len()),
        within(charset_clause(s, at), at, s.len()),
{
    let u = s + t;
    lemma_run_grows(s, t, at, ByteClass::Space);
    let b = run_end(s, at, ByteClass::Space);
    if b < s.len() {
        lemma_literal_grows(s, t, b, charset_key(), FrameError::MalformedHeader);
        if let Step::Go(c) = literal(s, b, charset_key(), FrameError::MalformedHeader) {
            lemma_literal_grows(s, t, c, utf_8(), FrameError::MalformedCharset);
            lemma_literal_grows(s, t, c, utf8(), FrameError::MalformedCharset);
            lemma_literal_grows(u, Seq::empty(), c, utf8(), FrameError::MalformedCharset);
            if c + utf8().len() <= u.len() {
                lemma_charset_close_grows(u, Seq::empty(), c + utf8().len());
            }
            if let Step::Go(x) = literal(s, c, utf_8(), FrameError::MalformedCharset) {
                lemma_charset_close_grows(s, t, x);
            }
            if let Step::Go(x) = literal(s, c, utf8(), FrameError::MalformedCharset) {
                lemma_charset_close_grows(s, t, x);
            }
        }
    } else if t.len() == 0 {
        assert(u =~= s);
    }
}

/// A `Content-Type` line on a longer buffer.
pub proof fn lemma_type_line_grows(s: Seq<u8>, t: Seq<u8>, at: int)
    requires
        0 <= at <= s.len(),
    ensures
        kept(type_line(s, at), type_line(s + t, at), t.len()),
        within(type_line(s, at), at, s.len()),
{
    let u = s + t;
    lemma_run_grows(s, t, at, ByteClass::Token);
    let e = run_end(s, at, ByteClass::Token);
    if e < s.len() {
        assert(u[e] == s[e]);
        lemma_charset_clause_grows(s, t, e + 1);
        lemma_line_end_grows(s, t, e);
    } else if t.len() == 0 {
        assert(u =~= s);
    }
}

/// The header block on a longer buffer. Once it has matched, the digits of
/// its length are the same digits.
pub proof fn lemma_header_grows(s: Seq<u8>, t: Seq<u8>)
    ensures
        kept(header(s), header(s + t), t.len()),
        within(header(s), 0, s.len()),
        header(s) matches Step::Go(b) ==> {
            &&& digits_end(s) < b
            &&& length_digits(s + t) == length_digits(s)
        },
{
    let u = s + t;
    lemma_length_line_grows(s, t);
    if let Step::Go(p) = length_line(s) {
        assert(length_digits(s + t) =~= length_digits(s));
        lemma_line_end_grows(s, t, p);
        lemma_literal_grows(s, t, p, type_tag(), FrameError::MalformedHeader);
        lemma_literal_grows(u, Seq::empty(), p, type_tag(), FrameError::MalformedHeader);
        lemma_literal_grows(s, t, p, crlf(), FrameError::MalformedHeader);
        if let Step::Go(a) = literal(s, p, type_tag(), FrameError::MalformedHeader) {
            lemma_type_line_grows(s, t, a);
            if let Step::Go(q) = type_line(s, a) {
                lemma_line_end_grows(s, t, q);
            }
        }
    }
}

} // verus!
