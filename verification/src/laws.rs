//! What holds of framing for every buffer.

use vstd::prelude::*;
use crate::decimal::decimal_value;
use crate::grammar::{header, length_digits, length_tag, literal, outcome, Outcome, Step};
use crate::growth::lemma_header_grows;
use crate::outcome::FrameError;
use crate::resync::{first_marker_at, has_marker, marker, marker_at, marker_behind_garbage};

verus! {

/// A failure is final: whatever bytes follow, the buffer fails in the same
/// way.
pub proof fn failure_is_final(s: Seq<u8>, t: Seq<u8>)
    requires
        outcome(s) is Failed,
    ensures
        outcome(s + t) == outcome(s),
{
    lemma_header_grows(s, t);
}

/// A message stays the message that it is: bytes that follow a buffer with
/// a whole message at its front go to the remainder.
pub proof fn message_is_kept(s: Seq<u8>, t: Seq<u8>)
    requires
        outcome(s) is Parsed,
    ensures
        outcome(s) matches Outcome::Parsed { payload, remainder } && outcome(s + t)
            == (Outcome::Parsed { payload, remainder: remainder + t }),
{
    lemma_header_grows(s, t);
    if let Step::Go(b) = header(s) {
        let length = decimal_value(length_digits(s));
        assert((s + t).subrange(b, b + length) =~= s.subrange(b, b + length));
        assert((s + t).subrange(b + length, (s + t).len() as int) =~= s.subrange(
            b + length,
            s.len() as int,
        ) + t);
    }
}

/// The number that comes with `Incomplete` is a lower bound: with fewer
/// bytes than that behind it, the buffer is still no message.
pub proof fn needed_is_a_lower_bound(s: Seq<u8>, t: Seq<u8>)
    requires
        outcome(s) matches Outcome::Incomplete(n) && t.len() < n,
    ensures
        !(outcome(s + t) is Parsed),
{
    lemma_header_grows(s, t);
}

/// `Incomplete` never comes with zero: at least one byte is missing.
pub proof fn needed_is_positive(s: Seq<u8>)
    requires
        outcome(s) is Incomplete,
    ensures
        outcome(s) matches Outcome::Incomplete(n) && n >= 1,
{
    lemma_header_grows(s, Seq::empty());
}

/// A buffer cut anywhere before the end of its first message is incomplete,
/// and never fails.
pub proof fn cut_message_is_incomplete(s: Seq<u8>, k: int)
    requires
        outcome(s) matches Outcome::Parsed { payload, remainder } && 0 <= k < s.len()
            - remainder.len(),
    ensures
        outcome(s.take(k)) is Incomplete,
{
    let front = s.take(k);
    let back = s.skip(k);
    assert(front + back =~= s);
    if outcome(front) is Failed {
        failure_is_final(front, back);
    }
    if outcome(front) is Parsed {
        message_is_kept(front, back);
    }
}

/// A buffer fails with `MissingHeader` exactly where one of its bytes,
/// among the first sixteen, is not the byte of `Content-Length: ` at that
/// place; however long the buffer is.
pub proof fn missing_header_is_a_wrong_byte(s: Seq<u8>)
    ensures
        outcome(s) == Outcome::Failed(FrameError::MissingHeader) <==> exists|i: int|
            0 <= i < s.len() && i < length_tag().len() && s[i] != #[trigger] length_tag()[i],
{
    lemma_header_grows(s, Seq::empty());
    let step = literal(s, 0, length_tag(), FrameError::MissingHeader);
    if step is Fail {
        let have = if s.len() < length_tag().len() {
            s.len() as int
        } else {
            length_tag().len() as int
        };
        let i = choose|i: int| 0 <= i < have && s[0 + i] != #[trigger] length_tag()[i];
        assert(s[i] != length_tag()[i]);
    }
}

/// A message begins with the marker by which `find_next_message` finds
/// it.
pub proof fn message_begins_with_marker(s: Seq<u8>)
    requires
        outcome(s) is Parsed,
    ensures
        marker_at(s, 0),
{
    lemma_header_grows(s, Seq::empty());
    assert forall|i: int| 0 <= i < marker().len() implies s[0 + i] == #[trigger] marker()[i] by {
        assert(s[0 + i] == length_tag()[i]);
    }
}

/// Behind garbage that does not hold the marker, a message is found again:
/// the marker is first found at the message's first byte, and the buffer
/// from there on frames as the message does.
pub proof fn message_is_found_behind_garbage(garbage: Seq<u8>, message: Seq<u8>)
    requires
        !has_marker(garbage),
        outcome(message) is Parsed,
    ensures
        first_marker_at(garbage + message, garbage.len() as int),
        outcome((garbage + message).skip(garbage.len() as int)) == outcome(message),
{
    message_begins_with_marker(message);
    marker_behind_garbage(garbage, message);
}

} // verus!
