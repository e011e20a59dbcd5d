//! Finding the place where the next header may begin, behind bytes that
//! belong to no message.

use vstd::prelude::*;
use crate::grammar::{agrees, literal};
use crate::outcome::{FrameError, ParseError};
use crate::scan::take_literal;

verus! {

/// `Content-Length`, the bytes by which a header is found again.
pub const MARKER: [u8; 14] = [
    'C' as u8, 'o' as u8, 'n' as u8, 't' as u8, 'e' as u8, 'n' as u8, 't' as u8, '-' as u8,
    'L' as u8, 'e' as u8, 'n' as u8, 'g' as u8, 't' as u8, 'h' as u8,
];

/// The bytes of [`MARKER`].
pub open spec fn marker() -> Seq<u8> {
    MARKER@
}

/// The marker stands in `s` at position `i`, whole.
pub open spec fn marker_at(s: Seq<u8>, i: int) -> bool {
    &&& 0 <= i
    &&& i + marker().len() <= s.len()
    &&& agrees(s, i, marker(), marker().len() as int)
}

/// The last `k` bytes of `s` are the first `k` bytes of the marker.
pub open spec fn ends_in_prefix(s: Seq<u8>, k: int) -> bool {
    &&& 0 <= k <= s.len()
    &&& k <= marker().len()
    &&& agrees(s, s.len() - k, marker(), k)
}

/// The greatest `k` up to `limit` for which `s` ends in the marker's first
/// `k` bytes.
pub open spec fn overlap_up_to(s: Seq<u8>, limit: nat) -> nat
    decreases limit,
{
    if limit == 0 {
        0
    } else if ends_in_prefix(s, limit as int) {
        limit
    } else {
        overlap_up_to(s, (limit - 1) as nat)
    }
}

/// How much of the marker a buffer without the whole marker may already
/// hold at its end: the length of the longest proper beginning of the
/// marker that ends `s`.
pub open spec fn overlap(s: Seq<u8>) -> nat {
    overlap_up_to(s, (marker().len() - 1) as nat)
}

/// The marker stands somewhere in `s`.
pub open spec fn has_marker(s: Seq<u8>) -> bool {
    exists|i: int| marker_at(s, i)
}

/// The marker stands in `s` at position `i` and nowhere before.
pub open spec fn first_marker_at(s: Seq<u8>, i: int) -> bool {
    &&& marker_at(s, i)
    &&& forall|j: int| 0 <= j < i ==> !marker_at(s, j)
}

/// `k` is the overlap where the buffer ends in `k` bytes of the marker and
/// in no longer proper beginning of it.
pub proof fn lemma_overlap_is(s: Seq<u8>, k: int, limit: nat)
    requires
        0 <= k <= limit < marker().len(),
        ends_in_prefix(s, k),
        forall|j: int| k < j < marker().len() ==> !ends_in_prefix(s, j),
    ensures
        overlap_up_to(s, limit) == k,
    decreases limit,
{
    if limit > k {
        lemma_overlap_is(s, k, (limit - 1) as nat);
    }
}

/// Looks for the first place in `input` where the marker stands.
///
/// `Ok((rest, offset))` gives the number of bytes before that place, which
/// the caller drops, and the buffer from that place on. Where the marker
/// stands nowhere the call asks for more bytes: the marker may have begun at
/// the buffer's end, and `Incomplete` counts the bytes of it that are still
/// to come. The call never fails. It does not look at what follows the
/// marker.
pub fn find_next_message(input: &[u8]) -> (res: Result<(&[u8], usize), ParseError>)
    ensures
        res is Ok <==> has_marker(input@),
        match res {
            Ok((rest, offset)) => {
                &&& first_marker_at(input@, offset as int)
                &&& rest@ == input@.skip(offset as int)
            },
            Err(halt) => halt == ParseError::Incomplete(
                (marker().len() - overlap(input@)) as usize,
            ),
        },
{
    let len = input.len();
    let mut at: usize = 0;
    loop
        invariant
            at <= len == input@.len(),
            forall|j: int| 0 <= j < at ==> literal(input@, j, marker(), FrameError::MissingHeader) is Fail,
        decreases input@.len() - at,
    {
        match take_literal(input, at, MARKER.as_slice(), FrameError::MissingHeader) {
            Ok(_) => {
                assert forall|j: int| 0 <= j < at implies !marker_at(input@, j) by {
                    assert(literal(input@, j, marker(), FrameError::MissingHeader) is Fail);
                }
                assert(marker_at(input@, at as int));
                assert(input@.subrange(at as int, len as int) =~= input@.skip(at as int));
                return Ok((&input[at..len], at));
            },
            Err(ParseError::Incomplete(needed)) => {
                proof {
                    let s = input@;
                    let k = s.len() - at;
                    assert(ends_in_prefix(s, k));
                    assert forall|j: int| k < j < marker().len() implies !ends_in_prefix(s, j) by {
                        if j <= s.len() {
                            assert(literal(s, s.len() - j, marker(), FrameError::MissingHeader) is Fail);
                        }
                    }
                    lemma_overlap_is(s, k, (marker().len() - 1) as nat);
                    assert forall|j: int| !marker_at(s, j) by {
                        if 0 <= j < at {
                            assert(literal(s, j, marker(), FrameError::MissingHeader) is Fail);
                        }
                    }
                }
                return Err(ParseError::Incomplete(needed));
            },
            Err(ParseError::Failed(_)) => {
                assert(at < input@.len()) by {
                    assert(agrees(input@, at as int, marker(), 0));
                }
                at += 1;
            },
        }
    }
}

/// The overlap is a proper beginning of the marker that ends the buffer,
/// and the longest one.
pub proof fn lemma_overlap(s: Seq<u8>)
    ensures
        overlap(s) < marker().len(),
        ends_in_prefix(s, overlap(s) as int),
        forall|k: int| overlap(s) < k < marker().len() ==> !ends_in_prefix(s, k),
{
    lemma_overlap_up_to(s, (marker().len() - 1) as nat);
}

proof fn lemma_overlap_up_to(s: Seq<u8>, limit: nat)
    requires
        limit < marker().len(),
    ensures
        overlap_up_to(s, limit) <= limit,
        ends_in_prefix(s, overlap_up_to(s, limit) as int),
        forall|k: int| overlap_up_to(s, limit) < k <= limit ==> !ends_in_prefix(s, k),
    decreases limit,
{
    if limit > 0 && !ends_in_prefix(s, limit as int) {
        lemma_overlap_up_to(s, (limit - 1) as nat);
    }
}

/// Where the marker stands in a buffer that was made longer, it stood there
/// before, or it reaches into the new bytes from a beginning that ended the
/// old buffer.
proof fn lemma_marker_in_longer(s: Seq<u8>, t: Seq<u8>, j: int)
    requires
        marker_at(s + t, j),
    ensures
        marker_at(s, j) || s.len() + t.len() >= j + marker().len() > s.len(),
        j < s.len() < j + marker().len() ==> ends_in_prefix(s, s.len() - j),
{
    let u = s + t;
    if j + marker().len() <= s.len() {
        assert forall|i: int| 0 <= i < marker().len() implies s[j + i] == #[trigger] marker()[i] by {
            assert(u[j + i] == s[j + i]);
        }
    } else if j < s.len() {
        let k = s.len() - j;
        assert forall|i: int| 0 <= i < k implies s[s.len() - k + i] == #[trigger] marker()[i] by {
            assert(u[j + i] == s[j + i]);
        }
    }
}

/// The number that `find_next_message` asks for is a lower bound: with
/// fewer bytes behind it, a buffer without the marker is still without it.
pub proof fn marker_needs_its_rest(s: Seq<u8>, t: Seq<u8>)
    requires
        !has_marker(s),
        t.len() < marker().len() - overlap(s),
    ensures
        !has_marker(s + t),
{
    lemma_overlap(s);
    assert forall|j: int| !marker_at(s + t, j) by {
        if marker_at(s + t, j) {
            lemma_marker_in_longer(s, t, j);
            assert(!marker_at(s, j));
        }
    }
}

/// And it is the least such number: the rest of the marker, which has that
/// many bytes, completes it, at the place where its beginning stood.
pub proof fn marker_rest_completes(s: Seq<u8>)
    requires
        !has_marker(s),
    ensures
        first_marker_at(s + marker().skip(overlap(s) as int), s.len() - overlap(s)),
        marker().skip(overlap(s) as int).len() == marker().len() - overlap(s),
{
    lemma_overlap(s);
    let k = overlap(s) as int;
    let t = marker().skip(k);
    let u = s + t;
    let at = s.len() - k;
    assert forall|i: int| 0 <= i < marker().len() implies u[at + i] == #[trigger] marker()[i] by {
        if i < k {
            assert(u[at + i] == s[s.len() - k + i]);
        } else {
            assert(u[at + i] == t[i - k]);
        }
    }
    assert forall|j: int| 0 <= j < at implies !marker_at(u, j) by {
        if marker_at(u, j) {
            lemma_marker_in_longer(s, t, j);
            assert(!marker_at(s, j));
        }
    }
}

/// Garbage without the marker, followed by bytes that begin with the
/// marker: the marker is first found where the garbage ends, and what is
/// left when the garbage is dropped are the bytes that followed it.
pub proof fn marker_behind_garbage(garbage: Seq<u8>, message: Seq<u8>)
    requires
        !has_marker(garbage),
        marker_at(message, 0),
    ensures
        first_marker_at(garbage + message, garbage.len() as int),
        (garbage + message).skip(garbage.len() as int) == message,
{
    let u = garbage + message;
    let at = garbage.len() as int;
    assert(u.skip(at) =~= message);
    assert forall|i: int| 0 <= i < marker().len() implies u[at + i] == #[trigger] marker()[i] by {
        assert(u[at + i] == message[0 + i]);
    }
    assert forall|j: int| 0 <= j < at implies !marker_at(u, j) by {
        if marker_at(u, j) {
            lemma_marker_in_longer(garbage, message, j);
            assert(!marker_at(garbage, j));
            // the marker would begin anew inside itself, with a second `C`
            let k = at - j;
            assert(u[j + k] == marker()[k]);
            assert(u[at + 0] == marker()[0]);
        }
    }
}

} // verus!
