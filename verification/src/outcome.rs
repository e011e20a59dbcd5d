//! What the framer hands back when it cannot hand back a message.

use vstd::prelude::*;

verus! {

/// Why a buffer can never become a message, however many bytes follow.
#[derive(Clone, Copy, Debug, PartialEq, Eq, Structural)]
pub enum FrameError {
    /// The buffer does not begin with the `Content-Length: ` literal.
    MissingHeader,
    /// Between the literal and the next `\r` there is no digit, or something
    /// that is not a digit, or the digits stand for more than `usize::MAX`.
    MalformedLength,
    /// A `charset=` clause whose value, up to the next `\r`, is neither
    /// `utf-8` nor `utf8`.
    MalformedCharset,
    /// The header block breaks the grammar in any other way: a `\r` without
    /// its `\n`, a second line that is neither blank nor a `Content-Type`
    /// line, an empty type token, a parameter other than `charset`.
    MalformedHeader,
}

/// Why a call returned no message.
#[derive(Clone, Copy, Debug, PartialEq, Eq, Structural)]
pub enum ParseError {
    /// The buffer is a proper beginning of what the call looks for. The number
    /// is positive, and no fewer bytes than that have to arrive before the
    /// call can succeed.
    Incomplete(usize),
    /// The buffer breaks the grammar, and no further byte will mend it.
    Failed(FrameError),
}

} // verus!
