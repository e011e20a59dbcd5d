//! The two ways in which the framer moves over a buffer: by a literal, and
//! by a run of bytes of one class.

use vstd::prelude::*;
use crate::grammar::{agrees, literal, run_end, ByteClass, Step, CR, SEMICOLON, SPACE};
use crate::outcome::{FrameError, ParseError};

verus! {

/// The step that an executable result stands for.
pub open spec fn step_of(r: Result<usize, ParseError>) -> Step {
    match r {
        Ok(next) => Step::Go(next as int),
        Err(ParseError::Incomplete(n)) => Step::Wait(n as nat),
        Err(ParseError::Failed(e)) => Step::Fail(e),
    }
}

impl ByteClass {
    /// Whether `b` is of this class.
    pub fn admits(&self, b: u8) -> (r: bool)
        ensures
            r == self.holds(b),
    {
        match self {
            ByteClass::Digit => '0' as u8 <= b && b <= '9' as u8,
            ByteClass::Token => b != SEMICOLON && b != CR,
            ByteClass::Space => b == SPACE,
        }
    }
}

/// Takes the literal `lit` at position `at`.
pub(crate) fn take_literal(input: &[u8], at: usize, lit: &[u8], e: FrameError) -> (r: Result<
    usize,
    ParseError,
>)
    requires
        at <= input@.len(),
    ensures
        step_of(r) == literal(input@, at as int, lit@, e),
{
    let rest = input.len() - at;
    let have = if rest < lit.len() {
        rest
    } else {
        lit.len()
    };
    let mut i: usize = 0;
    while i < have
        invariant
            i <= have,
            have <= lit@.len(),
            at + have <= input@.len() <= usize::MAX,
            agrees(input@, at as int, lit@, i as int),
        decreases have - i,
    {
        if input[at + i] != lit[i] {
            assert(!agrees(input@, at as int, lit@, have as int));
            return Err(ParseError::Failed(e));
        }
        i += 1;
    }
    if have < lit.len() {
        Err(ParseError::Incomplete(lit.len() - have))
    } else {
        Ok(at + have)
    }
}

/// Skips the bytes of `class` from position `from` on.
pub(crate) fn skip_run(input: &[u8], from: usize, class: ByteClass) -> (end: usize)
    requires
        from <= input@.len(),
    ensures
        end == run_end(input@, from as int, class),
        from <= end <= input@.len(),
{
    let mut i: usize = from;
    while i < input.len() && class.admits(input[i])
        invariant
            from <= i <= input@.len(),
            run_end(input@, from as int, class) == run_end(input@, i as int, class),
        decreases input@.len() - i,
    {
        i += 1;
    }
    i
}

} // verus!
