//! The identifier that a request carries, and that its response repeats.

use vstd::prelude::*;
use crate::decimal::{ascii_text, decimal_digits, decimal_string};

verus! {

/// A request identifier: a number or a text.
#[derive(Debug)]
pub enum Id {
    /// A numeric identifier.
    Number(u64),
    /// A textual identifier.
    Text(String),
}

/// An identifier as a mathematical value.
pub enum IdValue {
    /// The number.
    Number(nat),
    /// The characters of the text.
    Text(Seq<char>),
}

impl View for Id {
    type V = IdValue;

    open spec fn view(&self) -> IdValue {
        match self {
            Id::Number(n) => IdValue::Number(*n as nat),
            Id::Text(t) => IdValue::Text(t@),
        }
    }
}

/// The text that `std`'s `Debug` formatting gives for a string: the string
/// between double quotes, with `"`, `\` and what cannot be printed written
/// as escapes.
pub uninterp spec fn quoted(text: Seq<char>) -> Seq<char>;

impl IdValue {
    /// The identifier as it is shown: a number in decimal, a text quoted.
    pub open spec fn shown(self) -> Seq<char> {
        match self {
            IdValue::Number(n) => ascii_text(decimal_digits(n)),
            IdValue::Text(t) => quoted(t),
        }
    }
}

/// Formats `text` with `{:?}`, that is through `<str as Debug>::fmt`. The
/// contract only names the result: it is a function of the characters of
/// `text` and of nothing else.
#[verifier::external_body]
fn quote(text: &str) -> (r: String)
    ensures
        r@ == quoted(text@),
{
    format!("{:?}", text)
}

impl Clone for Id {
    fn clone(&self) -> (r: Self)
        ensures
            r == *self,
    {
        match self {
            Id::Number(n) => Id::Number(*n),
            Id::Text(t) => Id::Text(t.clone()),
        }
    }
}

/// Two identifiers are equal where they are of the same kind and hold the
/// same number or the same text.
impl PartialEq for Id {
    fn eq(&self, other: &Self) -> (r: bool) {
        match (self, other) {
            (Id::Number(a), Id::Number(b)) => *a == *b,
            (Id::Text(a), Id::Text(b)) => *a == *b,
            _ => false,
        }
    }
}

impl vstd::std_specs::cmp::PartialEqSpecImpl for Id {
    open spec fn obeys_eq_spec() -> bool {
        true
    }

    open spec fn eq_spec(&self, other: &Self) -> bool {
        self@ == other@
    }
}

impl Id {
    /// The identifier as it is shown to a reader: a number in decimal, a
    /// text between quotes.
    pub fn to_string(&self) -> (r: String)
        ensures
            r@ == self@.shown(),
    {
        match self {
            Id::Number(n) => decimal_string(*n),
            Id::Text(t) => quote(t.as_str()),
        }
    }
}

} // verus!
