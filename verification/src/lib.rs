//! Framing of header-delimited messages on a byte stream.
//!
//! A message is a header block followed by a payload of the length that the
//! header declares:
//!
//! ```text
//! Content-Length: <digits>\r\n
//! [Content-Type: <token>[; charset=utf-8|utf8]\r\n]
//! \r\n
//! <payload>
//! ```
//!
//! [`parse_message`] takes one message off the front of a buffer, or says that
//! the buffer is still too short, or that it can never become a message.
//! [`find_next_message`] looks for the place where the next header may begin.
//! Neither keeps any state: the caller owns the buffer, adds to it what
//! arrives, and calls again.
//!
//! What the two functions return is stated over [`grammar::outcome`], a
//! mathematical function of the buffer's bytes, and proved. The modules
//! [`laws`], [`written`] and [`completion`] prove what that function means:
//! a buffer frames to a message exactly where it begins with a written one,
//! a failure is final, an incomplete buffer whose length is in range can
//! still be completed, and the number that comes with `Incomplete` is a
//! lower bound.

pub mod completion;
pub mod decimal;
pub mod grammar;
pub mod growth;
pub mod ident;
pub mod laws;
pub mod outcome;
pub mod parser;
pub mod resync;
pub mod scan;
pub mod written;

pub use ident::Id;
pub use outcome::{FrameError, ParseError};
pub use parser::parse_message;
pub use resync::find_next_message;
