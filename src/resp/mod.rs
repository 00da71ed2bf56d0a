//! The RESP wire format: values, their encoding and an incremental parser.


pub mod laws;
pub mod lex;
pub mod parser;
pub mod value;


pub use lex::Token;
pub use parser::Parsed;
pub use value::{Frame, StringValue, Value};

use vstd::prelude::*;

verus! {

/// Error raised while decoding a RESP message.
#[derive(Debug, Clone, Copy, PartialEq, Eq, Structural)]
pub enum RespError {
    /// A payload or a line that must hold text is not valid UTF-8.
    Utf8Error,
    /// A byte that cannot start or continue the expected token.
    InvalidToken,
    /// A negative length other than the null marker.
    InvalidLength(i64),
}

} // verus!
