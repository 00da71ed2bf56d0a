//! Errors raised by the server core.

use crate::cmd::CommandError;
use crate::resp::RespError;
use crate::role::HandshakeError;
use vstd::prelude::*;

verus! {

/// An I/O error, carried through opaquely.
#[verifier::external_type_specification]
#[verifier::external_body]
pub struct ExIoError(std::io::Error);

/// Error raised while writing an encoded value out.
#[derive(Debug)]
pub enum EncodeError {
    Io(std::io::Error),
}

/// Error that can be raised by the server.
#[derive(Debug)]
pub enum MemoraError {
    Io(std::io::Error),
    Resp(RespError),
    Encode(EncodeError),
    Command(CommandError),
    Handshake(HandshakeError),
}

} // verus!
