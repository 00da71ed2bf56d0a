//! Framing of a byte stream into values and back.

use crate::resp::parser::{parse_value_at, Parsed};
use crate::resp::value::{encoding, Value};
use crate::resp::RespError;
use vstd::prelude::*;

verus! {

/// Turns the bytes read from a connection into values, and values into the
/// bytes to write. The unread bytes stay in the caller's buffer.
pub struct RespFramer;

impl RespFramer {
    /// Takes one complete value from the front of `buf`, removing its bytes
    /// and the line breaks that follow them. Leaves `buf` as it was when it
    /// holds only part of a value, or bytes that cannot be one.
    pub fn decode(&mut self, buf: &mut Vec<u8>) -> (r: Result<Option<Value>, RespError>)
        ensures
            match parse_value_at(old(buf)@, 0) {
                Parsed::Done(f, j) => r matches Ok(Some(v)) && v@ == f && final(buf)@ == old(buf)@.subrange(
                    j,
                    old(buf)@.len() as int,
                ),
                Parsed::More => r matches Ok(None) && final(buf)@ == old(buf)@,
                Parsed::Fail(e) => r == Err::<Option<Value>, RespError>(e) && final(buf)@ == old(buf)@,
            },
    {
        match Value::parse(buf.as_slice()) {
            Err(e) => Err(e),
            Ok(None) => Ok(None),
            Ok(Some((v, used))) => {
                let rest = buf.split_off(used);
                *buf = rest;
                Ok(Some(v))
            },
        }
    }

    /// Appends the encoding of `item` to `dst`.
    pub fn encode(&mut self, item: &Value, dst: &mut Vec<u8>)
        ensures
            final(dst)@ == old(dst)@ + encoding(item@),
    {
        item.encode(dst)
    }
}

} // verus!
