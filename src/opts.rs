//! The options the server starts with.

use crate::text::{decimal_u64, parse_u64};
use vstd::prelude::*;

verus! {

/// The port the server listens on by default.
pub const DEFAULT_PORT: u16 = 6379;

/// Command-line options.
pub struct Opts {
    /// Port to bind the server to.
    pub port: u16,
    /// Host and port of the master this instance replicates, as given.
    pub replicaof: Option<Vec<String>>,
}

/// Why the `replicaof` option could not be read.
#[derive(Debug, Clone, PartialEq, Eq)]
pub enum OptsError {
    /// A host and a port are both required.
    InvalidFormat,
    /// The port is not a decimal number from 0 to 65535.
    InvalidPort(String),
}

impl Opts {
    /// The upstream master's host and port, if this instance is a replica.
    pub fn replica_of(&self) -> (r: Result<Option<(String, u16)>, OptsError>)
        ensures
            match self.replicaof {
                None => r matches Ok(None),
                Some(v) => if v@.len() < 2 {
                    r matches Err(OptsError::InvalidFormat)
                } else {
                    match decimal_u64(v@[1]@) {
                        Some(p) if p <= u16::MAX => r matches Ok(Some((h, q))) && h@ == v@[0]@ && q == p,
                        _ => r matches Err(OptsError::InvalidPort(t)) && t@ == v@[1]@,
                    }
                },
            },
    {
        match &self.replicaof {
            None => Ok(None),
            Some(addr) => {
                if addr.len() < 2 {
                    return Err(OptsError::InvalidFormat);
                }
                let host = addr[0].clone();
                match parse_u64(addr[1].as_str()) {
                    Some(p) => if p <= u16::MAX as u64 {
                        Ok(Some((host, p as u16)))
                    } else {
                        Err(OptsError::InvalidPort(addr[1].clone()))
                    },
                    None => Err(OptsError::InvalidPort(addr[1].clone())),
                }
            },
        }
    }
}

} // verus!
