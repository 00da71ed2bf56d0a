//! A single-node in-memory key/value server core speaking the Redis
//! Serialization Protocol (RESP): the incremental codec, the command model,
//! the per-connection dispatch step, the string store with lazy expiry and the
//! master / replica roles.

pub mod clock;
pub mod cmd;
pub mod error;
pub mod framer;
pub mod opts;
pub mod resp;
pub mod role;
pub mod server;
pub mod session;
pub mod store;
pub mod text;
