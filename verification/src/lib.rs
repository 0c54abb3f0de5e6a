//! An in-memory key-value server core that speaks RESP, the Redis
//! serialisation protocol: a streaming codec, a command interpreter for PING,
//! ECHO, GET and SET, and a keyspace whose keys expire when they are next
//! read. Every function carries a contract that Verus proves, and the laws
//! that the pieces obey together are stated and proved beside them.
//!
//! - [`resp`] holds the codec and the interpreter.
//! - [`store`] holds the keyspace, [`clock`] its time source.
//! - [`server`] decides each step of a connection; sockets are the caller's.

pub mod clock;
pub mod resp;
pub mod server;
pub mod store;
