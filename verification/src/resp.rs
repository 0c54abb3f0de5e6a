//! RESP, the Redis serialisation protocol.
//!
//! Bytes are decoded to tokens ([`token`], [`parser`]), a message of tokens
//! is lifted to a frame ([`frame`]), and a frame is carried out as a command
//! ([`command`], [`interpreter`]). The laws of the codec are in
//! [`roundtrip`] and [`streaming`], those of the commands in [`semantics`].

pub mod bulk;
pub mod command;
pub mod decimal;
pub mod frame;
pub mod interpreter;
pub mod parser;
pub mod reader;
pub mod roundtrip;
pub mod semantics;
pub mod streaming;
pub mod text;
pub mod token;
