//! A verified core for a RESP (REdis Serialization Protocol) server:
//! the value model, a cursor-based decoder, an encoder, an incremental
//! request framer, and a command dispatcher.

pub mod commands;
pub mod decode;
pub mod framer;
pub mod laws;
pub mod resp;
