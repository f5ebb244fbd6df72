//! A verified core for a server speaking a Redis-compatible wire protocol:
//! the value model, a deterministic encoder, a resumable streaming decoder,
//! the command grammar, and the in-memory key/value store.

pub mod resp;
pub mod digits;
pub mod encode;
pub mod decode;
pub mod text;
pub mod assoc;
pub mod backend;
pub mod cmd;
