//! An in-memory key-value store spoken to over a line-framed textual protocol:
//! a decoder that cuts text into tokens, a parser that turns tokens into
//! commands, and a store with per-key expiry evicted lazily on read.

pub mod decoder;
pub mod protocol;
pub mod storage;
pub mod parser;
pub mod session;
