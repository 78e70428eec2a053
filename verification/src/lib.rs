//! An in-memory key-value store speaking the RESP wire protocol.
//!
//! The heart is an incremental, stack-based RESP parser (`parser`), verified
//! against a mathematical transition machine (`machine`): bytes arrive in
//! arbitrary chunks, and each `try_parse` call yields exactly one complete
//! frame, asks for more bytes, or fails terminally, never losing trailing
//! bytes. `laws` and `roundtrip` prove the protocol-level guarantees: chunking
//! independence, preservation of trailing bytes, idempotence on empty appends,
//! the depth, length and overflow bounds, and that encoding then decoding any
//! representable value is the identity. `command` validates and executes
//! requests against a storage backend (`storage`, `db`), and `session` drives
//! one connection's read-parse-execute-reply pipeline.

pub mod command;
pub mod db;
pub mod laws;
pub mod machine;
pub mod parser;
pub mod resp;
pub mod roundtrip;
pub mod session;
pub mod storage;
