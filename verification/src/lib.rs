//! A key-value store served over a length-prefixed binary protocol.
//!
//! A server holds an ordered mapping from byte-string keys to byte-string
//! values and answers requests to get, set, delete, scan and ping.
//!
//! - `types`: keys, values and entries, and the order of keys.
//! - `status`: the status codes of the protocol and the error type.
//! - `ext`: the wire codec of keys and values.
//! - `request`, `response`: the messages and their encodings.
//! - `engine`: the contract of a storage engine.
//! - `engine_impl`: the in-memory engine.
//! - `server`: the handling of a connection on the server's side.
//! - `connection`: the client's side of a connection.
//!
//! The library does no input or output. A program reads bytes from its
//! sockets into a `ByteReader`, sends what the library appends to its
//! output, and gives a `Connection` a `Transport` of its own.

pub mod connection;
pub mod engine;
pub mod engine_impl;
pub mod ext;
pub mod request;
pub mod response;
pub mod server;
pub mod status;
pub mod types;
