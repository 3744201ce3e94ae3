//! Incremental decoding and encoding of a line-oriented, length-prefixed
//! wire protocol, together with the per-connection receive state.

pub mod buffer;
pub mod connection;
pub mod decimal;
pub mod decode;
pub mod error;
pub mod incremental;
pub mod roundtrip;
pub mod value;
