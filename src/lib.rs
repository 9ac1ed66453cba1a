//! An in-memory key-value server core: a codec for a length-prefixed,
//! line-oriented wire protocol, a store with millisecond expiry, and the
//! command dispatcher between them.

pub mod codec;
pub mod dispatch;
pub mod roundtrip;
pub mod store;
pub mod text;
pub mod token;
