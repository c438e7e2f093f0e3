//! A session/stream multiplexing protocol over an abstract transport: the wire
//! codec, identifier allocation, and the decision logic of links, sessions,
//! streams and health checks.

pub mod ubig;
pub mod channel;
pub mod strategy;
pub mod wire;
pub mod codec;
pub mod ids;
pub mod roundtrip;
pub mod stream;
pub mod link;
pub mod session;
pub mod health;
pub mod io;
