//! A verified client-side engine for a text-based message-queue protocol:
//! wire-format codec, header escaping, session state machine, and heartbeat
//! negotiation.

pub mod codec;
pub mod connection;
pub mod frame;
pub mod header;
pub mod lit;
pub mod session;
pub mod subscription;
pub mod table;
