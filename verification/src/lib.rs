//! A minimal request/response protocol engine: a byte-stream framer that
//! turns buffered socket bytes into typed protocol frames, and a connection
//! object that owns the read buffering and frame encode/decode logic.

pub mod connection;
pub mod laws;
pub mod frame;

pub use connection::Connection;
pub use connection::FrameError;
pub use frame::Frame;
