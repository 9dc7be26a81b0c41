//! Core of a synchronous RPC runtime that multiplexes many outstanding
//! client calls over one duplex byte stream.
//!
//! The library is the verified heart of the runtime: the wire framing for
//! packets, the client-side correlator that delivers each inbound reply to
//! exactly the caller that waits for it, the id allocation discipline of the
//! client front end, and the per-connection serve logic. Socket handling,
//! threads and payload serialization live outside the library and hand it
//! plain bytes.

pub mod client;
pub mod codec;
pub mod correlator;
pub mod error;
pub mod packet;
pub mod server;
