//! Session and message-relay engine for a small line-based chat service.
//!
//! The crate covers the logic of the three cooperating endpoints
//! (registration, login, chat relay): the frame codec that carries
//! envelopes over fixed-size zero-padded buffers, the envelope wire
//! grammar, the shared account registry, and the per-connection
//! handlers that drive registration, login and broadcast fan-out.
//! Sockets, threads and the interactive menus live outside the
//! library and only exchange plain values with it.
use vstd::prelude::*;

pub mod codec;
pub mod envelope;
pub mod hashing;
pub mod registry;
pub mod handlers;
pub mod token;

verus! {

/// Number of bytes in a frame that carries a credential or chat envelope.
pub const DATA_FRAME_LEN: usize = 256;

/// Number of bytes in a frame that carries a session-token reply.
pub const TOKEN_FRAME_LEN: usize = 30;

/// Number of characters in a freshly generated session token.
pub const TOKEN_LEN: usize = 30;

} // verus!
