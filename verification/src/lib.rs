//! Relay core for an anonymous end-to-end-encrypted chat service.
//!
//! The `server` module holds the session coordinator: the single owner of
//! all connection, pairing, waiting-pool and group state. The `handler`
//! module holds the per-connection decision logic: wire event
//! classification and the heartbeat liveness state machine.

use vstd::prelude::*;

pub mod handler;
pub mod server;

verus! {

} // verus!
