//! A process-actor core: isolated execution units that exchange typed,
//! serialized messages, with a synchronous request/response pattern layered
//! on top of one-way delivery.
//!
//! The crate models the runtime as an explicit [`server::Node`] holding the
//! execution units of one scheduler, so that every rule of the system —
//! tag correlation, selective receive, the spawn handshake for captured
//! state, and failure propagation along links — is stated in contracts and
//! proved.

pub mod codec;
pub mod handler;
pub mod mailbox;
pub mod server;
pub mod tag;
