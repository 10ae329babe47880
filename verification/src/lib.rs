//! Session synchronization core for a single-room chat client.
//!
//! The crate turns raw inbound text frames into consistent local state
//! (roster and message log) and turns user actions into outbound frames.
//! `codec` holds the wire envelope format, `session` the state machine,
//! `view` the projection of messages to renderable rows.

pub mod codec;
pub mod session;
pub mod view;
