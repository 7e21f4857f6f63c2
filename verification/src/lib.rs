//! A minimal real-time state-synchronization core: a single authoritative
//! counter is mutated by transitions sent from any connected client, and
//! every successful mutation is rebroadcast to all connected clients.
//!
//! The crate holds the protocol logic only: the state machine, the message
//! codec, the connection registry, and the event-handling step of the
//! broadcast loop. Transport (accepting sockets, delivering frames) lives
//! outside; it hands events in and carries the returned outbound frames.

pub mod codec;
pub mod registry;
pub mod server;
pub mod state_machine;
