//! In-memory room and connection registry of a real-time signaling relay.
//!
//! The library is a state machine: each operation on a [`Server`] mutates the
//! room table and the registry of identities, and returns the deliveries it
//! decided on, one `(recipient, message)` pair each, in order. The caller
//! runs it under one lock and performs the sends after releasing it.

mod identity;
pub mod laws;
pub mod message;
pub mod model;
pub mod protocol;
pub mod server;

pub use message::{ClientMessage, Delivery, ServerMessage};
pub use model::{Room, User};
pub use server::{RegistryError, Server};
