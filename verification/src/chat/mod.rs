//! The chat itself: who takes part, what is sent, and how the server and the
//! client decide what to do with it.

pub mod ident;
pub mod message;
pub mod server;
pub mod client;
