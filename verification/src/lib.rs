//! A correlation-and-dispatch bridge: a synchronous request/response facade
//! over an asynchronous publish/subscribe transport.
//!
//! The bridge keeps a registry of announced services, turns each call into a
//! published request envelope carrying a unique correlation identifier,
//! matches inbound replies to pending calls by that identifier, and settles
//! every call exactly once: with the reply payload, a timeout, or an error.

pub mod bridge;
pub mod codec;
pub mod correlation;
pub mod registry;
pub mod wire;
