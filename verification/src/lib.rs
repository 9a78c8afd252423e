//! A minimal publish/subscribe message broker core.
//!
//! Clients connect over a byte stream, subscribe to named channels, and
//! publish messages that are fanned out to every current subscriber.  This
//! crate holds the verified heart of the broker: the wire framing codec, the
//! command parser, the subscription registry, and the per-frame dispatch step
//! of the connection handler.  The surrounding process (sockets, threads,
//! command-line handling) lives outside and talks to this crate through plain
//! values.

pub mod cli;
pub mod client;
pub mod codec;
pub mod consumer;
pub mod state;
