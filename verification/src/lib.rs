//! tcplex: a bidirectional TCP multiplexer with configuration-based routing.
//!
//! The library holds the verified parts: the routing configuration and its
//! validation, the routing table and the forwarding decisions, and the text
//! that the multiplexer prints.

pub mod text;
pub mod config;
pub mod keyed;
pub mod channel;
pub mod network;
pub mod logfmt;

pub use config::Config;
pub use network::Router;
