//! Expose a local TCP service through a Tor onion service.
//!
//! The crate holds the verified core of the proxy: command-line argument
//! parsing and normalization, client-authorization key formatting, locale
//! selection, and the decision logic of the stream-bridging engine. The
//! surrounding process (network I/O, the async accept loops, logging) drives
//! these functions from outside.

pub mod args;
pub mod keygen;
pub mod proxy;
pub mod text;
pub mod utils;
