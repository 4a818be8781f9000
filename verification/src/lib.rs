//! Proxima: the verified core of a decentralized geographic social network.
//!
//! The library holds the decisions of the network that do not depend on
//! floating-point geometry: the multi-scale layer hierarchy and its geohash
//! prefixes, content storage and caching with per-region bloom filters, the
//! geographic routing tables, the registry of discovered nodes, community
//! governance, protocol message validation, k-anonymity bookkeeping and
//! location mixing, and text helpers.

pub mod cache;
pub mod clock;
pub mod content;
pub mod discovery;
pub mod geo;
pub mod governance;
pub mod ident;
pub mod keyed;
pub mod network;
pub mod privacy;
pub mod protocol;
pub mod routing;
pub mod text;
pub mod utils;

use vstd::prelude::*;

verus! {

#[verifier::external_type_specification]
#[verifier::external_body]
pub struct ExIoError(std::io::Error);

#[verifier::external_type_specification]
#[verifier::external_body]
pub struct ExParseFloatError(core::num::ParseFloatError);

/// Core error types for the Proxima network.
#[derive(Debug)]
pub enum ProximaError {
    /// A geographic operation failed
    Geographic(String),
    /// A content operation failed
    Content(String),
    /// Input or output failed
    Io(std::io::Error),
    /// A number could not be parsed
    Parse(core::num::ParseFloatError),
    /// The configuration is invalid
    Config(String),
}

} // verus!
