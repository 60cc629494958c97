//! A small DNS message codec and single-shot resolver logic for
//! allocation-free environments.
use vstd::prelude::*;

pub mod message;
pub mod name;
pub mod resolve;
pub mod wire;

verus! {

/// Errors returned by the client.
#[derive(Debug)]
pub enum Error<N> {
    /// Error in the underlying network
    Network(N),
    /// Error specific to DNS
    Dns(DnsError),
    /// DNS entry not found
    NotFound,
}

/// An error related to the DNS message itself.
#[derive(Debug, Clone, Copy, PartialEq, Eq, Structural)]
pub enum DnsError {
    /// Error encoding the message.
    Encode,
    /// Error decoding the message.
    Decode,
    /// Message format error.
    FormatError,
    /// Failure occurred on server.
    ServerFailure,
    /// Error in name.
    NameError,
    /// Functionality not supported.
    NotImplemented,
    /// Request refused.
    Refused,
}

} // verus!
