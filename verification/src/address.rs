//! Plain-value socket addresses.
//!
//! The transport never interprets an address; it only compares them and
//! hands them back to the caller. An address is therefore modelled as
//! the plain numeric value of an IPv4 or IPv6 endpoint, which the caller
//! converts to and from its socket address type at the I/O boundary.

use vstd::prelude::*;

verus! {

/// The remote endpoint of a datagram: an IP address and a port.
#[derive(Debug, Clone, Copy, PartialEq, Eq, Structural, Hash)]
#[allow(inconsistent_fields)]
pub enum Address {
    /// An IPv4 endpoint; `ip` holds the four octets in big-endian order.
    V4 { ip: u32, port: u16 },
    /// An IPv6 endpoint; `ip` holds the sixteen octets in big-endian order.
    V6 { ip: u128, port: u16 },
}

} // verus!
