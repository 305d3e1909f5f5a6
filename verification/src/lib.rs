//! Does an IP address fall within a CIDR-notated network range?
//!
//! Two stateless query functions answer this, one per address family:
//! each parses a textual address and a textual `address/prefix` network,
//! then compares the top `prefix` bits of the two addresses. Parsing
//! and membership are specified over sequences of characters and plain
//! integers, and every function is verified against that specification.

pub mod ipv4;
pub mod ipv6;
pub mod network;
pub mod text;

use vstd::prelude::*;

verus! {

/// Why a query over textual inputs could not be answered.
#[derive(Clone, Copy, PartialEq, Eq, Debug, Structural)]
pub enum CidrError {
    /// The address string is not a valid address of the requested family.
    InvalidAddress,
    /// The CIDR string is malformed or its prefix length is out of range.
    InvalidCidr,
}

/// The one answer an IPv4 query over the given texts can have: the
/// address must parse, then the CIDR text must parse, and membership
/// is decided on the top `prefix` bits.
pub open spec fn ipv4_query_result(ip: Seq<char>, cidr: Seq<char>) -> Result<bool, CidrError> {
    if !crate::ipv4::valid_ipv4_seq(ip) {
        Err(CidrError::InvalidAddress)
    } else if !crate::network::valid_ipv4_cidr(cidr) {
        Err(CidrError::InvalidCidr)
    } else {
        Ok(
            crate::network::ipv4_in_network(
                crate::ipv4::ipv4_val(ip) as u32,
                crate::network::ipv4_cidr_base(cidr) as u32,
                crate::network::ipv4_cidr_prefix(cidr),
            ),
        )
    }
}

/// The one answer an IPv6 query over the given texts can have.
pub open spec fn ipv6_query_result(ip: Seq<char>, cidr: Seq<char>) -> Result<bool, CidrError> {
    if !crate::ipv6::valid_ipv6_seq(ip) {
        Err(CidrError::InvalidAddress)
    } else if !crate::network::valid_ipv6_cidr(cidr) {
        Err(CidrError::InvalidCidr)
    } else {
        Ok(
            crate::network::ipv6_in_network(
                crate::ipv6::ipv6_val(ip) as u128,
                crate::network::ipv6_cidr_base(cidr) as u128,
                crate::network::ipv6_cidr_prefix(cidr),
            ),
        )
    }
}

/// Does the IPv4 address `ip` lie within the IPv4 network `cidr`?
/// Both inputs are texts; an invalid address is reported before the
/// CIDR text is even considered. The result is a function of the two
/// texts alone.
pub fn is_ipv4_in_cidr(ip: &str, cidr: &str) -> (r: Result<bool, CidrError>)
    ensures
        r == ipv4_query_result(ip@, cidr@),
{
    let addr = match crate::ipv4::parse_ipv4_addr(ip) {
        Ok(v) => v,
        Err(e) => {
            return Err(e);
        },
    };
    let net = match crate::network::parse_ipv4_network(cidr) {
        Ok(n) => n,
        Err(e) => {
            return Err(e);
        },
    };
    Ok(net.contains(addr))
}

/// Does the IPv6 address `ip` lie within the IPv6 network `cidr`?
pub fn is_ipv6_in_cidr(ip: &str, cidr: &str) -> (r: Result<bool, CidrError>)
    ensures
        r == ipv6_query_result(ip@, cidr@),
{
    let addr = match crate::ipv6::parse_ipv6_addr(ip) {
        Ok(v) => v,
        Err(e) => {
            return Err(e);
        },
    };
    let net = match crate::network::parse_ipv6_network(cidr) {
        Ok(n) => n,
        Err(e) => {
            return Err(e);
        },
    };
    Ok(net.contains(addr))
}

} // verus!
