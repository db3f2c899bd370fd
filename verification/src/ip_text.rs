//! Reading addresses of either family.

use vstd::prelude::*;

use crate::addr::{IpAddress, Ipv4Address, Ipv6Address};
use crate::ipv4_text::{ipv4_text, law_ipv4_text_is_unambiguous, parse_ipv4};

verus! {

/// The IPv6 address that a text writes, as a number, if it writes one.
pub uninterp spec fn ipv6_value(text: Seq<char>) -> Option<u128>;

/// `core::net::Ipv6Addr::from_str`, as `str::parse` calls it. Trusted: whether
/// the text is read, and as which address, depends on the text alone. Which texts
/// are read is left to the name.
#[verifier::external_body]
fn parse_ipv6(s: &str) -> (r: Option<u128>)
    ensures
        r == ipv6_value(s@),
{
    match s.parse::<core::net::Ipv6Addr>() {
        Ok(ip) => Some(u128::from(ip)),
        Err(_) => None,
    }
}

/// The address that a text writes, in dotted decimal notation or as IPv6, if it
/// writes one.
pub open spec fn ip_value(text: Seq<char>) -> Option<IpAddress> {
    if exists|ip: Ipv4Address| #[trigger] ipv4_text(ip) == text {
        Some(IpAddress::V4(choose|ip: Ipv4Address| #[trigger] ipv4_text(ip) == text))
    } else {
        match ipv6_value(text) {
            Some(bits) => Some(IpAddress::V6(Ipv6Address { bits })),
            None => None,
        }
    }
}

/// Reads an address in dotted decimal notation or as IPv6.
pub fn parse_ip(s: &str) -> (r: Option<IpAddress>)
    ensures
        r == ip_value(s@),
{
    match parse_ipv4(s) {
        Some(ip) => {
            proof {
                let chosen = choose|ip: Ipv4Address| #[trigger] ipv4_text(ip) == s@;
                assert(ipv4_text(ip) == s@);
                law_ipv4_text_is_unambiguous(ip, chosen);
            }
            Some(IpAddress::V4(ip))
        },
        None => match parse_ipv6(s) {
            Some(bits) => Some(IpAddress::V6(Ipv6Address { bits })),
            None => None,
        },
    }
}

} // verus!
