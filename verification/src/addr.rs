//! Internet addresses as plain values.

use vstd::prelude::*;

verus! {

/// An IPv4 address; the first octet is the most significant.
#[derive(Debug, Clone, Copy, PartialEq, Eq, Structural)]
pub struct Ipv4Address {
    pub bits: u32,
}

/// An IPv6 address; the first octet is the most significant.
#[derive(Debug, Clone, Copy, PartialEq, Eq, Structural)]
pub struct Ipv6Address {
    pub bits: u128,
}

/// An address of either version.
#[derive(Debug, Clone, Copy, PartialEq, Eq, Structural)]
pub enum IpAddress {
    V4(Ipv4Address),
    V6(Ipv6Address),
}

/// An IPv4 address with a port.
#[derive(Debug, Clone, Copy, PartialEq, Eq, Structural)]
pub struct SocketAddressV4 {
    pub ip: Ipv4Address,
    pub port: u16,
}

/// An IPv6 address with a port.
#[derive(Debug, Clone, Copy, PartialEq, Eq, Structural)]
pub struct SocketAddressV6 {
    pub ip: Ipv6Address,
    pub port: u16,
    pub flowinfo: u32,
    pub scope_id: u32,
}

/// An address with a port.
#[derive(Debug, Clone, Copy, PartialEq, Eq, Structural)]
pub enum SocketAddress {
    V4(SocketAddressV4),
    V6(SocketAddressV6),
}

/// The number that bytes write, the most significant first.
pub open spec fn big_endian_value(bytes: Seq<u8>) -> nat
    decreases bytes.len(),
{
    if bytes.len() == 0 {
        0
    } else {
        256 * big_endian_value(bytes.drop_last()) + bytes.last() as nat
    }
}

impl Ipv4Address {
    /// The address `a.b.c.d`.
    pub fn new(a: u8, b: u8, c: u8, d: u8) -> (ip: Self)
        ensures
            ip.bits == big_endian_value(seq![a, b, c, d]),
    {
        proof {
            reveal_with_fuel(big_endian_value, 5);
            assert(seq![a, b, c, d].drop_last() =~= seq![a, b, c]);
            assert(seq![a, b, c].drop_last() =~= seq![a, b]);
            assert(seq![a, b].drop_last() =~= seq![a]);
            assert(seq![a].drop_last() =~= Seq::<u8>::empty());
        }
        Ipv4Address { bits: a as u32 * 0x100_0000 + b as u32 * 0x1_0000 + c as u32 * 0x100 + d as u32 }
    }

    /// The address `0.0.0.0`.
    pub fn unspecified() -> (ip: Self)
        ensures
            ip.bits == 0,
    {
        Ipv4Address { bits: 0 }
    }

    /// The first octet lies between 224 and 239.
    pub open spec fn spec_is_multicast(self) -> bool {
        224 <= self.bits / 0x100_0000 <= 239
    }

    /// Whether this is the address of a multicast group.
    pub fn is_multicast(&self) -> (b: bool)
        ensures
            b == self.spec_is_multicast(),
    {
        let first: u32 = self.bits / 0x100_0000;
        224 <= first && first <= 239
    }
}

impl Ipv6Address {
    /// The address with these sixteen octets.
    pub fn from_octets(octets: &[u8; 16]) -> (ip: Self)
        ensures
            ip.bits == big_endian_value(octets@),
    {
        let mut bits: u128 = 0;
        let mut i: usize = 0;
        let ghost mut bound: nat = 1;
        proof {
            vstd::arithmetic::power::lemma_pow0(256);
        }
        assert(octets@.take(0) =~= Seq::<u8>::empty());
        while i < 16
            invariant
                i <= 16,
                octets@.len() == 16,
                bits == big_endian_value(octets@.take(i as int)),
                bits < bound,
                bound == vstd::arithmetic::power::pow(256, i as nat),
            decreases 16 - i,
        {
            let ghost next = octets@.take(i + 1);
            assert(next.drop_last() =~= octets@.take(i as int));
            proof {
                vstd::arithmetic::power::lemma_pow_increases(256, (i + 1) as nat, 16);
                vstd::arithmetic::power::lemma_pow1(256);
                vstd::arithmetic::power::lemma_pow_adds(256, i as nat, 1);
                lemma_pow_256_16();
                bound = bound * 256;
            }
            assert(bits * 256 + octets@[i as int] < bound) by (nonlinear_arith)
                requires
                    bits + 1 <= bound / 256,
                    bound % 256 == 0,
                    octets@[i as int] <= 255,
            ;
            bits = bits * 256 + octets[i] as u128;
            i += 1;
        }
        assert(octets@.take(16) =~= octets@);
        Ipv6Address { bits }
    }

    /// The address `::`.
    pub fn unspecified() -> (ip: Self)
        ensures
            ip.bits == 0,
    {
        Ipv6Address { bits: 0 }
    }

    /// The first octet is 255.
    pub open spec fn spec_is_multicast(self) -> bool {
        self.bits / 0x100_0000_0000_0000_0000_0000_0000_0000 == 255
    }

    /// Whether this is the address of a multicast group.
    pub fn is_multicast(&self) -> (b: bool)
        ensures
            b == self.spec_is_multicast(),
    {
        self.bits / 0x100_0000_0000_0000_0000_0000_0000_0000 == 255
    }
}

pub(crate) proof fn lemma_pow_256_16()
    ensures
        vstd::arithmetic::power::pow(256, 16) == u128::MAX + 1,
{
    vstd::layout::unsigned_int_max_values();
    broadcast use vstd::layout::layout_of_primitives;

}

impl IpAddress {
    /// Whether this is the address of a multicast group.
    pub open spec fn spec_is_multicast(self) -> bool {
        match self {
            IpAddress::V4(ip) => ip.spec_is_multicast(),
            IpAddress::V6(ip) => ip.spec_is_multicast(),
        }
    }

    /// Whether this is the address of a multicast group.
    pub fn is_multicast(&self) -> (b: bool)
        ensures
            b == self.spec_is_multicast(),
    {
        match self {
            IpAddress::V4(ip) => ip.is_multicast(),
            IpAddress::V6(ip) => ip.is_multicast(),
        }
    }

    /// The number of bits that a mask needs to single out this address.
    pub open spec fn spec_width(self) -> u8 {
        match self {
            IpAddress::V4(_) => 32,
            IpAddress::V6(_) => 128,
        }
    }

    /// The number of bits that a mask needs to single out this address.
    pub fn width(&self) -> (w: u8)
        ensures
            w == self.spec_width(),
    {
        match self {
            IpAddress::V4(_) => 32,
            IpAddress::V6(_) => 128,
        }
    }

    /// IPv4 addresses come before IPv6 addresses, and each version in the
    /// order of its octets.
    pub open spec fn spec_precedes(self, other: IpAddress) -> bool {
        match (self, other) {
            (IpAddress::V4(a), IpAddress::V4(b)) => a.bits < b.bits,
            (IpAddress::V4(_), IpAddress::V6(_)) => true,
            (IpAddress::V6(_), IpAddress::V4(_)) => false,
            (IpAddress::V6(a), IpAddress::V6(b)) => a.bits < b.bits,
        }
    }

    /// Whether this address comes before `other`.
    pub fn precedes(&self, other: &IpAddress) -> (b: bool)
        ensures
            b == self.spec_precedes(*other),
    {
        match (self, other) {
            (IpAddress::V4(a), IpAddress::V4(b)) => a.bits < b.bits,
            (IpAddress::V4(_), IpAddress::V6(_)) => true,
            (IpAddress::V6(_), IpAddress::V4(_)) => false,
            (IpAddress::V6(a), IpAddress::V6(b)) => a.bits < b.bits,
        }
    }
}

impl SocketAddress {
    /// The address `ip` with `port`, and nothing else set.
    pub open spec fn spec_new(ip: IpAddress, port: u16) -> Self {
        match ip {
            IpAddress::V4(ip) => SocketAddress::V4(SocketAddressV4 { ip, port }),
            IpAddress::V6(ip) => SocketAddress::V6(
                SocketAddressV6 { ip, port, flowinfo: 0, scope_id: 0 },
            ),
        }
    }

    /// The address `ip` with `port`, and nothing else set.
    pub fn new(ip: IpAddress, port: u16) -> (addr: Self)
        ensures
            addr == Self::spec_new(ip, port),
    {
        match ip {
            IpAddress::V4(ip) => SocketAddress::V4(SocketAddressV4 { ip, port }),
            IpAddress::V6(ip) => SocketAddress::V6(
                SocketAddressV6 { ip, port, flowinfo: 0, scope_id: 0 },
            ),
        }
    }

    /// The address without its port.
    pub open spec fn spec_ip(self) -> IpAddress {
        match self {
            SocketAddress::V4(a) => IpAddress::V4(a.ip),
            SocketAddress::V6(a) => IpAddress::V6(a.ip),
        }
    }

    /// The port.
    pub open spec fn spec_port(self) -> u16 {
        match self {
            SocketAddress::V4(a) => a.port,
            SocketAddress::V6(a) => a.port,
        }
    }

    /// The address without its port.
    pub fn ip(&self) -> (ip: IpAddress)
        ensures
            ip == self.spec_ip(),
    {
        match self {
            SocketAddress::V4(a) => IpAddress::V4(a.ip),
            SocketAddress::V6(a) => IpAddress::V6(a.ip),
        }
    }

    /// The port.
    pub fn port(&self) -> (port: u16)
        ensures
            port == self.spec_port(),
    {
        match self {
            SocketAddress::V4(a) => a.port,
            SocketAddress::V6(a) => a.port,
        }
    }
}

/// The order of addresses is strict and total.
pub proof fn law_addresses_are_totally_ordered(a: IpAddress, b: IpAddress, c: IpAddress)
    ensures
        !a.spec_precedes(a),
        a.spec_precedes(b) && b.spec_precedes(c) ==> a.spec_precedes(c),
        a == b || a.spec_precedes(b) || b.spec_precedes(a),
{
}

} // verus!
