//! What holds of addresses and of the texts that write them.

use vstd::prelude::*;

use crate::addr::{big_endian_value, IpAddress, Ipv4Address, Ipv6Address, SocketAddress};
use crate::ip_text::{ip_value, ipv6_value};
use crate::ipv4_text::{ipv4_text, law_ipv4_text_is_unambiguous, octet, octets_text};
use crate::mem::big_endian;
use crate::text::{
    all_digits, byte_value, count_text, decimal, decimal_value, joined, law_decimal_reads_back,
};

verus! {

/// Of the bytes of a number each further one counts 256 times as much.
pub proof fn law_first_byte_is_most_significant(bytes: Seq<u8>, last: u8)
    ensures
        big_endian_value(Seq::<u8>::empty()) == 0,
        big_endian_value(bytes.push(last)) == 256 * big_endian_value(bytes) + last,
{
    assert(bytes.push(last).drop_last() =~= bytes);
}

/// The address `a.b.c.d` as a number.
pub proof fn law_octets_of_ipv4(a: u8, b: u8, c: u8, d: u8)
    ensures
        big_endian_value(seq![a, b, c, d]) == a * 0x100_0000 + b * 0x1_0000 + c * 0x100 + d,
{
    reveal_with_fuel(big_endian_value, 5);
    assert(seq![a, b, c, d].drop_last().drop_last().drop_last().drop_last() =~= Seq::<u8>::empty());
    assert(seq![a, b, c, d].drop_last().drop_last().drop_last() =~= seq![a]);
    assert(seq![a, b, c, d].drop_last().drop_last() =~= seq![a, b]);
    assert(seq![a, b, c, d].drop_last() =~= seq![a, b, c]);
}

/// A number that is written as four bytes reads as that number.
pub proof fn law_four_bytes_read_back(n: u32)
    ensures
        big_endian(n).len() == 4,
        big_endian_value(big_endian(n)) == n,
{
    let b = big_endian(n);
    law_octets_of_ipv4(b[0], b[1], b[2], b[3]);
    assert(b =~= seq![b[0], b[1], b[2], b[3]]);
    assert(n / 0x100_0000 <= 255 && n == (n / 0x100_0000) * 0x100_0000 + (n / 0x1_0000 % 0x100)
        * 0x1_0000 + (n / 0x100 % 0x100) * 0x100 + n % 0x100) by (bit_vector);
}

/// The groups of IPv4 are 224.0.0.0 to 239.255.255.255, those of IPv6 all from ff00:: on.
pub proof fn law_which_addresses_are_groups(a: Ipv4Address, b: Ipv6Address)
    ensures
        IpAddress::V4(a).spec_is_multicast() <==> 224 * 0x100_0000 <= a.bits < 240 * 0x100_0000,
        a.spec_is_multicast() <==> 224 * 0x100_0000 <= a.bits < 240 * 0x100_0000,
        IpAddress::V6(b).spec_is_multicast() <==> b.bits
            >= 0xff00_0000_0000_0000_0000_0000_0000_0000,
        b.spec_is_multicast() <==> b.bits >= 0xff00_0000_0000_0000_0000_0000_0000_0000,
{
}

/// A mask singles an address out with all of its bits: 32 or 128.
pub proof fn law_width_of_addresses(a: Ipv4Address, b: Ipv6Address)
    ensures
        IpAddress::V4(a).spec_width() == 32,
        IpAddress::V6(b).spec_width() == 128,
{
}

/// Addresses of one version come in the order of their numbers, and those of IPv4 come
/// before those of IPv6.
pub proof fn law_order_of_addresses(a: Ipv4Address, b: Ipv4Address, c: Ipv6Address, d: Ipv6Address)
    ensures
        IpAddress::V4(a).spec_precedes(IpAddress::V4(b)) <==> a.bits < b.bits,
        IpAddress::V6(c).spec_precedes(IpAddress::V6(d)) <==> c.bits < d.bits,
        IpAddress::V4(a).spec_precedes(IpAddress::V6(c)),
        !IpAddress::V6(c).spec_precedes(IpAddress::V4(a)),
{
}

/// An address that is put together is taken apart into the same address and port, and
/// keeps its version. Nothing else of an IPv6 address is set.
pub proof fn law_address_and_port(ip: IpAddress, port: u16)
    ensures
        SocketAddress::spec_new(ip, port).spec_ip() == ip,
        SocketAddress::spec_new(ip, port).spec_port() == port,
        SocketAddress::spec_new(ip, port) is V4 <==> ip is V4,
        SocketAddress::spec_new(ip, port) matches SocketAddress::V6(a) ==> a.flowinfo == 0
            && a.scope_id == 0,
{
}

/// The parts of a socket address.
pub proof fn law_parts_of_an_address(addr: SocketAddress)
    ensures
        match addr {
            SocketAddress::V4(a) => addr.spec_ip() == IpAddress::V4(a.ip) && addr.spec_port()
                == a.port,
            SocketAddress::V6(a) => addr.spec_ip() == IpAddress::V6(a.ip) && addr.spec_port()
                == a.port,
        },
{
}

/// Of the digits of a number each further one counts ten times as much.
pub proof fn law_first_digit_is_most_significant(digits: Seq<char>, last: char)
    requires
        '0' <= last <= '9',
    ensures
        decimal_value(Seq::<char>::empty()) == 0,
        decimal_value(digits.push(last)) == 10 * decimal_value(digits) + (last as int
            - '0' as int),
{
    assert(digits.push(last).drop_last() =~= digits);
}

/// A number below 256 is read in decimal digits, with or without a plus sign; a larger one
/// is not.
pub proof fn law_bytes_are_read(n: nat)
    ensures
        n <= 255 ==> byte_value(decimal(n)) == Some(n as u8),
        n <= 255 ==> byte_value(seq!['+'] + decimal(n)) == Some(n as u8),
        n > 255 ==> byte_value(decimal(n)) is None,
        n > 255 ==> byte_value(seq!['+'] + decimal(n)) is None,
{
    law_decimal_reads_back(n);
    assert('0' <= decimal(n)[0] <= '9');
    assert((seq!['+'] + decimal(n)).skip(1) =~= decimal(n));
}

/// What is read as a number below 256 consists of digits, behind a plus sign or not, and
/// is the number that they write.
pub proof fn law_only_digits_are_bytes(s: Seq<char>)
    ensures
        byte_value(s) matches Some(v) ==> {
            let start: int = if s[0] == '+' {
                1
            } else {
                0
            };
            &&& start < s.len()
            &&& forall|i: int| start <= i < s.len() ==> '0' <= #[trigger] s[i] <= '9'
            &&& decimal_value(s.skip(start)) == v
        },
        byte_value(Seq::<char>::empty()) is None,
        byte_value(seq!['+']) is None,
{
    if let Some(v) = byte_value(s) {
        let start: int = if s[0] == '+' {
            1
        } else {
            0
        };
        let digits = s.skip(start);
        assert(s.skip(0) =~= s);
        assert(all_digits(digits));
        assert forall|i: int| start <= i < s.len() implies '0' <= #[trigger] s[i] <= '9' by {
            assert(digits[i - start] == s[i]);
        }
    }
    assert(seq!['+'].skip(1) =~= Seq::<char>::empty());
}

/// Parts are joined with the separator between each two and nowhere else.
pub proof fn law_parts_are_joined(parts: Seq<Seq<char>>, part: Seq<char>, separator: Seq<char>)
    ensures
        joined(Seq::<Seq<char>>::empty(), separator) == Seq::<char>::empty(),
        joined(seq![part], separator) == part,
        parts.len() > 0 ==> joined(parts.push(part), separator) == joined(parts, separator)
            + separator + part,
{
    assert(parts.push(part).drop_last() =~= parts);
}

/// A message about two numbers has them in decimal digits, and ends in a bracket.
pub proof fn law_message_about_numbers(before: Seq<char>, a: nat, between: Seq<char>, b: nat)
    ensures
        count_text(before, a, between, b) =~= before + decimal(a) + between + decimal(b) + ")"@,
{
}

/// The octets of an address make it up, the first one being the most significant, and
/// each is below 256.
pub proof fn law_octets_make_up_the_address(ip: Ipv4Address)
    ensures
        ip.bits == octet(ip, 0) * 0x100_0000 + octet(ip, 1) * 0x1_0000 + octet(ip, 2) * 0x100
            + octet(ip, 3),
        octet(ip, 0) <= 255,
        octet(ip, 1) <= 255,
        octet(ip, 2) <= 255,
        octet(ip, 3) <= 255,
{
    let n = ip.bits;
    assert(n / 0x100_0000 <= 255 && n == (n / 0x100_0000) * 0x100_0000 + (n / 0x1_0000 % 0x100)
        * 0x1_0000 + (n / 0x100 % 0x100) * 0x100 + n % 0x100) by (bit_vector);
}

/// An address is written as its four octets in decimal digits, with a dot between each
/// two.
pub proof fn law_ipv4_is_written_with_dots(ip: Ipv4Address)
    ensures
        ipv4_text(ip) =~= decimal(octet(ip, 0)) + seq!['.'] + decimal(octet(ip, 1)) + seq!['.']
            + decimal(octet(ip, 2)) + seq!['.'] + decimal(octet(ip, 3)),
{
    reveal_with_fuel(octets_text, 4);
}

/// An address reads back as itself, and no other text reads as an IPv4 address. Where a
/// text is no IPv4 address, it is the IPv6 address that it writes, if any.
pub proof fn law_addresses_are_read(ip: Ipv4Address, text: Seq<char>)
    ensures
        ip_value(ipv4_text(ip)) == Some(IpAddress::V4(ip)),
        ip_value(text) == Some(IpAddress::V4(ip)) <==> text == ipv4_text(ip),
        (forall|other: Ipv4Address| text != #[trigger] ipv4_text(other)) ==> match ipv6_value(
            text,
        ) {
            Some(bits) => ip_value(text) == Some(IpAddress::V6(Ipv6Address { bits })),
            None => ip_value(text) is None,
        },
{
    let t = ipv4_text(ip);
    let chosen = choose|a: Ipv4Address| #[trigger] ipv4_text(a) == t;
    assert(ipv4_text(ip) == t);
    law_ipv4_text_is_unambiguous(ip, chosen);
    if ip_value(text) == Some(IpAddress::V4(ip)) {
        assert(exists|a: Ipv4Address| #[trigger] ipv4_text(a) == text);
    }
}

} // verus!
