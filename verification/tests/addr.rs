use shredstream_proxy::addr::{IpAddress, Ipv4Address, Ipv6Address, SocketAddress};
use shredstream_proxy::packet::Meta;

fn v4(a: u8, b: u8, c: u8, d: u8) -> IpAddress {
    IpAddress::V4(Ipv4Address::new(a, b, c, d))
}

#[test]
fn multicast_addresses_are_told_apart() {
    assert!(v4(224, 0, 0, 0).is_multicast());
    assert!(v4(239, 255, 255, 255).is_multicast());
    assert!(!v4(223, 255, 255, 255).is_multicast());
    assert!(!v4(240, 0, 0, 0).is_multicast());
    assert!(IpAddress::V6(Ipv6Address { bits: 0xff << 120 }).is_multicast());
    assert!(!IpAddress::V6(Ipv6Address { bits: 0xfe80 << 112 }).is_multicast());
}

#[test]
fn addresses_are_ordered_by_version_and_then_by_octets() {
    let six = IpAddress::V6(Ipv6Address::unspecified());
    assert!(v4(1, 2, 3, 4).precedes(&v4(1, 2, 3, 5)));
    assert!(v4(1, 255, 0, 0).precedes(&v4(2, 0, 0, 0)));
    assert!(!v4(1, 2, 3, 4).precedes(&v4(1, 2, 3, 4)));
    assert!(v4(255, 255, 255, 255).precedes(&six));
    assert!(!six.precedes(&v4(0, 0, 0, 0)));
    assert_eq!(v4(0, 0, 0, 0).width(), 32);
    assert_eq!(six.width(), 128);
}

#[test]
fn octets_are_read_from_the_most_significant() {
    assert_eq!(Ipv4Address::new(1, 2, 3, 4).bits, 0x01020304);
    let mut octets = [0u8; 16];
    octets[0] = 0xff;
    octets[15] = 1;
    assert_eq!(Ipv6Address::from_octets(&octets).bits, 0xff << 120 | 1);
}

#[test]
fn a_packet_remembers_where_it_came_from() {
    let addr = SocketAddress::new(v4(10, 1, 1, 1), 12345);
    assert_eq!(addr.ip(), v4(10, 1, 1, 1));
    assert_eq!(addr.port(), 12345);
    let mut meta = Meta::default();
    assert_eq!(meta.addr, v4(0, 0, 0, 0));
    meta.set_socket_addr(&addr);
    assert_eq!((meta.addr, meta.port), (v4(10, 1, 1, 1), 12345));
}
