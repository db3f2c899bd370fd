use shredstream_proxy::addr::{IpAddress, Ipv4Address, Ipv6Address, SocketAddress};
use shredstream_proxy::args::{
    check_destinations, destination_addrs, discovery_service, first_destination, heartbeat_target,
    multicast_config, recv_tile_mem_config, regions_in_use, tile_count,
};
use shredstream_proxy::io_error::IoErrorKind;
use shredstream_proxy::sizing::PktRecvMemSizing;
use shredstream_proxy::triton_multicast_config::TritonMulticastConfig;

fn v4() -> IpAddress {
    IpAddress::V4(Ipv4Address::new(233, 84, 178, 2))
}

#[test]
fn discovery_takes_a_url_and_a_port() {
    let url = Some("http://x".to_string());
    let both = "Invalid arguments provided, dynamic endpoints requires both --endpoint-discovery-url and --discovered-endpoints-port.";
    for (u, p) in [(&url, None), (&None, Some(1))] {
        let err = check_destinations(u, p, 3).unwrap_err();
        assert_eq!(err.kind, IoErrorKind::InvalidInput);
        assert_eq!(err.message, both);
    }
    assert!(check_destinations(&url, Some(1), 0).is_ok());
    assert_eq!(discovery_service(url.clone(), Some(1)), Some(("http://x".to_string(), 1)));
    assert_eq!(discovery_service(url, None), None);
    assert_eq!(discovery_service(None, Some(1)), None);
}

#[test]
fn there_must_be_a_destination() {
    let err = check_destinations(&None, None, 0).unwrap_err();
    assert_eq!(err.kind, IoErrorKind::InvalidInput);
    assert_eq!(
        err.message,
        "No destinations found. You must provide values for --dest-ip-ports or --endpoint-discovery-url."
    );
    assert!(check_destinations(&None, None, 1).is_ok());
}

#[test]
fn the_first_address_of_a_destination_is_used() {
    let a = SocketAddress::new(v4(), 1);
    let b = SocketAddress::new(v4(), 2);
    assert_eq!(
        first_destination(&vec![a, b], "host:1").unwrap(),
        (a, "host:1".to_string())
    );
    let err = first_destination(&vec![], "host:1").unwrap_err();
    assert_eq!(err.kind, IoErrorKind::AddrNotAvailable);
    assert_eq!(err.message, "Could not find destination host:1");
    let dests = vec![(b, "b".to_string()), (a, "a".to_string())];
    assert_eq!(destination_addrs(&dests), [b, a]);
}

#[test]
fn a_group_of_ipv6_takes_an_interface() {
    let v6 = IpAddress::V6(Ipv6Address { bits: 0xff02 << 112 });
    let eth0 = Some("eth0".to_string());
    assert!(multicast_config(None, eth0.clone(), 9).unwrap().is_none());
    match multicast_config(Some(v4()), None, 9).unwrap() {
        Some(TritonMulticastConfig::Ipv4(c)) => {
            assert_eq!((c.bind_ifname, c.listen_port), (None, 9));
        }
        other => panic!("{other:?}"),
    }
    match multicast_config(Some(v6), eth0, 9).unwrap() {
        Some(TritonMulticastConfig::Ipv6(c)) => assert_eq!(c.device_ifname, "eth0"),
        other => panic!("{other:?}"),
    }
    let err = multicast_config(Some(v6), None, 9).unwrap_err();
    assert_eq!(err.kind, IoErrorKind::InvalidInput);
    assert_eq!(err.message, "triton-multicast-bind-interface is required for IPv6");
}

#[test]
fn what_is_not_asked_for_has_a_default() {
    assert_eq!(tile_count(None), 1);
    assert_eq!(tile_count(Some(4)), 4);
    assert_eq!(recv_tile_mem_config(None).memory_size, PktRecvMemSizing::XSmall);
    let config = recv_tile_mem_config(Some(PktRecvMemSizing::Large));
    assert_eq!(config.memory_size, PktRecvMemSizing::Large);
    assert_eq!(config.frame_size, 2048);
}

#[test]
fn two_regions_are_used_at_most() {
    let regions: Vec<String> = ["ny", "ams", "tokyo"].iter().map(|r| r.to_string()).collect();
    assert_eq!(regions_in_use(&regions), Some(regions[..2].to_vec()));
    assert_eq!(regions_in_use(&regions[..2].to_vec()), None);
}

#[test]
fn the_block_engine_authenticates_unless_another_does() {
    let url = "https://engine".to_string();
    let regions = vec!["ny".to_string(), "tokyo".to_string(), "slc".to_string()];
    let target = heartbeat_target(url.clone(), None, regions.clone(), v4(), 20000);
    assert_eq!(target.desired_regions, regions);
    assert_eq!(target.auth_url, url);
    assert_eq!(target.block_engine_url, url);
    assert_eq!(target.recv_addr, SocketAddress::new(v4(), 20000));
    let target = heartbeat_target(url, Some("https://auth".to_string()), vec![], v4(), 20000);
    assert_eq!(target.auth_url, "https://auth");
}
