use serde_json::Value;
use shredstream_proxy::addr::{IpAddress, Ipv4Address, Ipv6Address};
use shredstream_proxy::io_error::IoErrorKind;
use shredstream_proxy::ip_text::parse_ip;
use shredstream_proxy::ipv4_text::parse_ipv4;
use shredstream_proxy::triton_multicast_config::{
    group_of_route, ip_json_args, ip_json_outcome, multicast_device_v4, multicast_device_v6,
    parse_ifindex_from_ip_link_show_json, parse_ip_route_for_device,
    parse_ipv4_addr_from_ip_addr_show_json, route_base, socket_ops_v4, socket_ops_v6, AddrInfo,
    IfaceRow, IpQuery, JsonError, LinkRow, RouteRow, SocketOp, TritonMulticastConfig,
    TritonMulticastConfigV4, TritonMulticastConfigV6,
};

fn array(json: &str) -> Result<Vec<Value>, JsonError> {
    match serde_json::from_str(json) {
        Ok(Value::Array(rows)) => Ok(rows),
        Ok(_) => Err(JsonError { message: "expected a sequence".to_string() }),
        Err(e) => Err(JsonError { message: e.to_string() }),
    }
}

fn text(row: &Value, key: &str) -> Option<String> {
    row.get(key).and_then(Value::as_str).map(str::to_string)
}

fn route_rows(json: &str) -> Result<Vec<RouteRow>, JsonError> {
    array(json)?
        .iter()
        .map(|row| match text(row, "dst") {
            Some(dst) => Ok(route_row(&dst)),
            None => Err(JsonError { message: "missing field `dst`".to_string() }),
        })
        .collect()
}

fn route_row(dst: &str) -> RouteRow {
    RouteRow { dst: dst.to_string() }
}

fn iface_rows(json: &str) -> Result<Vec<IfaceRow>, JsonError> {
    let rows = array(json)?;
    Ok(rows
        .iter()
        .map(|row| IfaceRow {
            addr_info: row.get("addr_info").and_then(Value::as_array).map(|infos| {
                infos
                    .iter()
                    .map(|info| AddrInfo { family: text(info, "family"), local: text(info, "local") })
                    .collect()
            }),
        })
        .collect())
}

fn link_rows(json: &str) -> Result<Vec<LinkRow>, JsonError> {
    let rows = array(json)?;
    Ok(rows
        .iter()
        .map(|row| LinkRow {
            ifindex: row.get("ifindex").and_then(Value::as_u64).map(|i| i as u32),
        })
        .collect())
}

#[test]
fn parse_ip_route_for_device_test() {
    let json = r#"[{"dst":"169.254.2.112/31","protocol":"kernel","scope":"link","prefsrc":"169.254.2.113","flags":[]},{"dst":"233.84.178.2","gateway":"169.254.2.112","protocol":"static","flags":[]}]"#;
    let parsed = parse_ip_route_for_device(route_rows(json)).unwrap();
    assert_eq!(parsed, vec![IpAddress::V4(Ipv4Address::new(233, 84, 178, 2))]);
}

#[test]
fn parse_ipv4_addr_from_addr() {
    let json = r#"[
        {"addr_info":[
            {"family":"inet6","local":"fe80::1234"},
            {"family":"inet","local":"192.168.1.10"}
        ]}
    ]"#;
    let parsed = parse_ipv4_addr_from_ip_addr_show_json(iface_rows(json)).unwrap();
    assert_eq!(parsed, Some(Ipv4Address::new(192, 168, 1, 10)));
}

#[test]
fn parse_ipv4_addr_from_addr_show_malformed() {
    let json = r#"{"not":"an array"}"#;
    let res = parse_ipv4_addr_from_ip_addr_show_json(iface_rows(json));
    assert!(res.is_err());
}

#[test]
fn parse_ifindex_from_link_show_present() {
    let json = r#"[
            {"ifindex":3,"ifname":"lo"}
        ]"#;
    let parsed = parse_ifindex_from_ip_link_show_json(link_rows(json)).unwrap();
    assert_eq!(parsed, Some(3));
}

#[test]
fn parse_ifindex_from_link_show_empty() {
    let json = r#"[]"#;
    let parsed = parse_ifindex_from_ip_link_show_json(link_rows(json)).unwrap();
    assert_eq!(parsed, None);
}

#[test]
fn parse_ifindex_from_link_show_malformed() {
    let json = r#"{"ifindex":3}"#;
    let res = parse_ifindex_from_ip_link_show_json(link_rows(json));
    assert!(res.is_err());
}

#[test]
fn only_exact_multicast_routes_count_sorted_and_once() {
    let rows = [
        "233.84.178.2",
        "239.1.1.1/32",
        "239.1.1.2/31",
        "239.1.1.3/",
        "239.1.1.4/+32",
        "239.1.1.5/32/1",
        "224.0.0.1",
        "233.84.178.2/32",
        "10.0.0.1",
        "default",
        "ff02::1/128",
        "ff02::1/64",
        "fe80::1",
    ];
    let parsed = parse_ip_route_for_device(Ok(rows.iter().map(|r| route_row(r)).collect()));
    assert_eq!(
        parsed.unwrap(),
        vec![
            IpAddress::V4(Ipv4Address::new(224, 0, 0, 1)),
            IpAddress::V4(Ipv4Address::new(233, 84, 178, 2)),
            IpAddress::V4(Ipv4Address::new(239, 1, 1, 1)),
            IpAddress::V4(Ipv4Address::new(239, 1, 1, 4)),
            IpAddress::V6(Ipv6Address { bits: 0xff02 << 112 | 1 }),
        ]
    );
}

#[test]
fn an_answer_that_cannot_be_read_is_invalid_data() {
    let err = parse_ip_route_for_device(route_rows("[{}]")).unwrap_err();
    assert_eq!(err.kind, IoErrorKind::InvalidData);
    assert_eq!(err.message, "missing field `dst`");
    let err = parse_ifindex_from_ip_link_show_json(link_rows("{}")).unwrap_err();
    assert_eq!(err.kind, IoErrorKind::InvalidData);
}

#[test]
fn the_first_ipv4_entry_decides_even_if_it_is_no_address() {
    let json = r#"[{},{"addr_info":[{"family":"inet"},{"family":"inet","local":"nonsense"},
        {"family":"inet","local":"10.0.0.1"}]}]"#;
    let parsed = parse_ipv4_addr_from_ip_addr_show_json(iface_rows(json)).unwrap();
    assert_eq!(parsed, None);
    let parsed = parse_ipv4_addr_from_ip_addr_show_json(iface_rows("[]")).unwrap();
    assert_eq!(parsed, None);
}

#[test]
fn the_last_link_decides() {
    let json = r#"[{"ifindex":3},{"ifindex":9}]"#;
    assert_eq!(parse_ifindex_from_ip_link_show_json(link_rows(json)).unwrap(), Some(9));
    let json = r#"[{"ifindex":3},{}]"#;
    assert_eq!(parse_ifindex_from_ip_link_show_json(link_rows(json)).unwrap(), None);
}

#[test]
fn the_tool_is_asked_so() {
    assert_eq!(
        ip_json_args(IpQuery::Route, "eth0"),
        ["--json", "route", "show", "dev", "eth0"]
    );
    assert_eq!(ip_json_args(IpQuery::Addr, "lo")[1], "addr");
    assert_eq!(ip_json_args(IpQuery::Link, "lo")[1], "link");
}

#[test]
fn a_failed_run_of_the_tool_is_reported() {
    let args = ip_json_args(IpQuery::Link, "eth9");
    let ok = ip_json_outcome(true, b"[]".to_vec(), &args, "exit status: 0");
    assert_eq!(ok.unwrap(), b"[]".to_vec());
    let err = ip_json_outcome(false, Vec::new(), &args, "exit status: 1").unwrap_err();
    assert_eq!(err.kind, IoErrorKind::Other);
    assert_eq!(
        err.message,
        "`ip --json link show dev eth9` failed with status exit status: 1"
    );
}

fn config_v4(bind_ifname: Option<&str>) -> TritonMulticastConfigV4 {
    TritonMulticastConfigV4 {
        multicast_ip: Ipv4Address::new(233, 84, 178, 2),
        bind_ifname: bind_ifname.map(str::to_string),
        listen_port: 7000,
    }
}

fn config_v6() -> TritonMulticastConfigV6 {
    TritonMulticastConfigV6 {
        multicast_ip: Ipv6Address { bits: 0xff02 << 112 | 1 },
        device_ifname: "eth0".to_string(),
        listen_port: 7000,
    }
}

#[test]
fn the_device_of_a_group_is_found_or_reported() {
    let ip = Ipv4Address::new(10, 0, 0, 7);
    assert_eq!(
        multicast_device_v4(&config_v4(None), None).unwrap(),
        Ipv4Address::unspecified()
    );
    assert_eq!(multicast_device_v4(&config_v4(Some("eth0")), Some(ip)).unwrap(), ip);
    let err = multicast_device_v4(&config_v4(Some("eth0")), None).unwrap_err();
    assert_eq!(err.kind, IoErrorKind::NotFound);
    assert_eq!(err.message, "No IPv4 address found for device eth0");
    assert_eq!(multicast_device_v6(&config_v6(), Some(4)).unwrap(), 4);
    let err = multicast_device_v6(&config_v6(), None).unwrap_err();
    assert_eq!(err.kind, IoErrorKind::NotFound);
    assert_eq!(err.message, "No such device eth0");
}

#[test]
fn sockets_of_a_group_share_its_port() {
    let device = Ipv4Address::new(10, 0, 0, 7);
    let config = config_v4(Some("eth0"));
    let any = IpAddress::V4(Ipv4Address::unspecified());
    let join = SocketOp::JoinV4(config.multicast_ip, device);
    assert_eq!(
        socket_ops_v4(&config, device, 0, 0),
        [
            SocketOp::SetReuseAddress,
            SocketOp::SetReusePort,
            SocketOp::SetNonblocking,
            SocketOp::Bind(any, 7000),
            join,
        ]
    );
    assert_eq!(
        socket_ops_v4(&config, device, 1, 7001),
        [
            SocketOp::SetReuseAddress,
            SocketOp::SetReusePort,
            SocketOp::Bind(any, 7001),
            SocketOp::SetNonblocking,
            join,
        ]
    );
    let config = config_v6();
    let any = IpAddress::V6(Ipv6Address::unspecified());
    let ops = socket_ops_v6(&config, 4, 2, 7001);
    assert_eq!(ops[0], SocketOp::SetOnlyV6);
    assert_eq!(ops[3], SocketOp::Bind(any, 7001));
    assert_eq!(ops[5], SocketOp::JoinV6(config.multicast_ip, 4));
    assert_eq!(socket_ops_v6(&config, 4, 0, 0)[4], SocketOp::Bind(any, 7000));
}

#[test]
fn a_group_has_an_address() {
    let v4 = TritonMulticastConfig::Ipv4(config_v4(None));
    assert_eq!(v4.ip(), IpAddress::V4(Ipv4Address::new(233, 84, 178, 2)));
    let v6 = TritonMulticastConfig::Ipv6(config_v6());
    assert_eq!(v6.ip(), IpAddress::V6(config_v6().multicast_ip));
}

#[test]
fn addresses_of_both_families_are_read() {
    let v4 = Ipv4Address::new(239, 1, 2, 3);
    assert_eq!(parse_ip("239.1.2.3"), Some(IpAddress::V4(v4)));
    let v6 = Ipv6Address { bits: 0xff02 << 112 | 0x1_0000 | 7 };
    assert_eq!(parse_ip("ff02::1:7"), Some(IpAddress::V6(v6)));
    assert_eq!(parse_ip("FF02:0:0:0:0:0:1:7"), Some(IpAddress::V6(v6)));
    assert_eq!(parse_ip("::"), Some(IpAddress::V6(Ipv6Address { bits: 0 })));
    for text in ["", "default", "239.1.2", "239.1.2.03", "ff02:::1", "ff02::1%eth0", " ::1"] {
        assert_eq!(parse_ip(text), None);
    }
}

#[test]
fn a_route_leads_to_a_group_if_its_mask_covers_the_address() {
    let v4 = Some(IpAddress::V4(Ipv4Address::new(239, 1, 2, 3)));
    let v6 = Some(IpAddress::V6(Ipv6Address { bits: 0xff02 << 112 | 1 }));
    let unicast = Some(IpAddress::V4(Ipv4Address::new(10, 1, 2, 3)));
    assert_eq!(group_of_route("239.1.2.3", v4), v4);
    assert_eq!(group_of_route("239.1.2.3/32", v4), v4);
    assert_eq!(group_of_route("239.1.2.3/24", v4), None);
    assert_eq!(group_of_route("ff02::1/128", v6), v6);
    assert_eq!(group_of_route("ff02::1/32", v6), None);
    assert_eq!(group_of_route("10.1.2.3/32", unicast), None);
    assert_eq!(group_of_route("239.1.2.3/x", v4), None);
    assert_eq!(group_of_route("default", None), None);
}
