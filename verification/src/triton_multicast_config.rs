//! Multicast groups: which ones a device is routed to, and how the sockets that
//! join one are set up.
//!
//! The proxy asks the `ip` tool for routes, addresses and links. This module
//! says which arguments the tool is called with, reads its answer once the
//! JSON is taken apart, and lists the steps that make a socket.

use vstd::prelude::*;

use crate::addr::{IpAddress, Ipv4Address, Ipv6Address};
use crate::io_error::{IoError, IoErrorKind};
use crate::ip_text::{ip_value, parse_ip};
use crate::ipv4_text::{ipv4_text, parse_ipv4};
use crate::text::{
    byte_value, find_char, is_first_place, join, joined, parse_byte, same_text, texts,
};

verus! {

/// What the `ip` tool is asked about a device.
#[derive(Debug, Clone, Copy, PartialEq, Eq, Structural)]
pub enum IpQuery {
    Route,
    Addr,
    Link,
}

/// The object word of a question to the `ip` tool.
pub open spec fn query_word(query: IpQuery) -> Seq<char> {
    match query {
        IpQuery::Route => "route"@,
        IpQuery::Addr => "addr"@,
        IpQuery::Link => "link"@,
    }
}

/// The arguments with which the `ip` tool is asked about `device`.
pub fn ip_json_args(query: IpQuery, device: &str) -> (args: Vec<String>)
    ensures
        texts(args@) =~= seq!["--json"@, query_word(query), "show"@, "dev"@, device@],
{
    let word: &str = match query {
        IpQuery::Route => "route",
        IpQuery::Addr => "addr",
        IpQuery::Link => "link",
    };
    let mut args: Vec<String> = Vec::new();
    args.push("--json".to_owned());
    args.push(word.to_owned());
    args.push("show".to_owned());
    args.push("dev".to_owned());
    args.push(device.to_owned());
    args
}

/// What a run of the `ip` tool gives: its output if it succeeded, else an error
/// that names the arguments and the status.
pub fn ip_json_outcome(success: bool, stdout: Vec<u8>, args: &Vec<String>, status: &str) -> (r:
    Result<Vec<u8>, IoError>)
    ensures
        success ==> r == Ok::<Vec<u8>, IoError>(stdout),
        !success ==> (r matches Err(e) && e.kind == IoErrorKind::Other && e.message@ == "`ip "@
            + joined(texts(args@), " "@) + "` failed with status "@ + status@),
{
    if success {
        Ok(stdout)
    } else {
        let mut message: String = "`ip ".to_owned();
        message.append(join(args, " ").as_str());
        message.append("` failed with status ");
        message.append(status);
        Err(IoError { kind: IoErrorKind::Other, message })
    }
}

/// The tool's answer is not the JSON that was expected.
#[derive(Debug)]
pub struct JsonError {
    pub message: String,
}

/// The error that is reported for an answer that cannot be read.
fn invalid_data(e: JsonError) -> (r: IoError)
    ensures
        r.kind == IoErrorKind::InvalidData,
        r.message == e.message,
{
    IoError { kind: IoErrorKind::InvalidData, message: e.message }
}

/// A route of a device.
#[derive(Debug)]
pub struct RouteRow {
    /// Where the route leads: an address, or an address, a slash and a mask.
    pub dst: String,
}

/// The text of a destination before its first slash.
pub open spec fn spec_route_base(dst: Seq<char>) -> Seq<char> {
    if dst.contains('/') {
        dst.take(choose|i: int| is_first_place(dst, '/', i))
    } else {
        dst
    }
}

/// The text of a destination behind its first slash.
pub open spec fn spec_route_mask(dst: Seq<char>) -> Option<Seq<char>> {
    if dst.contains('/') {
        Some(dst.skip((choose|i: int| is_first_place(dst, '/', i)) + 1))
    } else {
        None
    }
}

proof fn lemma_first_place(s: Seq<char>, c: char, i: int)
    requires
        is_first_place(s, c, i),
    ensures
        s.contains(c),
        i == choose|j: int| is_first_place(s, c, j),
{
    let j = choose|j: int| is_first_place(s, c, j);
    assert(is_first_place(s, c, j));
    if i < j {
        assert(s[i] != c);
    }
    if j < i {
        assert(s[j] != c);
    }
}

/// The text of a destination before its first slash.
pub fn route_base(dst: &str) -> (base: String)
    ensures
        base@ == spec_route_base(dst@),
{
    match find_char(dst, '/') {
        Some(i) => {
            proof {
                lemma_first_place(dst@, '/', i as int);
            }
            dst.substring_char(0, i).to_owned()
        },
        None => dst.to_owned(),
    }
}

/// The text of a destination behind its first slash.
fn route_mask(dst: &str) -> (mask: Option<String>)
    ensures
        match mask {
            Some(m) => spec_route_mask(dst@) == Some(m@),
            None => spec_route_mask(dst@) is None,
        },
{
    match find_char(dst, '/') {
        Some(i) => {
            proof {
                lemma_first_place(dst@, '/', i as int);
            }
            let end: usize = dst.unicode_len();
            let mask = dst.substring_char(i + 1, end);
            assert(mask@ =~= dst@.skip(i + 1));
            Some(mask.to_owned())
        },
        None => None,
    }
}

/// The multicast group that a route to `dst` leads to, if it leads to exactly one
/// address and that is a group. `base` is the address before the slash, if there
/// is one.
pub open spec fn spec_group_of_route(dst: Seq<char>, base: Option<IpAddress>) -> Option<IpAddress> {
    match base {
        Some(ip) => {
            let exact = match spec_route_mask(dst) {
                Some(mask) => byte_value(mask) == Some(ip.spec_width()),
                None => true,
            };
            if exact && ip.spec_is_multicast() {
                Some(ip)
            } else {
                None
            }
        },
        None => None,
    }
}

/// The multicast group that a route to `dst` leads to, if it leads to exactly one
/// address and that is a group. `base` is the address before the slash, if there
/// is one.
pub fn group_of_route(dst: &str, base: Option<IpAddress>) -> (group: Option<IpAddress>)
    ensures
        group == spec_group_of_route(dst@, base),
{
    match base {
        Some(ip) => {
            let exact: bool = match route_mask(dst) {
                Some(mask) => match parse_byte(mask.as_str()) {
                    Some(bits) => bits == ip.width(),
                    None => false,
                },
                None => true,
            };
            if exact && ip.is_multicast() {
                Some(ip)
            } else {
                None
            }
        },
        None => None,
    }
}

/// The multicast group that a route leads to, if it leads to exactly one
/// address and that is a group.
pub open spec fn route_group(row: RouteRow) -> Option<IpAddress> {
    spec_group_of_route(row.dst@, ip_value(spec_route_base(row.dst@)))
}

/// Every address comes before those behind it, so none occurs twice.
pub open spec fn ascending(ips: Seq<IpAddress>) -> bool {
    forall|i: int, j: int| 0 <= i < j < ips.len() ==> (#[trigger] ips[i]).spec_precedes(
        #[trigger] ips[j],
    )
}

/// Puts `ip` in its place, unless it is there.
fn insert_ascending(ips: &mut Vec<IpAddress>, ip: IpAddress)
    requires
        ascending(old(ips)@),
    ensures
        ascending(final(ips)@),
        forall|x: IpAddress| #[trigger]
            final(ips)@.contains(x) <==> old(ips)@.contains(x) || x == ip,
{
    let ghost before = ips@;
    let mut i: usize = 0;
    while i < ips.len() && ips[i].precedes(&ip)
        invariant
            ips@ == before,
            ascending(before),
            i <= before.len(),
            forall|j: int| 0 <= j < i ==> (#[trigger] before[j]).spec_precedes(ip),
        decreases ips.len() - i,
    {
        i += 1;
    }
    if i < ips.len() && ips[i] == ip {
        assert(before.contains(ip));
        return ;
    }
    ips.insert(i, ip);
    proof {
        let after = ips@;
        assert forall|j: int, k: int| 0 <= j < k < after.len() implies (
        #[trigger] after[j]).spec_precedes(#[trigger] after[k]) by {
            if i < before.len() {
                assert(ip.spec_precedes(before[i as int]));
            }
            if j < i && k > i {
                assert(before[j].spec_precedes(before[k - 1]));
            } else if j == i && k > i {
                if k - 1 > i {
                    assert(before[i as int].spec_precedes(before[k - 1]));
                }
            } else if j > i {
                assert(before[j - 1].spec_precedes(before[k - 1]));
            }
        }
        assert forall|x: IpAddress| #[trigger] after.contains(x) <==> before.contains(x) || x
            == ip by {
            if before.contains(x) {
                let j = choose|j: int| 0 <= j < before.len() && before[j] == x;
                assert(after[if j < i {
                    j
                } else {
                    j + 1
                }] == x);
            }
            assert(after[i as int] == ip);
            if after.contains(x) && x != ip {
                let j = choose|j: int| 0 <= j < after.len() && after[j] == x;
                assert(before[if j < i {
                    j
                } else {
                    j - 1
                }] == x);
            }
        }
    }
}

/// The multicast groups that the routes of a device lead to, in ascending
/// order and each once.
pub fn parse_ip_route_for_device(rows: Result<Vec<RouteRow>, JsonError>) -> (r: Result<
    Vec<IpAddress>,
    IoError,
>)
    ensures
        match rows {
            Ok(rows) => r matches Ok(groups) && ascending(groups@) && forall|ip: IpAddress| #[trigger]
                groups@.contains(ip) <==> exists|i: int|
                    0 <= i < rows@.len() && route_group(#[trigger] rows@[i]) == Some(ip),
            Err(e) => r matches Err(io) && io.kind == IoErrorKind::InvalidData && io.message
                == e.message,
        },
{
    let rows: Vec<RouteRow> = match rows {
        Ok(rows) => rows,
        Err(e) => {
            return Err(invalid_data(e));
        },
    };
    let mut groups: Vec<IpAddress> = Vec::new();
    let mut n: usize = 0;
    while n < rows.len()
        invariant
            n <= rows@.len(),
            ascending(groups@),
            forall|ip: IpAddress| #[trigger]
                groups@.contains(ip) <==> exists|i: int|
                    0 <= i < n && route_group(#[trigger] rows@[i]) == Some(ip),
        decreases rows.len() - n,
    {
        let ghost before = groups@;
        let dst: &str = rows[n].dst.as_str();
        let base: Option<IpAddress> = parse_ip(route_base(dst).as_str());
        let group: Option<IpAddress> = group_of_route(dst, base);
        if let Some(ip) = group {
            insert_ascending(&mut groups, ip);
        }
        proof {
            assert forall|ip: IpAddress| #[trigger] groups@.contains(ip) <==> exists|i: int|
                0 <= i < n + 1 && route_group(#[trigger] rows@[i]) == Some(ip) by {
                if before.contains(ip) {
                    let i = choose|i: int| 0 <= i < n && route_group(#[trigger] rows@[i]) == Some(ip);
                    assert(route_group(rows@[i]) == Some(ip));
                }
                assert(route_group(rows@[n as int]) == group);
            }
        }
        n += 1;
    }
    Ok(groups)
}

/// One address of an interface.
#[derive(Debug)]
pub struct AddrInfo {
    pub family: Option<String>,
    pub local: Option<String>,
}

/// The addresses of an interface.
#[derive(Debug)]
pub struct IfaceRow {
    pub addr_info: Option<Vec<AddrInfo>>,
}

/// An interface.
#[derive(Debug)]
pub struct LinkRow {
    pub ifindex: Option<u32>,
}

/// The local address that an entry gives for IPv4.
pub open spec fn inet_local(info: AddrInfo) -> Option<String> {
    match info.family {
        Some(family) => if family@ == "inet"@ {
            info.local
        } else {
            None
        },
        None => None,
    }
}

/// The entries of an interface.
pub open spec fn row_infos(row: IfaceRow) -> Seq<AddrInfo> {
    match row.addr_info {
        Some(infos) => infos@,
        None => seq![],
    }
}

/// The entries of all interfaces, one interface behind the other.
pub open spec fn all_infos(rows: Seq<IfaceRow>) -> Seq<AddrInfo>
    decreases rows.len(),
{
    if rows.len() == 0 {
        seq![]
    } else {
        all_infos(rows.drop_last()) + row_infos(rows.last())
    }
}

/// `local` is what the first entry with an IPv4 address gives.
pub open spec fn is_first_inet_local(infos: Seq<AddrInfo>, local: String) -> bool {
    exists|i: int|
        {
            &&& 0 <= i < infos.len()
            &&& inet_local(#[trigger] infos[i]) == Some(local)
            &&& forall|j: int| 0 <= j < i ==> inet_local(#[trigger] infos[j]) is None
        }
}

/// No entry gives an IPv4 address.
pub open spec fn has_no_inet_local(infos: Seq<AddrInfo>) -> bool {
    forall|i: int| 0 <= i < infos.len() ==> inet_local(#[trigger] infos[i]) is None
}

/// What the first entry with an IPv4 address gives, if there is one.
#[verifier::loop_isolation(false)]
fn first_inet_local(rows: &Vec<IfaceRow>) -> (r: Option<String>)
    ensures
        match r {
            Some(local) => is_first_inet_local(all_infos(rows@), local),
            None => has_no_inet_local(all_infos(rows@)),
        },
{
    let mut n: usize = 0;
    while n < rows.len()
        invariant
            n <= rows@.len(),
            forall|i: int|
                0 <= i < all_infos(rows@.take(n as int)).len() ==> inet_local(
                    #[trigger] all_infos(rows@.take(n as int))[i],
                ) is None,
        decreases rows.len() - n,
    {
        let ghost seen = all_infos(rows@.take(n as int));
        let ghost here = row_infos(rows@[n as int]);
        proof {
            assert(rows@.take(n + 1).drop_last() =~= rows@.take(n as int));
            assert(all_infos(rows@.take(n + 1)) == seen + here);
        }
        if let Some(infos) = &rows[n].addr_info {
            let mut k: usize = 0;
            while k < infos.len()
                invariant
                    n < rows@.len(),
                    k <= infos@.len(),
                    here == infos@,
                    seen == all_infos(rows@.take(n as int)),
                    all_infos(rows@.take(n + 1)) == seen + here,
                    forall|i: int| 0 <= i < seen.len() ==> inet_local(#[trigger] seen[i]) is None,
                    forall|i: int| 0 <= i < k ==> inet_local(#[trigger] here[i]) is None,
                decreases infos.len() - k,
            {
                if let Some(family) = &infos[k].family {
                    if same_text(family.as_str(), "inet") {
                        if let Some(local) = &infos[k].local {
                            proof {
                                let all = all_infos(rows@);
                                lemma_infos_prefix(rows@, n + 1);
                                let at = seen.len() + k;
                                assert(all[at] == here[k as int]);
                                assert forall|j: int| 0 <= j < at implies inet_local(
                                    #[trigger] all[j],
                                ) is None by {
                                    if j < seen.len() {
                                        assert(all[j] == seen[j]);
                                    } else {
                                        assert(all[j] == here[j - seen.len()]);
                                    }
                                }
                            }
                            return Some(local.clone());
                        }
                    }
                }
                k += 1;
            }
        }
        n += 1;
    }
    assert(rows@.take(rows@.len() as int) =~= rows@);
    None
}

/// The primary IPv4 address of a device: the first one in the answer, if there is
/// one and it is written as one.
pub fn parse_ipv4_addr_from_ip_addr_show_json(rows: Result<Vec<IfaceRow>, JsonError>) -> (r: Result<
    Option<Ipv4Address>,
    IoError,
>)
    ensures
        match rows {
            Ok(rows) => match r {
                Ok(Some(ip)) => exists|local: String| #[trigger]
                    is_first_inet_local(all_infos(rows@), local) && local@ == ipv4_text(ip),
                Ok(None) => has_no_inet_local(all_infos(rows@)) || exists|local: String| #[trigger]
                    is_first_inet_local(all_infos(rows@), local) && forall|ip: Ipv4Address|
                        local@ != #[trigger] ipv4_text(ip),
                Err(_) => false,
            },
            Err(e) => r matches Err(io) && io.kind == IoErrorKind::InvalidData && io.message
                == e.message,
        },
{
    match rows {
        Ok(rows) => match first_inet_local(&rows) {
            Some(local) => Ok(parse_ipv4(local.as_str())),
            None => Ok(None),
        },
        Err(e) => Err(invalid_data(e)),
    }
}

/// The entries of the first interfaces are the first entries of all.
proof fn lemma_infos_prefix(rows: Seq<IfaceRow>, n: int)
    requires
        0 <= n <= rows.len(),
    ensures
        all_infos(rows.take(n)).len() <= all_infos(rows).len(),
        forall|i: int|
            0 <= i < all_infos(rows.take(n)).len() ==> #[trigger] all_infos(rows)[i] == all_infos(
                rows.take(n),
            )[i],
    decreases rows.len(),
{
    if n == rows.len() {
        assert(rows.take(n) =~= rows);
    } else {
        lemma_infos_prefix(rows.drop_last(), n);
        assert(rows.drop_last().take(n) =~= rows.take(n));
    }
}

/// The index of the last interface in the answer, if it gives one.
pub open spec fn last_ifindex(rows: Seq<LinkRow>) -> Option<u32> {
    if rows.len() == 0 {
        None
    } else {
        rows.last().ifindex
    }
}

/// The index of the last interface in the answer, if it gives one.
pub fn parse_ifindex_from_ip_link_show_json(rows: Result<Vec<LinkRow>, JsonError>) -> (r: Result<
    Option<u32>,
    IoError,
>)
    ensures
        match rows {
            Ok(rows) => r == Ok::<Option<u32>, IoError>(last_ifindex(rows@)),
            Err(e) => r matches Err(io) && io.kind == IoErrorKind::InvalidData && io.message
                == e.message,
        },
{
    match rows {
        Ok(rows) => {
            if rows.len() == 0 {
                Ok(None)
            } else {
                Ok(rows[rows.len() - 1].ifindex)
            }
        },
        Err(e) => Err(invalid_data(e)),
    }
}

/// An IPv4 group to join.
#[derive(Debug)]
pub struct TritonMulticastConfigV4 {
    pub multicast_ip: Ipv4Address,
    /// The device to join on; all devices without one.
    pub bind_ifname: Option<String>,
    pub listen_port: u16,
}

/// An IPv6 group to join.
#[derive(Debug)]
pub struct TritonMulticastConfigV6 {
    pub multicast_ip: Ipv6Address,
    pub device_ifname: String,
    pub listen_port: u16,
}

/// A group to join.
#[derive(Debug)]
pub enum TritonMulticastConfig {
    Ipv4(TritonMulticastConfigV4),
    Ipv6(TritonMulticastConfigV6),
}

impl TritonMulticastConfig {
    /// The group's address.
    pub fn ip(&self) -> (ip: IpAddress)
        ensures
            ip == match *self {
                TritonMulticastConfig::Ipv4(cfg) => IpAddress::V4(cfg.multicast_ip),
                TritonMulticastConfig::Ipv6(cfg) => IpAddress::V6(cfg.multicast_ip),
            },
    {
        match self {
            TritonMulticastConfig::Ipv4(cfg) => IpAddress::V4(cfg.multicast_ip),
            TritonMulticastConfig::Ipv6(cfg) => IpAddress::V6(cfg.multicast_ip),
        }
    }
}

/// The address to join an IPv4 group on, or what is wrong.
pub open spec fn spec_multicast_device_v4(
    config: TritonMulticastConfigV4,
    found: Option<Ipv4Address>,
) -> Result<Ipv4Address, Seq<char>> {
    match (config.bind_ifname, found) {
        (None, _) => Ok(Ipv4Address { bits: 0 }),
        (Some(_), Some(ip)) => Ok(ip),
        (Some(name), None) => Err("No IPv4 address found for device "@ + name@),
    }
}

/// The address to join an IPv4 group on: any where no device is named, else
/// the one that was found for the device.
pub fn multicast_device_v4(config: &TritonMulticastConfigV4, found: Option<Ipv4Address>) -> (r:
    Result<Ipv4Address, IoError>)
    ensures
        match (config.bind_ifname, found) {
            (None, _) => r matches Ok(ip) && ip.bits == 0,
            (Some(_), Some(ip)) => r == Ok::<Ipv4Address, IoError>(ip),
            (Some(name), None) => r matches Err(e) && e.kind == IoErrorKind::NotFound && e.message@
                == "No IPv4 address found for device "@ + name@,
        },
        match spec_multicast_device_v4(*config, found) {
            Ok(ip) => r == Ok::<Ipv4Address, IoError>(ip),
            Err(text) => r matches Err(e) && e.kind == IoErrorKind::NotFound && e.message@ == text,
        },
{
    match &config.bind_ifname {
        None => Ok(Ipv4Address::unspecified()),
        Some(name) => match found {
            Some(ip) => Ok(ip),
            None => {
                let mut message: String = "No IPv4 address found for device ".to_owned();
                message.append(name.as_str());
                Err(IoError { kind: IoErrorKind::NotFound, message })
            },
        },
    }
}

/// The index of the device to join an IPv6 group on.
pub fn multicast_device_v6(config: &TritonMulticastConfigV6, found: Option<u32>) -> (r: Result<
    u32,
    IoError,
>)
    ensures
        match found {
            Some(ifindex) => r == Ok::<u32, IoError>(ifindex),
            None => r matches Err(e) && e.kind == IoErrorKind::NotFound && e.message@
                == "No such device "@ + config.device_ifname@,
        },
{
    match found {
        Some(ifindex) => Ok(ifindex),
        None => {
            let mut message: String = "No such device ".to_owned();
            message.append(config.device_ifname.as_str());
            Err(IoError { kind: IoErrorKind::NotFound, message })
        },
    }
}

/// One step in setting up a socket.
#[derive(Debug, Clone, Copy, PartialEq, Eq, Structural)]
pub enum SocketOp {
    SetOnlyV6,
    SetReuseAddress,
    SetReusePort,
    SetNonblocking,
    Bind(IpAddress, u16),
    JoinV4(Ipv4Address, Ipv4Address),
    JoinV6(Ipv6Address, u32),
}

/// The steps that set up the `index`-th socket of an IPv4 group. The first one
/// is bound to the port of the configuration, the others to the port that the
/// first one got.
pub open spec fn spec_socket_ops_v4(
    config: TritonMulticastConfigV4,
    device_ip: Ipv4Address,
    index: int,
    local_port: u16,
) -> Seq<SocketOp> {
    let any = IpAddress::V4(Ipv4Address { bits: 0 });
    let join = SocketOp::JoinV4(config.multicast_ip, device_ip);
    if index == 0 {
        seq![
            SocketOp::SetReuseAddress,
            SocketOp::SetReusePort,
            SocketOp::SetNonblocking,
            SocketOp::Bind(any, config.listen_port),
            join,
        ]
    } else {
        seq![
            SocketOp::SetReuseAddress,
            SocketOp::SetReusePort,
            SocketOp::Bind(any, local_port),
            SocketOp::SetNonblocking,
            join,
        ]
    }
}

/// The steps that set up the `index`-th socket of an IPv6 group, which carries
/// IPv6 alone. The ports are chosen as for IPv4.
pub open spec fn spec_socket_ops_v6(
    config: TritonMulticastConfigV6,
    ifindex: u32,
    index: int,
    local_port: u16,
) -> Seq<SocketOp> {
    let any = IpAddress::V6(Ipv6Address { bits: 0 });
    let join = SocketOp::JoinV6(config.multicast_ip, ifindex);
    if index == 0 {
        seq![
            SocketOp::SetOnlyV6,
            SocketOp::SetReuseAddress,
            SocketOp::SetReusePort,
            SocketOp::SetNonblocking,
            SocketOp::Bind(any, config.listen_port),
            join,
        ]
    } else {
        seq![
            SocketOp::SetOnlyV6,
            SocketOp::SetReuseAddress,
            SocketOp::SetReusePort,
            SocketOp::Bind(any, local_port),
            SocketOp::SetNonblocking,
            join,
        ]
    }
}

/// The steps that set up the `index`-th socket of an IPv4 group.
pub fn socket_ops_v4(
    config: &TritonMulticastConfigV4,
    device_ip: Ipv4Address,
    index: usize,
    local_port: u16,
) -> (ops: Vec<SocketOp>)
    ensures
        ops@ =~= spec_socket_ops_v4(*config, device_ip, index as int, local_port),
{
    let any = IpAddress::V4(Ipv4Address::unspecified());
    let mut ops: Vec<SocketOp> = Vec::new();
    ops.push(SocketOp::SetReuseAddress);
    ops.push(SocketOp::SetReusePort);
    if index == 0 {
        ops.push(SocketOp::SetNonblocking);
        ops.push(SocketOp::Bind(any, config.listen_port));
    } else {
        ops.push(SocketOp::Bind(any, local_port));
        ops.push(SocketOp::SetNonblocking);
    }
    ops.push(SocketOp::JoinV4(config.multicast_ip, device_ip));
    ops
}

/// The steps that set up the `index`-th socket of an IPv6 group.
pub fn socket_ops_v6(
    config: &TritonMulticastConfigV6,
    ifindex: u32,
    index: usize,
    local_port: u16,
) -> (ops: Vec<SocketOp>)
    ensures
        ops@ =~= spec_socket_ops_v6(*config, ifindex, index as int, local_port),
{
    let any = IpAddress::V6(Ipv6Address::unspecified());
    let mut ops: Vec<SocketOp> = Vec::new();
    ops.push(SocketOp::SetOnlyV6);
    ops.push(SocketOp::SetReuseAddress);
    ops.push(SocketOp::SetReusePort);
    if index == 0 {
        ops.push(SocketOp::SetNonblocking);
        ops.push(SocketOp::Bind(any, config.listen_port));
    } else {
        ops.push(SocketOp::Bind(any, local_port));
        ops.push(SocketOp::SetNonblocking);
    }
    ops.push(SocketOp::JoinV6(config.multicast_ip, ifindex));
    ops
}

/// All sockets behind the first share its port, and every socket of a group
/// joins the same group on the same device and does not block.
pub proof fn law_sockets_share_port_and_group_v4(
    config: TritonMulticastConfigV4,
    device_ip: Ipv4Address,
    index: nat,
    local_port: u16,
)
    ensures
        ({
            let ops = spec_socket_ops_v4(config, device_ip, index as int, local_port);
            let port = if index == 0 {
                config.listen_port
            } else {
                local_port
            };
            &&& ops.contains(SocketOp::Bind(IpAddress::V4(Ipv4Address { bits: 0 }), port))
            &&& ops.contains(SocketOp::JoinV4(config.multicast_ip, device_ip))
            &&& ops.contains(SocketOp::SetNonblocking)
            &&& ops.contains(SocketOp::SetReusePort)
        }),
{
    let ops = spec_socket_ops_v4(config, device_ip, index as int, local_port);
    assert(ops[1] == SocketOp::SetReusePort);
    assert(ops.contains(ops[2]) && ops.contains(ops[3]));
    assert(ops[4] == SocketOp::JoinV4(config.multicast_ip, device_ip));
}

/// As for IPv4, and every socket of an IPv6 group carries IPv6 alone.
pub proof fn law_sockets_share_port_and_group_v6(
    config: TritonMulticastConfigV6,
    ifindex: u32,
    index: nat,
    local_port: u16,
)
    ensures
        ({
            let ops = spec_socket_ops_v6(config, ifindex, index as int, local_port);
            let port = if index == 0 {
                config.listen_port
            } else {
                local_port
            };
            &&& ops.contains(SocketOp::Bind(IpAddress::V6(Ipv6Address { bits: 0 }), port))
            &&& ops.contains(SocketOp::JoinV6(config.multicast_ip, ifindex))
            &&& ops.contains(SocketOp::SetNonblocking)
            &&& ops.contains(SocketOp::SetReusePort)
            &&& ops.contains(SocketOp::SetOnlyV6)
        }),
{
    let ops = spec_socket_ops_v6(config, ifindex, index as int, local_port);
    assert(ops[0] == SocketOp::SetOnlyV6);
    assert(ops[2] == SocketOp::SetReusePort);
    assert(ops.contains(ops[3]) && ops.contains(ops[4]));
    assert(ops[5] == SocketOp::JoinV6(config.multicast_ip, ifindex));
}

} // verus!
