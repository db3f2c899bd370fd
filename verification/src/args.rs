//! What the command line asks for.

use vstd::prelude::*;

use crate::addr::{IpAddress, SocketAddress};
use crate::io_error::{IoError, IoErrorKind};
use crate::sizing::{PktRecvMemSizing, PktRecvTileMemConfig};
use crate::text::texts;
use crate::triton_multicast_config::{
    TritonMulticastConfig, TritonMulticastConfigV4, TritonMulticastConfigV6,
};

verus! {

/// How many regions the block engine sends heartbeats from at most.
pub const MAX_REGIONS: usize = 2;

/// How many tiles of a kind there are unless the user asks for more.
pub const DEFAULT_TILES: usize = 1;

/// An error about the arguments.
fn invalid_input(message: &str) -> (e: IoError)
    ensures
        e.kind == IoErrorKind::InvalidInput,
        e.message@ == message@,
{
    IoError { kind: IoErrorKind::InvalidInput, message: message.to_owned() }
}

/// What is wrong with the arguments about destinations, if anything: discovery
/// takes both a URL and a port, and without it there must be a destination.
pub open spec fn destinations_error(has_url: bool, has_port: bool, num_dests: int) -> Option<
    Seq<char>,
> {
    if has_url != has_port {
        Some(
            "Invalid arguments provided, dynamic endpoints requires both --endpoint-discovery-url and --discovered-endpoints-port."@,
        )
    } else if !has_url && num_dests == 0 {
        Some(
            "No destinations found. You must provide values for --dest-ip-ports or --endpoint-discovery-url."@,
        )
    } else {
        None
    }
}

/// Checks the arguments about destinations.
pub fn check_destinations(
    endpoint_discovery_url: &Option<String>,
    discovered_endpoints_port: Option<u16>,
    num_dests: usize,
) -> (r: Result<(), IoError>)
    ensures
        match destinations_error(
            *endpoint_discovery_url is Some,
            discovered_endpoints_port is Some,
            num_dests as int,
        ) {
            None => r is Ok,
            Some(text) => r matches Err(e) && e.kind == IoErrorKind::InvalidInput && e.message@
                == text,
        },
{
    let has_url: bool = endpoint_discovery_url.is_some();
    let has_port: bool = discovered_endpoints_port.is_some();
    if (!has_url && has_port) || (has_url && !has_port) {
        return Err(
            invalid_input(
                "Invalid arguments provided, dynamic endpoints requires both --endpoint-discovery-url and --discovered-endpoints-port.",
            ),
        );
    }
    if !has_url && !has_port && num_dests == 0 {
        return Err(
            invalid_input(
                "No destinations found. You must provide values for --dest-ip-ports or --endpoint-discovery-url.",
            ),
        );
    }
    Ok(())
}

/// Where and on which port endpoints are discovered, if they are.
pub open spec fn spec_discovery_service(url: Option<String>, port: Option<u16>) -> Option<
    (String, u16),
> {
    match (url, port) {
        (Some(u), Some(p)) => Some((u, p)),
        _ => None,
    }
}

/// Where and on which port endpoints are discovered, if they are.
pub fn discovery_service(url: Option<String>, port: Option<u16>) -> (r: Option<(String, u16)>)
    ensures
        r == spec_discovery_service(url, port),
        r == (match (url, port) {
            (Some(u), Some(p)) => Some((u, p)),
            _ => None,
        }),
{
    match (url, port) {
        (Some(u), Some(p)) => Some((u, p)),
        _ => None,
    }
}

/// The first of the addresses that a destination resolves to, with the text it
/// was resolved from.
pub fn first_destination(addrs: &Vec<SocketAddress>, hostname_port: &str) -> (r: Result<
    (SocketAddress, String),
    IoError,
>)
    ensures
        addrs@.len() > 0 ==> (r matches Ok(d) && d.0 == addrs@[0] && d.1@ == hostname_port@),
        addrs@.len() == 0 ==> (r matches Err(e) && e.kind == IoErrorKind::AddrNotAvailable
            && e.message@ == "Could not find destination "@ + hostname_port@),
{
    if addrs.len() > 0 {
        Ok((addrs[0], hostname_port.to_owned()))
    } else {
        let mut message: String = "Could not find destination ".to_owned();
        message.append(hostname_port);
        Err(IoError { kind: IoErrorKind::AddrNotAvailable, message })
    }
}

/// The addresses of destinations.
pub open spec fn spec_destination_addrs(dests: Seq<(SocketAddress, String)>) -> Seq<SocketAddress> {
    dests.map_values(|d: (SocketAddress, String)| d.0)
}

/// The addresses of destinations.
pub fn destination_addrs(dests: &Vec<(SocketAddress, String)>) -> (addrs: Vec<SocketAddress>)
    ensures
        addrs@ == spec_destination_addrs(dests@),
        addrs@ == dests@.map_values(|d: (SocketAddress, String)| d.0),
{
    let mut addrs: Vec<SocketAddress> = Vec::new();
    let mut i: usize = 0;
    while i < dests.len()
        invariant
            i <= dests@.len(),
            addrs@ =~= dests@.take(i as int).map_values(|d: (SocketAddress, String)| d.0),
        decreases dests.len() - i,
    {
        addrs.push(dests[i].0);
        i += 1;
    }
    assert(dests@.take(i as int) =~= dests@);
    addrs
}

/// The multicast group to join, if one is asked for, or what is wrong.
pub open spec fn spec_multicast_config(
    group: Option<IpAddress>,
    bind_interface: Option<String>,
    listen_port: u16,
) -> Result<Option<TritonMulticastConfig>, Seq<char>> {
    match (group, bind_interface) {
        (None, _) => Ok(None),
        (Some(IpAddress::V4(multicast_ip)), _) => Ok(
            Some(
                TritonMulticastConfig::Ipv4(
                    TritonMulticastConfigV4 {
                        multicast_ip,
                        bind_ifname: bind_interface,
                        listen_port,
                    },
                ),
            ),
        ),
        (Some(IpAddress::V6(multicast_ip)), Some(device_ifname)) => Ok(
            Some(
                TritonMulticastConfig::Ipv6(
                    TritonMulticastConfigV6 { multicast_ip, device_ifname, listen_port },
                ),
            ),
        ),
        (Some(IpAddress::V6(_)), None) => Err(
            "triton-multicast-bind-interface is required for IPv6"@,
        ),
    }
}

/// The multicast group to join, if one is asked for. A group of IPv6 takes an
/// interface.
pub fn multicast_config(
    group: Option<IpAddress>,
    bind_interface: Option<String>,
    listen_port: u16,
) -> (r: Result<Option<TritonMulticastConfig>, IoError>)
    ensures
        match (group, bind_interface) {
            (None, _) => r == Ok::<Option<TritonMulticastConfig>, IoError>(None),
            (Some(IpAddress::V4(multicast_ip)), _) => r == Ok::<
                Option<TritonMulticastConfig>,
                IoError,
            >(
                Some(
                    TritonMulticastConfig::Ipv4(
                        TritonMulticastConfigV4 {
                            multicast_ip,
                            bind_ifname: bind_interface,
                            listen_port,
                        },
                    ),
                ),
            ),
            (Some(IpAddress::V6(multicast_ip)), Some(device_ifname)) => r == Ok::<
                Option<TritonMulticastConfig>,
                IoError,
            >(
                Some(
                    TritonMulticastConfig::Ipv6(
                        TritonMulticastConfigV6 { multicast_ip, device_ifname, listen_port },
                    ),
                ),
            ),
            (Some(IpAddress::V6(_)), None) => r matches Err(e) && e.kind
                == IoErrorKind::InvalidInput && e.message@
                == "triton-multicast-bind-interface is required for IPv6"@,
        },
        match spec_multicast_config(group, bind_interface, listen_port) {
            Ok(config) => r == Ok::<Option<TritonMulticastConfig>, IoError>(config),
            Err(text) => r matches Err(e) && e.kind == IoErrorKind::InvalidInput && e.message@
                == text,
        },
{
    match group {
        None => Ok(None),
        Some(IpAddress::V4(multicast_ip)) => Ok(
            Some(
                TritonMulticastConfig::Ipv4(
                    TritonMulticastConfigV4 {
                        multicast_ip,
                        bind_ifname: bind_interface,
                        listen_port,
                    },
                ),
            ),
        ),
        Some(IpAddress::V6(multicast_ip)) => match bind_interface {
            Some(device_ifname) => Ok(
                Some(
                    TritonMulticastConfig::Ipv6(
                        TritonMulticastConfigV6 { multicast_ip, device_ifname, listen_port },
                    ),
                ),
            ),
            None => Err(
                invalid_input("triton-multicast-bind-interface is required for IPv6"),
            ),
        },
    }
}

/// The memory of each receiver: of the size that is asked for, else of the
/// smallest.
pub fn recv_tile_mem_config(memory_size: Option<PktRecvMemSizing>) -> (config: PktRecvTileMemConfig)
    ensures
        config.frame_size == 2048,
        config.memory_size == (match memory_size {
            Some(size) => size,
            None => PktRecvMemSizing::XSmall,
        }),
        !config.hugepage,
{
    let default: PktRecvTileMemConfig = PktRecvTileMemConfig::default();
    PktRecvTileMemConfig {
        memory_size: match memory_size {
            Some(size) => size,
            None => default.memory_size,
        },
        ..default
    }
}

/// The number of tiles of a kind.
pub open spec fn spec_tile_count(requested: Option<usize>) -> usize {
    match requested {
        Some(n) => n,
        None => DEFAULT_TILES,
    }
}

/// The number of tiles of a kind.
pub fn tile_count(requested: Option<usize>) -> (n: usize)
    ensures
        n == spec_tile_count(requested),
        requested matches Some(wanted) ==> n == wanted,
        requested is None ==> n == 1,
{
    match requested {
        Some(n) => n,
        None => DEFAULT_TILES,
    }
}

/// The regions that are used of those that are asked for, if those are too many.
pub open spec fn spec_regions_in_use(desired_regions: Seq<Seq<char>>) -> Option<Seq<Seq<char>>> {
    if desired_regions.len() > MAX_REGIONS {
        Some(desired_regions.take(MAX_REGIONS as int))
    } else {
        None
    }
}

/// The regions that are used of those that are asked for, if those are too many.
pub fn regions_in_use(desired_regions: &Vec<String>) -> (r: Option<Vec<String>>)
    ensures
        match r {
            Some(used) => spec_regions_in_use(texts(desired_regions@)) == Some(texts(used@)),
            None => spec_regions_in_use(texts(desired_regions@)) is None,
        },
        match r {
            Some(used) => desired_regions@.len() > MAX_REGIONS && texts(used@) == texts(
                desired_regions@,
            ).take(MAX_REGIONS as int),
            None => desired_regions@.len() <= MAX_REGIONS,
        },
{
    if desired_regions.len() <= MAX_REGIONS {
        return None;
    }
    let mut used: Vec<String> = Vec::new();
    let mut i: usize = 0;
    while i < MAX_REGIONS
        invariant
            i <= MAX_REGIONS < desired_regions@.len(),
            texts(used@) =~= texts(desired_regions@).take(i as int),
        decreases MAX_REGIONS - i,
    {
        let ghost before = used@;
        used.push(desired_regions[i].clone());
        assert(texts(used@) =~= texts(before).push(desired_regions@[i as int]@));
        i += 1;
    }
    Some(used)
}

/// What the block engine is told: where it authenticates, the regions whose shreds
/// are desired, and where it sends them to.
pub struct HeartbeatTarget {
    pub block_engine_url: String,
    pub auth_url: String,
    pub desired_regions: Vec<String>,
    pub recv_addr: SocketAddress,
}

/// What the block engine is told. Unless another is given, the block engine
/// itself is the one to authenticate with.
pub fn heartbeat_target(
    block_engine_url: String,
    auth_url: Option<String>,
    desired_regions: Vec<String>,
    public_ip: IpAddress,
    src_bind_port: u16,
) -> (target: HeartbeatTarget)
    ensures
        target.block_engine_url@ == block_engine_url@,
        target.auth_url@ == (match auth_url {
            Some(url) => url@,
            None => block_engine_url@,
        }),
        target.desired_regions == desired_regions,
        target.recv_addr == SocketAddress::spec_new(public_ip, src_bind_port),
{
    let auth_url: String = match auth_url {
        Some(url) => url,
        None => block_engine_url.clone(),
    };
    HeartbeatTarget {
        block_engine_url,
        auth_url,
        desired_regions,
        recv_addr: SocketAddress::new(public_ip, src_bind_port),
    }
}

} // verus!
