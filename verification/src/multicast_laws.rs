//! What holds of multicast groups: of the routes that lead to them and of the sockets that
//! join them.

use vstd::prelude::*;

use crate::addr::{IpAddress, Ipv4Address, Ipv6Address};
use crate::args::spec_multicast_config;
use crate::ip_text::ip_value;
use crate::ipv4_text::{ipv4_text, octet};
use crate::text::{byte_value, decimal, is_first_place, law_decimal_reads_back};
use crate::text_laws::{law_addresses_are_read, law_bytes_are_read, law_ipv4_is_written_with_dots};
use crate::triton_multicast_config::{
    all_infos, has_no_inet_local, inet_local, is_first_inet_local, last_ifindex, query_word,
    route_group, row_infos, spec_group_of_route, spec_multicast_device_v4, spec_route_base,
    spec_route_mask, spec_socket_ops_v4, spec_socket_ops_v6, AddrInfo, IfaceRow, IpQuery, LinkRow,
    RouteRow, SocketOp, TritonMulticastConfig, TritonMulticastConfigV4, TritonMulticastConfigV6,
};

verus! {

/// The step `a` stands before the step `b`.
pub open spec fn stands_before(ops: Seq<SocketOp>, a: SocketOp, b: SocketOp) -> bool {
    exists|i: int, j: int| 0 <= i < j < ops.len() && #[trigger] ops[i] == a && #[trigger] ops[j] == b
}

/// Every socket of an IPv4 group is bound once, to its port on all devices: the first one
/// to the port that is asked for, the others to the one that it got. Before it is bound,
/// it can share its address and port; behind that it joins the group on the device. It
/// does not block: the first one before it is bound, the others afterwards. Nothing else
/// is done with it.
pub proof fn law_socket_is_set_up_in_order_v4(
    config: TritonMulticastConfigV4,
    device_ip: Ipv4Address,
    index: nat,
    local_port: u16,
)
    ensures
        ({
            let ops = spec_socket_ops_v4(config, device_ip, index as int, local_port);
            let port = if index == 0 {
                config.listen_port
            } else {
                local_port
            };
            let bind = SocketOp::Bind(IpAddress::V4(Ipv4Address { bits: 0 }), port);
            let join = SocketOp::JoinV4(config.multicast_ip, device_ip);
            &&& ops.no_duplicates()
            &&& ops.len() == 5
            &&& forall|i: int|
                0 <= i < ops.len() && (#[trigger] ops[i]) is Bind ==> ops[i] == bind
            &&& stands_before(ops, SocketOp::SetReuseAddress, SocketOp::SetReusePort)
            &&& stands_before(ops, SocketOp::SetReusePort, bind)
            &&& stands_before(ops, SocketOp::SetReusePort, SocketOp::SetNonblocking)
            &&& stands_before(ops, bind, join)
            &&& stands_before(ops, SocketOp::SetNonblocking, join)
            &&& index == 0 ==> stands_before(ops, SocketOp::SetNonblocking, bind)
            &&& index > 0 ==> stands_before(ops, bind, SocketOp::SetNonblocking)
        }),
{
    let ops = spec_socket_ops_v4(config, device_ip, index as int, local_port);
    assert(ops[0] == SocketOp::SetReuseAddress);
    assert(ops[1] == SocketOp::SetReusePort);
    assert(ops[2] == ops[2] && ops[3] == ops[3]);
    assert(ops[4] == SocketOp::JoinV4(config.multicast_ip, device_ip));
}

/// As for IPv4; and before all else the socket of an IPv6 group is made to carry IPv6
/// alone, which cannot be done once it is bound.
pub proof fn law_socket_is_set_up_in_order_v6(
    config: TritonMulticastConfigV6,
    ifindex: u32,
    index: nat,
    local_port: u16,
)
    ensures
        ({
            let ops = spec_socket_ops_v6(config, ifindex, index as int, local_port);
            let port = if index == 0 {
                config.listen_port
            } else {
                local_port
            };
            let bind = SocketOp::Bind(IpAddress::V6(Ipv6Address { bits: 0 }), port);
            let join = SocketOp::JoinV6(config.multicast_ip, ifindex);
            &&& ops.no_duplicates()
            &&& ops.len() == 6
            &&& forall|i: int|
                0 <= i < ops.len() && (#[trigger] ops[i]) is Bind ==> ops[i] == bind
            &&& stands_before(ops, SocketOp::SetOnlyV6, SocketOp::SetReuseAddress)
            &&& stands_before(ops, SocketOp::SetOnlyV6, bind)
            &&& stands_before(ops, SocketOp::SetReuseAddress, SocketOp::SetReusePort)
            &&& stands_before(ops, SocketOp::SetReusePort, bind)
            &&& stands_before(ops, SocketOp::SetReusePort, SocketOp::SetNonblocking)
            &&& stands_before(ops, bind, join)
            &&& stands_before(ops, SocketOp::SetNonblocking, join)
            &&& index == 0 ==> stands_before(ops, SocketOp::SetNonblocking, bind)
            &&& index > 0 ==> stands_before(ops, bind, SocketOp::SetNonblocking)
        }),
{
    let ops = spec_socket_ops_v6(config, ifindex, index as int, local_port);
    assert(ops[0] == SocketOp::SetOnlyV6);
    assert(ops[1] == SocketOp::SetReuseAddress);
    assert(ops[2] == SocketOp::SetReusePort);
    assert(ops[3] == ops[3] && ops[4] == ops[4]);
    assert(ops[5] == SocketOp::JoinV6(config.multicast_ip, ifindex));
}

/// The destination of a route is taken apart at its first slash: what stands before it,
/// the slash and what stands behind it are the whole text. Without a slash all of it is
/// the address.
pub proof fn law_destination_is_split_at_its_first_slash(dst: Seq<char>)
    ensures
        !spec_route_base(dst).contains('/'),
        dst.contains('/') <==> spec_route_mask(dst) is Some,
        match spec_route_mask(dst) {
            Some(mask) => dst =~= spec_route_base(dst) + seq!['/'] + mask,
            None => dst == spec_route_base(dst),
        },
{
    if dst.contains('/') {
        lemma_has_first_place(dst, '/');
        let i = choose|i: int| is_first_place(dst, '/', i);
        assert(is_first_place(dst, '/', i));
        assert forall|j: int| 0 <= j < i implies dst.take(i)[j] != '/' by {}
    }
}

/// A character that occurs has a first place.
proof fn lemma_has_first_place(s: Seq<char>, c: char)
    requires
        s.contains(c),
    ensures
        exists|i: int| is_first_place(s, c, i),
    decreases s.len(),
{
    let rest = s.drop_last();
    if rest.contains(c) {
        lemma_has_first_place(rest, c);
        let i = choose|i: int| is_first_place(rest, c, i);
        assert(is_first_place(rest, c, i));
        assert(s[i] == rest[i]);
        assert forall|j: int| 0 <= j < i implies s[j] != c by {
            assert(rest[j] == s[j]);
        }
        assert(is_first_place(s, c, i));
    } else {
        let i = s.len() - 1;
        assert forall|j: int| 0 <= j < i implies s[j] != c by {
            assert(rest[j] == s[j]);
            assert(!rest.contains(c));
        }
        let k = choose|k: int| 0 <= k < s.len() && s[k] == c;
        assert(k == i);
        assert(is_first_place(s, c, i));
    }
}

/// A route leads to a group exactly if its address is one, that is 224.0.0.0 to
/// 239.255.255.255 or from ff00:: on, and it has no mask, or one with all bits of the
/// address: 32 or 128.
pub proof fn law_which_routes_lead_to_a_group(
    dst: Seq<char>,
    base: Option<IpAddress>,
    group: IpAddress,
)
    ensures
        spec_group_of_route(dst, base) == Some(group) <==> {
            &&& base == Some(group)
            &&& match group {
                IpAddress::V4(ip) => 224 * 0x100_0000 <= ip.bits < 240 * 0x100_0000,
                IpAddress::V6(ip) => ip.bits >= 0xff00_0000_0000_0000_0000_0000_0000_0000,
            }
            &&& match spec_route_mask(dst) {
                None => true,
                Some(mask) => byte_value(mask) == Some(
                    if group is V4 {
                        32u8
                    } else {
                        128u8
                    },
                ),
            }
        },
        base is None ==> spec_group_of_route(dst, base) is None,
{
}

/// No address in dotted decimal notation has a slash.
proof fn lemma_no_slash_in_ipv4(ip: Ipv4Address)
    ensures
        !ipv4_text(ip).contains('/'),
{
    law_ipv4_is_written_with_dots(ip);
    law_decimal_reads_back(octet(ip, 0));
    law_decimal_reads_back(octet(ip, 1));
    law_decimal_reads_back(octet(ip, 2));
    law_decimal_reads_back(octet(ip, 3));
    let a = decimal(octet(ip, 0));
    let b = decimal(octet(ip, 1));
    let c = decimal(octet(ip, 2));
    let d = decimal(octet(ip, 3));
    let text = ipv4_text(ip);
    assert forall|i: int| 0 <= i < text.len() implies text[i] != '/' by {
        let p1 = a.len() as int;
        let p2 = p1 + 1 + b.len();
        let p3 = p2 + 1 + c.len();
        if i < p1 {
            assert(text[i] == a[i]);
        } else if p1 < i < p2 {
            assert(text[i] == b[i - p1 - 1]);
        } else if p2 < i < p3 {
            assert(text[i] == c[i - p2 - 1]);
        } else if p3 < i {
            assert(text[i] == d[i - p3 - 1]);
        }
    }
}

/// Where a text is put together with a slash, it is taken apart again.
proof fn lemma_split_joined(base: Seq<char>, mask: Seq<char>)
    requires
        !base.contains('/'),
    ensures
        spec_route_base(base) == base,
        spec_route_mask(base) is None,
        spec_route_base(base + seq!['/'] + mask) == base,
        spec_route_mask(base + seq!['/'] + mask) == Some(mask),
{
    let dst = base + seq!['/'] + mask;
    let n = base.len() as int;
    assert(dst[n] == '/');
    assert forall|j: int| 0 <= j < n implies dst[j] != '/' by {
        assert(dst[j] == base[j]);
        assert(!base.contains('/'));
    }
    assert(is_first_place(dst, '/', n));
    let i = choose|i: int| is_first_place(dst, '/', i);
    assert(is_first_place(dst, '/', i));
    assert(i == n) by {
        if i < n {
            assert(dst[i] != '/');
        }
        if n < i {
            assert(dst[n] != '/');
        }
    }
    assert(dst.take(n) =~= base);
    assert(dst.skip(n + 1) =~= mask);
}

/// A route to an address of IPv4 leads to that address if it is a group, where it is
/// written alone or with a mask of 32 bits; with another mask it leads to none.
pub proof fn law_route_to_an_ipv4_group(row: RouteRow, ip: Ipv4Address, bits: nat)
    ensures
        row.dst@ == ipv4_text(ip) ==> route_group(row) == (if 224 * 0x100_0000 <= ip.bits < 240
            * 0x100_0000 {
            Some(IpAddress::V4(ip))
        } else {
            None
        }),
        row.dst@ == ipv4_text(ip) + seq!['/'] + decimal(bits) ==> route_group(row) == (if 224
            * 0x100_0000 <= ip.bits < 240 * 0x100_0000 && bits == 32 {
            Some(IpAddress::V4(ip))
        } else {
            None
        }),
{
    lemma_no_slash_in_ipv4(ip);
    lemma_split_joined(ipv4_text(ip), decimal(bits));
    law_addresses_are_read(ip, ipv4_text(ip));
    law_bytes_are_read(bits);
    law_which_routes_lead_to_a_group(
        row.dst@,
        ip_value(spec_route_base(row.dst@)),
        IpAddress::V4(ip),
    );
}

/// A route whose address cannot be read leads to no group.
pub proof fn law_unreadable_route_leads_nowhere(row: RouteRow)
    requires
        ip_value(spec_route_base(row.dst@)) is None,
    ensures
        route_group(row) is None,
{
}

/// An entry gives an IPv4 address exactly if its family is `inet` and it has a local one.
pub proof fn law_which_entries_give_an_address(info: AddrInfo, local: String)
    ensures
        inet_local(info) == Some(local) <==> {
            &&& info.family is Some
            &&& info.family->0@ == "inet"@
            &&& info.local == Some(local)
        },
{
}

/// The entries of all interfaces are those of each interface, one behind the other; an
/// interface without a list has none.
pub proof fn law_entries_come_interface_by_interface(rows: Seq<IfaceRow>)
    ensures
        all_infos(rows) == rows.map_values(
            |row: IfaceRow|
                match row.addr_info {
                    Some(infos) => infos@,
                    None => Seq::<AddrInfo>::empty(),
                },
        ).flatten(),
    decreases rows.len(),
{
    let f = |row: IfaceRow|
        match row.addr_info {
            Some(infos) => infos@,
            None => Seq::<AddrInfo>::empty(),
        };
    let lists = rows.map_values(f);
    lists.lemma_flatten_and_flatten_alt_are_equivalent();
    if rows.len() > 0 {
        let rest = rows.drop_last();
        law_entries_come_interface_by_interface(rest);
        rest.map_values(f).lemma_flatten_and_flatten_alt_are_equivalent();
        assert(lists.drop_last() =~= rest.map_values(f));
        assert(row_infos(rows.last()) =~= lists.last());
    }
}

/// The primary address is that of the first entry that gives one, and there is exactly
/// one such address, or no entry gives any.
pub proof fn law_first_entry_gives_the_address(infos: Seq<AddrInfo>, i: int, other: String)
    requires
        0 <= i < infos.len(),
        infos[i].family is Some,
        infos[i].family->0@ == "inet"@,
        infos[i].local is Some,
        forall|j: int|
            0 <= j < i ==> !((#[trigger] infos[j]).family is Some && infos[j].family->0@ == "inet"@
                && infos[j].local is Some),
    ensures
        is_first_inet_local(infos, other) <==> other == infos[i].local->0,
        !has_no_inet_local(infos),
{
    let local = infos[i].local->0;
    assert(inet_local(infos[i]) == Some(local));
    assert forall|j: int| 0 <= j < i implies inet_local(#[trigger] infos[j]) is None by {}
    if is_first_inet_local(infos, other) {
        let k = choose|k: int|
            {
                &&& 0 <= k < infos.len()
                &&& inet_local(#[trigger] infos[k]) == Some(other)
                &&& forall|j: int| 0 <= j < k ==> inet_local(#[trigger] infos[j]) is None
            };
        if k < i {
            assert(inet_local(infos[k]) is None);
        }
        if i < k {
            assert(inet_local(infos[i]) is None);
        }
    }
}

/// Where no entry of family `inet` has a local address, there is no primary address.
pub proof fn law_without_entries_there_is_no_address(infos: Seq<AddrInfo>, local: String)
    requires
        forall|j: int|
            0 <= j < infos.len() ==> !((#[trigger] infos[j]).family is Some && infos[j].family->0@
                == "inet"@ && infos[j].local is Some),
    ensures
        has_no_inet_local(infos),
        !is_first_inet_local(infos, local),
{
    if is_first_inet_local(infos, local) {
        let k = choose|k: int|
            {
                &&& 0 <= k < infos.len()
                &&& inet_local(#[trigger] infos[k]) == Some(local)
                &&& forall|j: int| 0 <= j < k ==> inet_local(#[trigger] infos[j]) is None
            };
        assert(infos[k].local is Some);
    }
}

/// The tool is asked about routes, addresses and links in its own words.
pub proof fn law_words_of_questions()
    ensures
        query_word(IpQuery::Route) =~= seq!['r', 'o', 'u', 't', 'e'],
        query_word(IpQuery::Addr) =~= seq!['a', 'd', 'd', 'r'],
        query_word(IpQuery::Link) =~= seq!['l', 'i', 'n', 'k'],
{
    reveal_strlit("route");
    reveal_strlit("addr");
    reveal_strlit("link");
}

/// The index of an interface is that of the last link in the answer, if there is one and it
/// has one.
pub proof fn law_last_link_gives_the_index(rows: Seq<LinkRow>, row: LinkRow)
    ensures
        last_ifindex(Seq::<LinkRow>::empty()) is None,
        last_ifindex(rows.push(row)) == row.ifindex,
{
}

/// A group is joined on all devices where none is named, whatever was found; else on the
/// address that was found for the device; and if none was, the device is told.
pub proof fn law_where_an_ipv4_group_is_joined(
    config: TritonMulticastConfigV4,
    found: Option<Ipv4Address>,
)
    ensures
        config.bind_ifname is None ==> spec_multicast_device_v4(config, found) == Ok::<
            Ipv4Address,
            Seq<char>,
        >(Ipv4Address { bits: 0 }),
        config.bind_ifname matches Some(name) ==> match found {
            Some(ip) => spec_multicast_device_v4(config, found) == Ok::<Ipv4Address, Seq<char>>(ip),
            None => spec_multicast_device_v4(config, found) == Err::<Ipv4Address, Seq<char>>(
                "No IPv4 address found for device "@ + name@,
            ),
        },
{
}

/// The group that is asked for is the one that is joined, on the interface and the port that
/// are asked for; only a group of IPv6 without an interface is refused.
pub proof fn law_group_is_joined_as_asked_for(
    group: Option<IpAddress>,
    bind_interface: Option<String>,
    listen_port: u16,
)
    ensures
        ({
            let r = spec_multicast_config(group, bind_interface, listen_port);
            &&& r is Err <==> group is Some && group->0 is V6 && bind_interface is None
            &&& r is Ok ==> (r->Ok_0 is None <==> group is None)
            &&& r matches Ok(Some(TritonMulticastConfig::Ipv4(config))) ==> {
                &&& group == Some(IpAddress::V4(config.multicast_ip))
                &&& config.bind_ifname == bind_interface
                &&& config.listen_port == listen_port
            }
            &&& r matches Ok(Some(TritonMulticastConfig::Ipv6(config))) ==> {
                &&& group == Some(IpAddress::V6(config.multicast_ip))
                &&& bind_interface == Some(config.device_ifname)
                &&& config.listen_port == listen_port
            }
        }),
{
}

} // verus!
