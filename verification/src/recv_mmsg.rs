//! Receiving packets in bursts and handing them to the forwarders.
//!
//! The receive loop itself waits for sockets and calls the kernel. What it
//! decides in between stands here: which frames a burst is received into, what
//! becomes of them afterwards, where each packet goes, and what to do next.

use vstd::prelude::*;

use crate::addr::{
    big_endian_value, Ipv4Address, Ipv6Address, SocketAddress, SocketAddressV4, SocketAddressV6,
};
use crate::io_error::IoErrorKind;
use crate::mem::{write_bytes, FrameBuf, FrameBufMut, FrameDesc, SharedMem};
use crate::packet::{Meta, TritonPacket, PACKET_DATA_SIZE};
use crate::prom::{
    inc_packets_received, inc_routing_drop, saturated_sum, PacketCounters,
};
use crate::routing::{fec_set_route, FECSetRoutingStrategy, PacketRoutingStrategy};

verus! {

/// How many packets make a full batch.
pub const PACKETS_PER_BATCH: usize = 64;

/// How many packets one call of the kernel receives at most.
pub const RECV_BURST_TARGET: usize = 32;

/// The address family of IPv4.
pub const AF_INET: u16 = 2;

/// The address family of IPv6.
pub const AF_INET6: u16 = 10;

/// The size of an IPv4 socket address as the kernel writes it.
pub const SOCKADDR_IN_SIZE: u32 = 16;

/// The size of an IPv6 socket address as the kernel writes it.
pub const SOCKADDR_IN6_SIZE: u32 = 28;

/// A socket address as the kernel writes it. Which of the fields mean anything
/// depends on the family.
#[derive(Debug)]
pub struct SockAddrStorage {
    pub ss_family: u16,
    /// The port in network order.
    pub port: [u8; 2],
    /// The octets of an IPv4 address.
    pub sin_addr: [u8; 4],
    pub sin6_flowinfo: u32,
    /// The octets of an IPv6 address.
    pub sin6_addr: [u8; 16],
    pub sin6_scope_id: u32,
}

/// The address that the kernel wrote, if its family and its length agree.
pub open spec fn spec_cast_socket_addr(addr: SockAddrStorage, namelen: u32) -> Option<
    SocketAddress,
> {
    let port = big_endian_value(addr.port@) as u16;
    if addr.ss_family == AF_INET && namelen == SOCKADDR_IN_SIZE {
        Some(
            SocketAddress::V4(
                SocketAddressV4 {
                    ip: Ipv4Address { bits: big_endian_value(addr.sin_addr@) as u32 },
                    port,
                },
            ),
        )
    } else if addr.ss_family == AF_INET6 && namelen == SOCKADDR_IN6_SIZE {
        Some(
            SocketAddress::V6(
                SocketAddressV6 {
                    ip: Ipv6Address { bits: big_endian_value(addr.sin6_addr@) as u128 },
                    port,
                    flowinfo: addr.sin6_flowinfo,
                    scope_id: addr.sin6_scope_id,
                },
            ),
        )
    } else {
        None
    }
}

/// The address that the kernel wrote, if its family and its length agree.
pub fn cast_socket_addr(addr: &SockAddrStorage, namelen: u32) -> (r: Option<SocketAddress>)
    ensures
        r == spec_cast_socket_addr(*addr, namelen),
{
    let port: u16 = addr.port[0] as u16 * 256 + addr.port[1] as u16;
    proof {
        reveal_with_fuel(big_endian_value, 3);
        assert(addr.port@.drop_last().drop_last() =~= Seq::<u8>::empty());
        assert(port == big_endian_value(addr.port@));
    }
    if addr.ss_family == AF_INET && namelen == SOCKADDR_IN_SIZE {
        let ip = Ipv4Address::new(
            addr.sin_addr[0],
            addr.sin_addr[1],
            addr.sin_addr[2],
            addr.sin_addr[3],
        );
        assert(seq![addr.sin_addr[0], addr.sin_addr[1], addr.sin_addr[2], addr.sin_addr[3]]
            =~= addr.sin_addr@);
        Some(SocketAddress::V4(SocketAddressV4 { ip, port }))
    } else if addr.ss_family == AF_INET6 && namelen == SOCKADDR_IN6_SIZE {
        let ip = Ipv6Address::from_octets(&addr.sin6_addr);
        Some(
            SocketAddress::V6(
                SocketAddressV6 {
                    ip,
                    port,
                    flowinfo: addr.sin6_flowinfo,
                    scope_id: addr.sin6_scope_id,
                },
            ),
        )
    } else {
        None
    }
}

/// A message that the kernel received.
#[derive(Debug)]
pub struct ReceivedMsg {
    pub data: Vec<u8>,
    pub addr: SockAddrStorage,
    pub namelen: u32,
}

/// The writer stands at the beginning of its frame.
pub open spec fn is_fresh(buf: FrameBufMut) -> bool {
    buf.spec_ptr() == buf.spec_desc().ptr
}

/// How many packets a burst can hold.
pub open spec fn burst_len(available: int, room: int) -> int {
    let most = if room < RECV_BURST_TARGET {
        room
    } else {
        RECV_BURST_TARGET as int
    };
    if available < most {
        available
    } else {
        most
    }
}

/// The smallest of three numbers.
fn min3(a: usize, b: usize, c: usize) -> (m: usize)
    ensures
        m <= a,
        m <= b,
        m <= c,
        m == a || m == b || m == c,
{
    let ab: usize = if a < b {
        a
    } else {
        b
    };
    if ab < c {
        ab
    } else {
        c
    }
}

/// A frame has no room for a packet.
#[derive(Debug, Clone, Copy, PartialEq, Eq, Structural)]
pub struct FrameTooSmall;

impl FrameTooSmall {
    /// What is told to a user.
    pub fn message(&self) -> (m: &'static str)
        ensures
            m@ == "fill buffer too small"@,
    {
        "fill buffer too small"
    }
}

/// Each of the last `count` frames has room for a packet.
pub open spec fn last_have_room(bufs: Seq<FrameBufMut>, count: int) -> bool {
    forall|i: int|
        bufs.len() - count <= i < bufs.len() ==> (#[trigger] bufs[i]).spec_room()
            >= PACKET_DATA_SIZE
}

/// How a burst begins for which the batch has room for `room` packets, seen by the free
/// frames before and after.
pub open spec fn burst_begun(
    before: Seq<FrameBufMut>,
    after: Seq<FrameBufMut>,
    room: int,
    r: Option<Seq<FrameBufMut>>,
) -> bool {
    let n = before.len() as int;
    let count = burst_len(n, room);
    match r {
        Some(inflight) => {
            &&& last_have_room(before, count)
            &&& after == before.take(n - count)
            &&& inflight =~= before.skip(n - count).reverse()
        },
        None => {
            &&& !last_have_room(before, count)
            &&& after == before
        },
    }
}

/// Takes the frames for a burst from the end of `fill_buffers`, as many as the
/// batch has room for. If one of them has no room for a packet, none is taken.
pub fn begin_burst(
    fill_buffers: &mut Vec<FrameBufMut>,
    batch_len: usize,
    batch_capacity: usize,
) -> (r: Result<Vec<FrameBufMut>, FrameTooSmall>)
    requires
        batch_len <= batch_capacity,
    ensures
        burst_begun(
            old(fill_buffers)@,
            final(fill_buffers)@,
            batch_capacity - batch_len,
            match r {
                Ok(inflight) => Some(inflight@),
                Err(_) => None,
            },
        ),
        ({
            let n = old(fill_buffers)@.len() as int;
            let count = burst_len(n, batch_capacity - batch_len);
            match r {
                Ok(inflight) => {
                    &&& last_have_room(old(fill_buffers)@, count)
                    &&& final(fill_buffers)@ == old(fill_buffers)@.take(n - count)
                    &&& inflight@ =~= old(fill_buffers)@.skip(n - count).reverse()
                },
                Err(_) => {
                    &&& !last_have_room(old(fill_buffers)@, count)
                    &&& final(fill_buffers)@ == old(fill_buffers)@
                },
            }
        }),
{
    let room: usize = batch_capacity - batch_len;
    let n: usize = fill_buffers.len();
    let count: usize = min3(RECV_BURST_TARGET, room, n);
    let ghost before = fill_buffers@;
    let mut i: usize = 0;
    while i < count
        invariant
            i <= count <= n,
            n == before.len(),
            before == old(fill_buffers)@,
            fill_buffers@ == before,
            count == burst_len(n as int, batch_capacity - batch_len),
            last_have_room(before, i as int),
        decreases count - i,
    {
        if fill_buffers[n - 1 - i].room() < PACKET_DATA_SIZE {
            assert(before[n - 1 - i].spec_room() < PACKET_DATA_SIZE);
            return Err(FrameTooSmall);
        }
        i += 1;
    }
    let mut inflight: Vec<FrameBufMut> = Vec::new();
    i = 0;
    while i < count
        invariant
            i <= count <= n,
            n == before.len(),
            fill_buffers@ =~= before.take(n - i),
            inflight@ =~= before.skip(n - i).reverse(),
        decreases count - i,
    {
        let popped = fill_buffers.pop();
        assert(popped is Some);
        if let Some(buffer) = popped {
            assert(buffer == before[n - i - 1]);
            inflight.push(buffer);
        }
        i += 1;
    }
    Ok(inflight)
}

/// What is known of a packet that was received as `msg`.
pub open spec fn received_meta(msg: ReceivedMsg) -> Meta {
    let meta = Meta { size: msg.data@.len() as usize, ..Meta::spec_default() };
    match spec_cast_socket_addr(msg.addr, msg.namelen) {
        Some(addr) => Meta { addr: addr.spec_ip(), port: addr.spec_port(), ..meta },
        None => meta,
    }
}

/// `packet` is what `msg` becomes when it is received into the frame of `buf`.
pub open spec fn is_received(packet: TritonPacket, buf: FrameBufMut, msg: ReceivedMsg) -> bool {
    &&& packet.frame() == buf.spec_desc()
    &&& packet.buffer.start() == buf.spec_desc().ptr
    &&& packet.buffer.end() == buf.spec_desc().ptr + msg.data@.len()
    &&& packet.meta == received_meta(msg)
}

/// The address lies in one of the frames.
pub open spec fn in_some_frame(bufs: Seq<FrameBufMut>, addr: int) -> bool {
    exists|i: int|
        0 <= i < bufs.len() && (#[trigger] bufs[i]).spec_desc().ptr <= addr
            < bufs[i].spec_desc().ptr + bufs[i].spec_desc().frame_size
}

/// No two of the frames share a byte.
pub open spec fn pairwise_disjoint(bufs: Seq<FrameBufMut>) -> bool {
    forall|i: int, j: int|
        0 <= i < j < bufs.len() ==> (#[trigger] bufs[i]).spec_desc().disjoint(
            &(#[trigger] bufs[j]).spec_desc(),
        )
}

/// Every frame can take a packet and lies within a region of `len` bytes.
pub open spec fn can_receive(bufs: Seq<FrameBufMut>, len: int) -> bool {
    forall|i: int|
        0 <= i < bufs.len() ==> {
            &&& is_fresh(#[trigger] bufs[i])
            &&& bufs[i].spec_desc().fits(len)
            &&& bufs[i].spec_desc().frame_size >= PACKET_DATA_SIZE
        }
}

/// A region that held `mem` after the messages were written one behind the other,
/// each to the beginning of its own frame.
pub open spec fn burst_written(
    mem: Seq<u8>,
    bufs: Seq<FrameBufMut>,
    msgs: Seq<ReceivedMsg>,
) -> Seq<u8>
    decreases msgs.len(),
{
    if msgs.len() == 0 {
        mem
    } else {
        write_bytes(
            burst_written(mem, bufs, msgs.drop_last()),
            bufs[msgs.len() - 1].spec_desc().ptr as int,
            msgs.last().data@,
        )
    }
}

/// What becomes of the frames of `inflight` when a burst ends: those that a message was
/// received into become packets, the others are free.
pub open spec fn packets_taken(
    inflight: Seq<FrameBufMut>,
    outcome: Result<Vec<ReceivedMsg>, IoErrorKind>,
    free_before: Seq<FrameBufMut>,
    free_after: Seq<FrameBufMut>,
    packets_before: Seq<TritonPacket>,
    packets_after: Seq<TritonPacket>,
) -> bool {
    match outcome {
        Err(_) => {
            &&& packets_after == packets_before
            &&& free_after == free_before + inflight
        },
        Ok(msgs) => {
            let first = packets_before.len() as int;
            &&& free_after == free_before + inflight.skip(msgs@.len() as int)
            &&& packets_after.len() == first + msgs@.len()
            &&& packets_before.is_prefix_of(packets_after)
            &&& forall|i: int|
                0 <= i < msgs@.len() ==> is_received(
                    #[trigger] packets_after[first + i],
                    inflight[i],
                    msgs@[i],
                )
        },
    }
}

/// How a burst into the frames of `inflight` ends, seen by the region's bytes, the
/// free frames and the packets before and after.
pub open spec fn burst_ended(
    mem_before: Seq<u8>,
    mem_after: Seq<u8>,
    inflight: Seq<FrameBufMut>,
    outcome: Result<Vec<ReceivedMsg>, IoErrorKind>,
    free_before: Seq<FrameBufMut>,
    free_after: Seq<FrameBufMut>,
    packets_before: Seq<TritonPacket>,
    packets_after: Seq<TritonPacket>,
    r: Result<usize, IoErrorKind>,
) -> bool {
    &&& mem_after.len() == mem_before.len()
    &&& match outcome {
        Err(kind) => {
            &&& r == Err::<usize, IoErrorKind>(kind)
            &&& mem_after == mem_before
            &&& packets_after == packets_before
            &&& free_after == free_before + inflight
        },
        Ok(msgs) => {
            let n = msgs@.len() as int;
            let first = packets_before.len() as int;
            &&& r == Ok::<usize, IoErrorKind>(msgs@.len() as usize)
            &&& free_after == free_before + inflight.skip(n)
            &&& mem_after == burst_written(mem_before, inflight, msgs@)
            &&& packets_after.len() == first + n
            &&& packets_after.take(first) =~= packets_before
            &&& forall|i: int|
                0 <= i < n ==> is_received(
                    #[trigger] packets_after[first + i],
                    inflight[i],
                    msgs@[i],
                )
            &&& forall|a: int|
                0 <= a < mem_before.len() && !in_some_frame(inflight.take(n), a) ==>
                    #[trigger] mem_after[a] == mem_before[a]
            &&& pairwise_disjoint(inflight) ==> forall|i: int|
                0 <= i < n ==> (#[trigger] packets_after[first + i]).payload(mem_after)
                    =~= msgs@[i].data@
        },
    }
}

/// Ends a burst. Each message goes into the next frame of the burst and becomes
/// a packet; the frames that were not needed, or all of them if the kernel
/// reported an error, go back to `fill_buffers`. Gives the number of packets.
pub fn complete_burst(
    mem: &mut SharedMem,
    inflight: Vec<FrameBufMut>,
    outcome: Result<Vec<ReceivedMsg>, IoErrorKind>,
    fill_buffers: &mut Vec<FrameBufMut>,
    packets: &mut Vec<TritonPacket>,
) -> (r: Result<usize, IoErrorKind>)
    requires
        can_receive(inflight@, old(mem)@.len() as int),
        outcome matches Ok(msgs) ==> {
            &&& msgs@.len() <= inflight@.len()
            &&& forall|i: int|
                0 <= i < msgs@.len() ==> (#[trigger] msgs@[i]).data@.len() <= PACKET_DATA_SIZE
        },
    ensures
        final(mem).spec_capacity() == old(mem).spec_capacity(),
        final(mem).spec_huge() == old(mem).spec_huge(),
        burst_ended(
            old(mem)@,
            final(mem)@,
            inflight@,
            outcome,
            old(fill_buffers)@,
            final(fill_buffers)@,
            old(packets)@,
            final(packets)@,
            r,
        ),
{
    let mut rest: Vec<FrameBufMut> = inflight;
    let msgs: Vec<ReceivedMsg> = match outcome {
        Ok(msgs) => msgs,
        Err(kind) => {
            fill_buffers.append(&mut rest);
            return Err(kind);
        },
    };
    let ghost bufs = rest@;
    let ghost before = mem@;
    let ghost first = packets@.len() as int;
    let ghost old_packets = packets@;
    let n: usize = msgs.len();
    let mut i: usize = 0;
    while i < n
        invariant
            n == msgs@.len(),
            i <= n <= bufs.len(),
            rest@ =~= bufs.skip(i as int),
            can_receive(bufs, before.len() as int),
            mem@.len() == before.len(),
            mem@ == burst_written(before, bufs, msgs@.take(i as int)),
            mem.spec_capacity() == old(mem).spec_capacity(),
            mem.spec_huge() == old(mem).spec_huge(),
            forall|k: int|
                0 <= k < msgs@.len() ==> (#[trigger] msgs@[k]).data@.len() <= PACKET_DATA_SIZE,
            first == old_packets.len(),
            packets@.len() == first + i,
            packets@.take(first) =~= old_packets,
            forall|k: int|
                0 <= k < i ==> is_received(#[trigger] packets@[first + k], bufs[k], msgs@[k]),
            forall|a: int|
                0 <= a < before.len() && !in_some_frame(bufs.take(i as int), a) ==>
                    #[trigger] mem@[a] == before[a],
            pairwise_disjoint(bufs) ==> forall|k: int|
                0 <= k < i ==> (#[trigger] packets@[first + k]).payload(mem@) =~= msgs@[k].data@,
        decreases n - i,
    {
        let ghost mem_before = mem@;
        let ghost packets_before = packets@;
        let mut filled_bufmut: FrameBufMut = rest.remove(0);
        let ghost desc = filled_bufmut.spec_desc();
        let ghost data = msgs@[i as int].data@;
        assert(filled_bufmut == bufs[i as int]);
        let msg: &ReceivedMsg = &msgs[i];
        let region_len: usize = mem.len();
        mem.write(filled_bufmut.as_mut_ptr(), msg.data.as_slice());
        filled_bufmut.seek(msg.data.len());
        let filled_buf: FrameBuf = filled_bufmut.freeze();
        let mut pkt = TritonPacket::new(filled_buf);
        pkt.meta.size = msg.data.len();
        if let Some(addr) = cast_socket_addr(&msg.addr, msg.namelen) {
            pkt.meta.set_socket_addr(&addr);
        }
        packets.push(pkt);
        i += 1;
        proof {
            assert(msgs@.take(i as int).drop_last() =~= msgs@.take(i - 1));
            assert(is_received(packets@[first + i - 1], bufs[i - 1], msgs@[i - 1]));
            assert forall|k: int| 0 <= k < i implies is_received(
                #[trigger] packets@[first + k],
                bufs[k],
                msgs@[k],
            ) by {
                if k < i - 1 {
                    assert(packets@[first + k] == packets_before[first + k]);
                }
            }
            assert forall|a: int|
                0 <= a < before.len() && !in_some_frame(bufs.take(i as int), a) implies #[trigger] mem@[a]
                == before[a] by {
                assert(!in_some_frame(bufs.take(i - 1), a)) by {
                    if in_some_frame(bufs.take(i - 1), a) {
                        let k = choose|k: int|
                            0 <= k < bufs.take(i - 1).len() && (#[trigger] bufs.take(i
                                - 1)[k]).spec_desc().ptr <= a < bufs.take(i - 1)[k].spec_desc().ptr
                                + bufs.take(i - 1)[k].spec_desc().frame_size;
                        assert(bufs.take(i as int)[k] == bufs.take(i - 1)[k]);
                    }
                }
                assert(bufs.take(i as int)[i - 1] == bufs[i - 1]);
                assert(!(desc.ptr <= a < desc.ptr + desc.frame_size));
                assert(mem@[a] == mem_before[a]);
            }
            if pairwise_disjoint(bufs) {
                assert forall|k: int| 0 <= k < i implies (#[trigger] packets@[first + k]).payload(
                    mem@,
                ) =~= msgs@[k].data@ by {
                    if k < i - 1 {
                        let p = packets_before[first + k];
                        assert(packets@[first + k] == p);
                        assert(is_received(p, bufs[k], msgs@[k]));
                        assert(p.payload(mem_before) =~= msgs@[k].data@);
                        assert(bufs[k].spec_desc().disjoint(&bufs[i - 1].spec_desc()));
                        assert(p.buffer.bytes(mem@) =~= p.buffer.bytes(mem_before));
                    }
                }
            }
        }
    }
    assert(bufs.take(n as int) =~= bufs.take(msgs@.len() as int));
    assert(msgs@.take(n as int) =~= msgs@);
    fill_buffers.append(&mut rest);
    Ok(n)
}

/// What a call that drains a socket does after one burst.
#[derive(Debug, Clone, Copy, PartialEq, Eq, Structural)]
pub enum RecvFromStep {
    /// Receive another burst; this many packets came so far.
    Again(usize),
    /// Stop with this many packets; the socket may have more.
    Done(usize),
    /// Stop with this many packets; the socket has no more.
    Drained(usize),
    /// Stop with an error.
    Fail(IoErrorKind),
}

/// What a call that drains a socket does after one burst: it goes on until the
/// socket would block, there is no frame left, or the batch is full. Packets
/// that came before the socket would block are kept.
pub open spec fn spec_recv_from_step(
    received: int,
    outcome: Result<usize, IoErrorKind>,
    frames_left: int,
    batch_len: int,
    batch_capacity: int,
) -> RecvFromStep {
    match outcome {
        Err(kind) => if kind == IoErrorKind::WouldBlock {
            RecvFromStep::Drained(received as usize)
        } else {
            RecvFromStep::Fail(kind)
        },
        Ok(npkts) => {
            let total = received + npkts;
            if frames_left == 0 || batch_len >= batch_capacity || total >= PACKETS_PER_BATCH {
                RecvFromStep::Done(total as usize)
            } else {
                RecvFromStep::Again(total as usize)
            }
        },
    }
}

/// What a call that drains a socket does after one burst, of which `outcome`
/// tells how it went, with `received` packets from earlier bursts.
pub fn recv_from_step(
    received: usize,
    outcome: Result<usize, IoErrorKind>,
    frames_left: usize,
    batch_len: usize,
    batch_capacity: usize,
) -> (step: RecvFromStep)
    requires
        outcome matches Ok(npkts) ==> received + npkts <= usize::MAX,
    ensures
        step == spec_recv_from_step(
            received as int,
            outcome,
            frames_left as int,
            batch_len as int,
            batch_capacity as int,
        ),
{
    match outcome {
        Err(kind) => {
            if kind == IoErrorKind::WouldBlock {
                RecvFromStep::Drained(received)
            } else {
                RecvFromStep::Fail(kind)
            }
        },
        Ok(npkts) => {
            let total: usize = received + npkts;
            if frames_left == 0 || batch_len >= batch_capacity || total >= PACKETS_PER_BATCH {
                RecvFromStep::Done(total)
            } else {
                RecvFromStep::Again(total)
            }
        },
    }
}

/// How many frames a receiver that holds `held` asks for: what a batch lacks.
pub open spec fn spec_refill_limit(held: int) -> int {
    if held < PACKETS_PER_BATCH {
        PACKETS_PER_BATCH - held
    } else {
        0
    }
}

/// How many frames a receiver that holds `held` asks for: what a batch lacks.
pub fn refill_limit(held: usize) -> (n: usize)
    ensures
        n == spec_refill_limit(held as int),
{
    if held < PACKETS_PER_BATCH {
        PACKETS_PER_BATCH - held
    } else {
        0
    }
}

/// Adds a writer at the beginning of each of `frames`.
pub fn add_frames(bufs: &mut Vec<FrameBufMut>, frames: &Vec<FrameDesc>)
    ensures
        extended_by_frames(old(bufs)@, final(bufs)@, frames@),
{
    let ghost before = bufs@;
    let n: usize = frames.len();
    let mut i: usize = 0;
    while i < n
        invariant
            n == frames@.len(),
            i <= n,
            extended_by_frames(before, bufs@, frames@.take(i as int)),
        decreases n - i,
    {
        let ghost held = bufs@;
        bufs.push(frames[i].as_mut_buf());
        i += 1;
        proof {
            assert(bufs@.take(before.len() as int) =~= before);
            assert forall|k: int| 0 <= k < i implies {
                &&& is_fresh(#[trigger] bufs@[before.len() + k])
                &&& bufs@[before.len() + k].spec_desc() == frames@.take(i as int)[k]
            } by {
                if k < i - 1 {
                    assert(bufs@[before.len() + k] == held[before.len() + k]);
                    assert(frames@.take(i - 1)[k] == frames@[k]);
                }
            }
        }
    }
    assert(frames@.take(n as int) =~= frames@);
}

/// What a receiver does after it asked for free frames.
#[derive(Debug, Clone, Copy, PartialEq, Eq, Structural)]
pub enum Backoff {
    /// Receive: there is a frame at hand.
    Receive,
    /// Look at the event again at once: the proxy is shutting down.
    Recheck,
    /// Spin for a moment, then look at the event again.
    Spin,
    /// Let other threads run, then look at the event again.
    Yield,
}

/// How many times in a row a receiver without frames spins before it yields.
pub const SPIN_BACKOFF_LIMIT: u32 = 128;

/// The number of times in a row that no frame was to be had, and what to do
/// about it, after a refill that took `taken` frames and left `held` at hand.
pub open spec fn spec_backoff(count: u32, taken: int, held: int, exit: bool) -> (u32, Backoff) {
    let count = if taken > 0 {
        0
    } else {
        count
    };
    if held > 0 {
        (count, Backoff::Receive)
    } else if exit {
        (count, Backoff::Recheck)
    } else {
        let count = if count == u32::MAX {
            count
        } else {
            (count + 1) as u32
        };
        (
            count,
            if count <= SPIN_BACKOFF_LIMIT {
                Backoff::Spin
            } else {
                Backoff::Yield
            },
        )
    }
}

/// What to do after a refill that took `taken` frames and left `held` at hand.
pub fn backoff_after_refill(count: &mut u32, taken: usize, held: usize, exit: bool) -> (b: Backoff)
    ensures
        (*final(count), b) == spec_backoff(*old(count), taken as int, held as int, exit),
{
    if taken > 0 {
        *count = 0;
    }
    if held > 0 {
        return Backoff::Receive;
    }
    if exit {
        return Backoff::Recheck;
    }
    *count = count.saturating_add(1);
    if *count <= SPIN_BACKOFF_LIMIT {
        Backoff::Spin
    } else {
        Backoff::Yield
    }
}

/// What a receiver has received. The numbers wrap around.
#[derive(Debug, Clone, Copy, PartialEq, Eq, Structural)]
pub struct ReceiveStats {
    pub packets_count: usize,
    pub packet_batches_count: usize,
    pub full_packet_batches_count: usize,
}

impl ReceiveStats {
    /// Nothing was received yet.
    pub fn new() -> (r: Self)
        ensures
            r == (ReceiveStats {
                packets_count: 0,
                packet_batches_count: 0,
                full_packet_batches_count: 0,
            }),
    {
        ReceiveStats { packets_count: 0, packet_batches_count: 0, full_packet_batches_count: 0 }
    }

    /// After a batch of `len` packets. An empty batch does not count.
    pub open spec fn after_batch(self, len: usize) -> Self {
        if len == 0 {
            self
        } else {
            ReceiveStats {
                packets_count: self.packets_count.wrapping_add(len),
                packet_batches_count: self.packet_batches_count.wrapping_add(1),
                full_packet_batches_count: if len == PACKETS_PER_BATCH {
                    self.full_packet_batches_count.wrapping_add(1)
                } else {
                    self.full_packet_batches_count
                },
            }
        }
    }

    /// Counts a batch of `len` packets, here and in the totals.
    pub fn record_batch(&mut self, counters: &mut PacketCounters, len: usize)
        ensures
            *final(self) == old(self).after_batch(len),
            *final(counters) == (PacketCounters {
                packets_received: saturated_sum(old(counters).packets_received, len as u64),
                ..*old(counters)
            }),
    {
        if len > 0 {
            inc_packets_received(counters, len as u64);
            self.packets_count = self.packets_count.wrapping_add(len);
            self.packet_batches_count = self.packet_batches_count.wrapping_add(1);
            if len == PACKETS_PER_BATCH {
                self.full_packet_batches_count = self.full_packet_batches_count.wrapping_add(1);
            }
        }
    }
}

/// The packet as it is handed on: not marked as coming from a staked node.
pub open spec fn unstaked(packet: TritonPacket) -> TritonPacket {
    TritonPacket {
        buffer: packet.buffer,
        meta: Meta { from_staked_node: false, ..packet.meta },
    }
}

/// `router` can choose `dests` for the packets of a batch, as they are handed on.
pub open spec fn routes<R: PacketRoutingStrategy>(
    packets: Seq<TritonPacket>,
    mem: Seq<u8>,
    router: &R,
    num_dest: usize,
    dests: Seq<Option<usize>>,
) -> bool {
    &&& dests.len() == packets.len()
    &&& forall|i: int|
        0 <= i < packets.len() ==> {
            &&& router.may_route(
                unstaked(packets[i]),
                packets[i].buffer.bytes(mem),
                num_dest,
                #[trigger] dests[i],
            )
            &&& dests[i] matches Some(dest) ==> dest < num_dest
        }
}

/// The packets of a batch that have a destination, each with it, in their order.
pub open spec fn routed(packets: Seq<TritonPacket>, dests: Seq<Option<usize>>) -> Seq<
    (usize, TritonPacket),
>
    decreases packets.len(),
{
    if packets.len() == 0 {
        seq![]
    } else {
        let before = routed(packets.drop_last(), dests.drop_last());
        match dests.last() {
            Some(dest) => before.push((dest, unstaked(packets.last()))),
            None => before,
        }
    }
}

/// The frames of the packets of a batch that have no destination, in their order.
pub open spec fn unrouted(packets: Seq<TritonPacket>, dests: Seq<Option<usize>>) -> Seq<FrameDesc>
    decreases packets.len(),
{
    if packets.len() == 0 {
        seq![]
    } else {
        let before = unrouted(packets.drop_last(), dests.drop_last());
        match dests.last() {
            Some(_) => before,
            None => before.push(packets.last().frame()),
        }
    }
}

/// What becomes of a batch whose packets go to `dests`: those that have a
/// destination are the plan, and the frames of the others are free.
pub open spec fn batch_routed(
    batch: Seq<TritonPacket>,
    dests: Seq<Option<usize>>,
    plan: Seq<(usize, TritonPacket)>,
    dist_before: Seq<usize>,
    dist_after: Seq<usize>,
    bufs_before: Seq<FrameBufMut>,
    bufs_after: Seq<FrameBufMut>,
    drops_before: u64,
    drops_after: u64,
) -> bool {
    let free = unrouted(batch, dests);
    &&& plan == routed(batch, dests)
    &&& dist_after == distribution(dist_before, plan)
    &&& extended_by_frames(bufs_before, bufs_after, free)
    &&& drops_after == dropped_sum(drops_before, free.len())
}

/// A shred always goes where [`fec_set_route`] says: for this strategy no choice is
/// left open.
pub proof fn law_fec_set_routes_are_fixed(
    packets: Seq<TritonPacket>,
    mem: Seq<u8>,
    router: &FECSetRoutingStrategy,
    num_dest: usize,
    dests: Seq<Option<usize>>,
)
    ensures
        routes(packets, mem, router, num_dest, dests) <==> dests =~= packets.map_values(
            |p: TritonPacket| fec_set_route(p.buffer.bytes(mem), num_dest),
        ),
{
    let fixed = packets.map_values(|p: TritonPacket| fec_set_route(p.buffer.bytes(mem), num_dest));
    if routes(packets, mem, router, num_dest, dests) {
        assert forall|i: int| 0 <= i < dests.len() implies dests[i] == fixed[i] by {
            assert(router.may_route(
                unstaked(packets[i]),
                packets[i].buffer.bytes(mem),
                num_dest,
                dests[i],
            ));
        }
    }
}

/// How many packets went to each destination, after `routed` more. The numbers
/// wrap around.
pub open spec fn distribution(dist: Seq<usize>, routed: Seq<(usize, TritonPacket)>) -> Seq<usize>
    decreases routed.len(),
{
    if routed.len() == 0 {
        dist
    } else {
        let before = distribution(dist, routed.drop_last());
        let dest = routed.last().0 as int;
        before.update(dest, before[dest].wrapping_add(1))
    }
}

/// `bufs` ends in fresh writers into `frames`.
pub open spec fn extended_by_frames(
    before: Seq<FrameBufMut>,
    after: Seq<FrameBufMut>,
    frames: Seq<FrameDesc>,
) -> bool {
    &&& after.len() == before.len() + frames.len()
    &&& after.take(before.len() as int) =~= before
    &&& forall|i: int|
        0 <= i < frames.len() ==> {
            &&& is_fresh(#[trigger] after[before.len() + i])
            &&& after[before.len() + i].spec_desc() == frames[i]
        }
}

/// Empties a batch: each packet gets its destination, and the frame of a packet
/// that has none can be received into again.
///
/// `router` chooses the destinations, one packet after the other.
pub fn route_batch<R: PacketRoutingStrategy>(
    packets: &mut Vec<TritonPacket>,
    mem: &SharedMem,
    router: &R,
    dest_dist: &mut Vec<usize>,
    frame_bufs: &mut Vec<FrameBufMut>,
    counters: &mut PacketCounters,
) -> (plan: Vec<(usize, TritonPacket)>)
    requires
        forall|i: int|
            0 <= i < old(packets)@.len() ==> (#[trigger] old(packets)@[i]).buffer.end()
                <= mem@.len(),
    ensures
        final(packets)@.len() == 0,
        exists|dests: Seq<Option<usize>>|
            #[trigger] routes(
                old(packets)@,
                mem@,
                router,
                old(dest_dist)@.len() as usize,
                dests,
            ) && batch_routed(
                old(packets)@,
                dests,
                plan@,
                old(dest_dist)@,
                final(dest_dist)@,
                old(frame_bufs)@,
                final(frame_bufs)@,
                old(counters).routing_drop,
                final(counters).routing_drop,
            ),
        final(dest_dist)@.len() == old(dest_dist)@.len(),
        forall|i: int|
            0 <= i < plan@.len() ==> (#[trigger] plan@[i]).0 < old(dest_dist)@.len(),
        *final(counters) == (PacketCounters {
            routing_drop: final(counters).routing_drop,
            ..*old(counters)
        }),
{
    let num_dest: usize = dest_dist.len();
    let ghost batch = packets@;
    let ghost bufs_before = frame_bufs@;
    let ghost mut done: nat = 0;
    let ghost mut dests: Seq<Option<usize>> = seq![];
    let mut plan: Vec<(usize, TritonPacket)> = Vec::new();
    assert(batch.take(0) =~= Seq::<TritonPacket>::empty());
    assert(batch.skip(0) =~= batch);
    while packets.len() > 0
        invariant
            num_dest == old(dest_dist)@.len(),
            batch == old(packets)@,
            bufs_before == old(frame_bufs)@,
            done <= batch.len(),
            packets@ =~= batch.skip(done as int),
            forall|i: int|
                0 <= i < batch.len() ==> (#[trigger] batch[i]).buffer.end() <= mem@.len(),
            routes(batch.take(done as int), mem@, router, num_dest, dests),
            batch_routed(
                batch.take(done as int),
                dests,
                plan@,
                old(dest_dist)@,
                dest_dist@,
                bufs_before,
                frame_bufs@,
                old(counters).routing_drop,
                counters.routing_drop,
            ),
            dest_dist@.len() == num_dest,
            forall|i: int| 0 <= i < plan@.len() ==> (#[trigger] plan@[i]).0 < num_dest,
            *counters == (PacketCounters {
                routing_drop: counters.routing_drop,
                ..*old(counters)
            }),
        decreases packets.len(),
    {
        let ghost chosen = dests;
        let ghost frames = unrouted(batch.take(done as int), chosen);
        let ghost held = frame_bufs@;
        let ghost planned = plan@;
        let mut packet: TritonPacket = packets.remove(0);
        assert(packet == batch[done as int]);
        packet.meta.set_from_staked_node(false);
        let dest: Option<usize> = router.route_packet(&packet, mem, num_dest);
        proof {
            let before = batch.take(done as int);
            done = done + 1;
            dests = chosen.push(dest);
            let now = batch.take(done as int);
            assert(now.drop_last() =~= before);
            assert(dests.drop_last() =~= chosen);
            assert forall|i: int| 0 <= i < now.len() implies {
                &&& router.may_route(
                    unstaked(now[i]),
                    now[i].buffer.bytes(mem@),
                    num_dest,
                    #[trigger] dests[i],
                )
                &&& dests[i] matches Some(d) ==> d < num_dest
            } by {
                if i < before.len() {
                    assert(now[i] == before[i]);
                    assert(dests[i] == chosen[i]);
                }
            }
        }
        match dest {
            Some(dest) => {
                dest_dist.set(dest, dest_dist[dest].wrapping_add(1));
                plan.push((dest, packet));
                assert(plan@.drop_last() =~= planned);
            },
            None => {
                let desc: FrameDesc = packet.buffer.into_inner();
                frame_bufs.push(desc.as_mut_buf());
                inc_routing_drop(counters);
                proof {
                    let now = frames.push(batch[done - 1].frame());
                    assert(unrouted(batch.take(done as int), dests) == now);
                    assert(frame_bufs@.take(bufs_before.len() as int) =~= bufs_before);
                    assert forall|i: int| 0 <= i < now.len() implies {
                        &&& is_fresh(#[trigger] frame_bufs@[bufs_before.len() + i])
                        &&& frame_bufs@[bufs_before.len() + i].spec_desc() == now[i]
                    } by {
                        if i < frames.len() {
                            assert(frame_bufs@[bufs_before.len() + i] == held[bufs_before.len()
                                + i]);
                        }
                    }
                }
            },
        }
    }
    assert(batch.take(done as int) =~= batch);
    assert(routes(batch, mem@, router, old(dest_dist)@.len() as usize, dests));
    plan
}

/// A total after `n` more drops; it never exceeds the largest number.
pub open spec fn dropped_sum(total: u64, n: nat) -> u64 {
    if total + n > u64::MAX {
        u64::MAX
    } else {
        (total + n) as u64
    }
}

/// The token of the event that only wakes the receive loop.
pub const WAKE_TOKEN: usize = usize::MAX;

/// What the receive loop does with an event.
#[derive(Debug, Clone, Copy, PartialEq, Eq, Structural)]
pub enum DrainStep {
    /// Stop: the proxy is shutting down.
    Leave,
    /// Go on with the next event, or wait for more.
    NextEvent,
    /// Receive from the socket with this index.
    Service(usize),
}

/// What the receive loop does with an event that carries `token`.
pub open spec fn spec_drain_step(exit: bool, token: usize) -> DrainStep {
    if exit {
        DrainStep::Leave
    } else if token == WAKE_TOKEN {
        DrainStep::NextEvent
    } else {
        DrainStep::Service(token)
    }
}

/// What the receive loop does with an event that carries `token`.
pub fn drain_step(exit: bool, token: usize) -> (step: DrainStep)
    ensures
        step == spec_drain_step(exit, token),
        step == DrainStep::Leave <==> exit,
        step == DrainStep::NextEvent <==> !exit && token == WAKE_TOKEN,
        step == DrainStep::Service(token) <==> !exit && token != WAKE_TOKEN,
{
    if exit {
        DrainStep::Leave
    } else if token == WAKE_TOKEN {
        DrainStep::NextEvent
    } else {
        DrainStep::Service(token)
    }
}

/// What the receive loop does after it received from a socket.
#[derive(Debug, Clone, Copy, PartialEq, Eq, Structural)]
pub enum AfterReceive {
    /// Look at the same event again: the socket may have more.
    SameEvent,
    /// The socket is drained: go on with the next event, or wait for more.
    NextEvent,
    /// Stop with this error.
    Fail(IoErrorKind),
}

/// What the receive loop does after it received from a socket, of which `step`
/// tells how it ended. A socket that would block is left for the next event;
/// any other may have more.
pub open spec fn spec_after_receive(step: RecvFromStep) -> AfterReceive {
    match step {
        RecvFromStep::Again(_) => AfterReceive::SameEvent,
        RecvFromStep::Done(_) => AfterReceive::SameEvent,
        RecvFromStep::Drained(_) => AfterReceive::NextEvent,
        RecvFromStep::Fail(kind) => AfterReceive::Fail(kind),
    }
}

/// What the receive loop does after it received from a socket, of which `step`
/// tells how it ended.
pub fn after_receive(step: RecvFromStep) -> (next: AfterReceive)
    ensures
        next == spec_after_receive(step),
{
    match step {
        RecvFromStep::Again(_) => AfterReceive::SameEvent,
        RecvFromStep::Done(_) => AfterReceive::SameEvent,
        RecvFromStep::Drained(_) => AfterReceive::NextEvent,
        RecvFromStep::Fail(kind) => AfterReceive::Fail(kind),
    }
}

/// A socket is left exactly when a read of it would block: after such a read
/// the receive loop goes on with the next event, whatever came before it; after
/// one that gave packets it looks at the same socket again; and any other error
/// ends it.
pub proof fn law_socket_is_left_when_drained(
    received: int,
    outcome: Result<usize, IoErrorKind>,
    frames_left: int,
    batch_len: int,
    batch_capacity: int,
)
    ensures
        ({
            let step = spec_recv_from_step(
                received,
                outcome,
                frames_left,
                batch_len,
                batch_capacity,
            );
            &&& spec_after_receive(step) == AfterReceive::NextEvent <==> outcome == Err::<
                usize,
                IoErrorKind,
            >(IoErrorKind::WouldBlock)
            &&& spec_after_receive(step) == AfterReceive::SameEvent <==> outcome is Ok
            &&& outcome is Err && outcome->Err_0 != IoErrorKind::WouldBlock ==> spec_after_receive(
                step,
            ) == AfterReceive::Fail(outcome->Err_0)
            &&& outcome == Err::<usize, IoErrorKind>(IoErrorKind::WouldBlock) ==> step
                == RecvFromStep::Drained(received as usize)
        }),
{
}

/// Whether an error in waiting for events ends the receive loop.
pub open spec fn spec_poll_error_is_fatal(kind: IoErrorKind) -> bool {
    kind != IoErrorKind::TimedOut
}

/// Whether an error in waiting for events ends the receive loop.
pub fn poll_error_is_fatal(kind: IoErrorKind) -> (fatal: bool)
    ensures
        fatal == (kind != IoErrorKind::TimedOut),
        fatal == spec_poll_error_is_fatal(kind),
{
    kind != IoErrorKind::TimedOut
}

} // verus!
