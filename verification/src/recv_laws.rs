//! What holds of receiving: of the decisions of a receiver and of where its packets go.

use vstd::prelude::*;

use crate::addr::{
    big_endian_value, lemma_pow_256_16, IpAddress, Ipv4Address, SocketAddress,
};
use crate::fwd_tile::given_back;
use crate::io_error::IoErrorKind;
use crate::mem::{write_bytes, FrameBufMut, FrameDesc};
use crate::packet::{Meta, TritonPacket};
use crate::prom::saturated_sum;
use crate::recv_mmsg::{
    burst_begun, burst_len, burst_written, distribution, dropped_sum, is_received, last_have_room,
    received_meta, routed, spec_backoff, spec_cast_socket_addr, spec_drain_step,
    spec_poll_error_is_fatal, spec_recv_from_step, spec_refill_limit, unrouted, unstaked, Backoff,
    DrainStep, ReceiveStats, ReceivedMsg, RecvFromStep, SockAddrStorage,
};
use crate::recv_tile::{count_after_sends, packets_for};
use crate::text::{decimal, law_decimal_reads_back};

verus! {

proof fn lemma_big_endian_bound(bytes: Seq<u8>)
    ensures
        big_endian_value(bytes) < vstd::arithmetic::power::pow(256, bytes.len()),
    decreases bytes.len(),
{
    if bytes.len() == 0 {
        vstd::arithmetic::power::lemma_pow0(256);
    } else {
        lemma_big_endian_bound(bytes.drop_last());
        vstd::arithmetic::power::lemma_pow1(256);
        vstd::arithmetic::power::lemma_pow_adds(256, (bytes.len() - 1) as nat, 1);
    }
}

/// An address that the kernel wrote is read exactly if it is of family 2 and 16 bytes long,
/// or of family 10 and 28 bytes long. Its port and its address are written with the most
/// significant byte first, and nothing of it is lost.
pub proof fn law_kernel_addresses_are_read(addr: SockAddrStorage, namelen: u32)
    ensures
        ({
            let r = spec_cast_socket_addr(addr, namelen);
            let v4 = addr.ss_family == 2 && namelen == 16;
            let v6 = addr.ss_family == 10 && namelen == 28;
            &&& r is Some <==> v4 || v6
            &&& v4 ==> (r matches Some(SocketAddress::V4(a)) && a.ip.bits == addr.sin_addr[0]
                * 0x100_0000 + addr.sin_addr[1] * 0x1_0000 + addr.sin_addr[2] * 0x100
                + addr.sin_addr[3] && a.port == addr.port[0] * 0x100 + addr.port[1])
            &&& v6 ==> (r matches Some(SocketAddress::V6(a)) && a.ip.bits == big_endian_value(
                addr.sin6_addr@,
            ) && a.port == addr.port[0] * 0x100 + addr.port[1] && a.flowinfo == addr.sin6_flowinfo
                && a.scope_id == addr.sin6_scope_id)
        }),
{
    let p = addr.port@;
    let o = addr.sin_addr@;
    reveal_with_fuel(big_endian_value, 3);
    assert(p.drop_last().drop_last() =~= Seq::<u8>::empty());
    assert(big_endian_value(p) == p[0] * 0x100 + p[1]);
    crate::text_laws::law_octets_of_ipv4(o[0], o[1], o[2], o[3]);
    assert(o =~= seq![o[0], o[1], o[2], o[3]]);
    lemma_big_endian_bound(addr.sin6_addr@);
    lemma_pow_256_16();
}

/// What is known of a received packet is its size and, where the kernel told it, the
/// address and port that it came from; else these are 0.0.0.0 and 0.
pub proof fn law_what_is_known_of_a_received_packet(msg: ReceivedMsg)
    ensures
        ({
            let meta = received_meta(msg);
            &&& msg.data@.len() <= usize::MAX ==> meta.size == msg.data@.len()
            &&& !meta.from_staked_node
            &&& match spec_cast_socket_addr(msg.addr, msg.namelen) {
                Some(SocketAddress::V4(a)) => meta.addr == IpAddress::V4(a.ip) && meta.port
                    == a.port,
                Some(SocketAddress::V6(a)) => meta.addr == IpAddress::V6(a.ip) && meta.port
                    == a.port,
                None => meta.addr == IpAddress::V4(Ipv4Address { bits: 0 }) && meta.port == 0,
            }
        }),
{
}

/// A received packet lies in the frame that it was received into, at its beginning, and
/// has as many bytes as were received.
pub proof fn law_where_a_received_packet_lies(
    packet: TritonPacket,
    buf: FrameBufMut,
    msg: ReceivedMsg,
)
    requires
        is_received(packet, buf, msg),
        msg.data@.len() <= usize::MAX,
    ensures
        packet.buffer.spec_desc() == buf.spec_desc(),
        packet.buffer.start() == buf.spec_desc().ptr,
        packet.buffer.end() - packet.buffer.start() == msg.data@.len(),
        packet.meta.size == msg.data@.len(),
{
}

/// A burst is as large as the batch has room, there are frames, and the kernel takes: 32.
pub proof fn law_size_of_a_burst(available: int, room: int)
    requires
        available >= 0,
        room >= 0,
    ensures
        burst_len(available, room) <= 32,
        burst_len(available, room) <= available,
        burst_len(available, room) <= room,
        burst_len(available, room) == 32 || burst_len(available, room) == available || burst_len(
            available,
            room,
        ) == room,
{
}

/// After a burst every frame begins with the bytes of its message, and every byte that no
/// message was written to is as before.
pub proof fn law_each_message_is_in_its_frame(
    mem: Seq<u8>,
    bufs: Seq<FrameBufMut>,
    msgs: Seq<ReceivedMsg>,
)
    requires
        msgs.len() <= bufs.len(),
        forall|i: int|
            0 <= i < msgs.len() ==> (#[trigger] bufs[i]).spec_desc().ptr + msgs[i].data@.len()
                <= mem.len(),
        forall|i: int, j: int|
            0 <= i < j < msgs.len() ==> (#[trigger] bufs[i]).spec_desc().ptr + msgs[i].data@.len()
                <= (#[trigger] bufs[j]).spec_desc().ptr || bufs[j].spec_desc().ptr
                + msgs[j].data@.len() <= bufs[i].spec_desc().ptr,
    ensures
        burst_written(mem, bufs, msgs).len() == mem.len(),
        forall|i: int, k: int|
            #![trigger msgs[i].data@[k]]
            0 <= i < msgs.len() && 0 <= k < msgs[i].data@.len() ==> burst_written(mem, bufs, msgs)[
            bufs[i].spec_desc().ptr + k] == msgs[i].data@[k],
        forall|a: int|
            0 <= a < mem.len() && (forall|i: int|
                0 <= i < msgs.len() ==> !(#[trigger] bufs[i].spec_desc().ptr <= a
                    < bufs[i].spec_desc().ptr + msgs[i].data@.len())) ==> #[trigger] burst_written(
                mem,
                bufs,
                msgs,
            )[a] == mem[a],
    decreases msgs.len(),
{
    if msgs.len() > 0 {
        let n = msgs.len() - 1;
        let before = msgs.drop_last();
        law_each_message_is_in_its_frame(mem, bufs, before);
        let old = burst_written(mem, bufs, before);
        let new = burst_written(mem, bufs, msgs);
        let at = bufs[n].spec_desc().ptr as int;
        let data = msgs[n].data@;
        assert(new == write_bytes(old, at, data));
        assert forall|i: int, k: int|
            #![trigger msgs[i].data@[k]]
            0 <= i < msgs.len() && 0 <= k < msgs[i].data@.len() implies new[bufs[i].spec_desc().ptr
            + k] == msgs[i].data@[k] by {
            if i < n {
                assert(before[i].data@[k] == msgs[i].data@[k]);
                assert(old[bufs[i].spec_desc().ptr + k] == before[i].data@[k]);
                assert(bufs[i] == bufs[i] && bufs[n] == bufs[n]);
            }
        }
        assert forall|a: int|
            0 <= a < mem.len() && (forall|i: int|
                0 <= i < msgs.len() ==> !(#[trigger] bufs[i].spec_desc().ptr <= a
                    < bufs[i].spec_desc().ptr + msgs[i].data@.len())) implies #[trigger] new[a]
            == mem[a] by {
            assert(!(bufs[n].spec_desc().ptr <= a < bufs[n].spec_desc().ptr + data.len()));
            assert forall|i: int| 0 <= i < before.len() implies !(
            #[trigger] bufs[i].spec_desc().ptr <= a < bufs[i].spec_desc().ptr
                + before[i].data@.len()) by {
                assert(before[i] == msgs[i]);
            }
            assert(old[a] == mem[a]);
        }
    }
}

/// A call that drains a socket goes on exactly as long as packets come, there are frames,
/// the batch has room and fewer than 64 came. A read that would block ends it with what
/// came before; any other error fails it.
pub proof fn law_when_draining_goes_on(
    received: int,
    npkts: usize,
    kind: IoErrorKind,
    frames_left: int,
    batch_len: int,
    batch_capacity: int,
)
    requires
        0 <= received,
        received + npkts <= usize::MAX,
        frames_left >= 0,
    ensures
        ({
            let total = (received + npkts) as usize;
            let goes_on = frames_left > 0 && batch_len < batch_capacity && total < 64;
            let step = spec_recv_from_step(
                received,
                Ok(npkts),
                frames_left,
                batch_len,
                batch_capacity,
            );
            &&& goes_on ==> step == RecvFromStep::Again(total)
            &&& !goes_on ==> step == RecvFromStep::Done(total)
        }),
        ({
            let step = spec_recv_from_step(
                received,
                Err(kind),
                frames_left,
                batch_len,
                batch_capacity,
            );
            &&& kind == IoErrorKind::WouldBlock ==> step == RecvFromStep::Drained(received as usize)
            &&& kind != IoErrorKind::WouldBlock ==> step == RecvFromStep::Fail(kind)
        }),
{
}

/// A receiver asks for so many frames that it has 64, and for none if it has as many.
pub proof fn law_frames_for_a_batch(held: int)
    requires
        held >= 0,
    ensures
        held <= 64 ==> held + spec_refill_limit(held) == 64,
        held > 64 ==> spec_refill_limit(held) == 0,
{
}

/// A receiver with a frame at hand receives; without one it leaves if the proxy shuts
/// down, and else spins for the first 128 times in a row and yields from then on. The
/// times are counted anew once a frame was to be had.
pub proof fn law_waiting_for_frames(count: u32, taken: int, held: int, exit: bool)
    requires
        taken >= 0,
        held >= 0,
    ensures
        ({
            let (after, what) = spec_backoff(count, taken, held, exit);
            let so_far: int = if taken > 0 {
                0
            } else {
                count as int
            };
            &&& what == Backoff::Receive <==> held > 0
            &&& what == Backoff::Recheck <==> held == 0 && exit
            &&& what == Backoff::Spin <==> held == 0 && !exit && so_far < 128
            &&& what == Backoff::Yield <==> held == 0 && !exit && so_far >= 128
            &&& held > 0 || exit ==> after == so_far
            &&& held == 0 && !exit && so_far < u32::MAX ==> after == so_far + 1
            &&& held == 0 && !exit && so_far == u32::MAX ==> after == u32::MAX
        }),
{
}

/// `after` is `n` more than `before`; where no number is so large, it begins anew at 0.
pub open spec fn counts_on(before: usize, n: int, after: usize) -> bool {
    after == before + n || (before + n > usize::MAX && after == before + n - (usize::MAX + 1))
}

/// Of the batches that are not empty each is counted once, with its packets, and once more
/// if it has 64.
pub proof fn law_batches_are_counted(stats: ReceiveStats, len: usize)
    ensures
        ({
            let after = stats.after_batch(len);
            let one: int = if len > 0 {
                1
            } else {
                0
            };
            let full: int = if len == 64 {
                1
            } else {
                0
            };
            &&& counts_on(stats.packets_count, len as int, after.packets_count)
            &&& counts_on(stats.packet_batches_count, one, after.packet_batches_count)
            &&& counts_on(stats.full_packet_batches_count, full, after.full_packet_batches_count)
        }),
{
}

/// A packet that is handed on is the same, but not marked as coming from a staked node.
pub proof fn law_packet_is_handed_on_unmarked(packet: TritonPacket)
    ensures
        unstaked(packet).buffer == packet.buffer,
        unstaked(packet).meta.size == packet.meta.size,
        unstaked(packet).meta.addr == packet.meta.addr,
        unstaked(packet).meta.port == packet.meta.port,
        !unstaked(packet).meta.from_staked_node,
{
}

/// A total never exceeds the largest number, and is exact below it.
pub proof fn law_totals_stop_at_the_largest_number(total: u64, n: u64, drops: nat)
    ensures
        total + n <= u64::MAX ==> saturated_sum(total, n) == total + n,
        total + n > u64::MAX ==> saturated_sum(total, n) == u64::MAX,
        total + drops <= u64::MAX ==> dropped_sum(total, drops) == total + drops,
        total + drops > u64::MAX ==> dropped_sum(total, drops) == u64::MAX,
{
}

/// The packets of a batch, each with where it goes.
pub open spec fn with_destinations(
    packets: Seq<TritonPacket>,
    dests: Seq<Option<usize>>,
) -> Seq<(Option<usize>, TritonPacket)> {
    Seq::new(packets.len(), |i: int| (dests[i], packets[i]))
}

/// Of a batch exactly the packets that have a destination are sent, each to its own, in
/// their order and unmarked; exactly the frames of the others are free again, in their
/// order.
pub proof fn law_packets_with_a_destination_are_sent(
    packets: Seq<TritonPacket>,
    dests: Seq<Option<usize>>,
)
    requires
        dests.len() == packets.len(),
    ensures
        routed(packets, dests) == with_destinations(packets, dests).filter(
            |p: (Option<usize>, TritonPacket)| p.0 is Some,
        ).map_values(
            |p: (Option<usize>, TritonPacket)|
                (
                    p.0->0,
                    TritonPacket {
                        buffer: p.1.buffer,
                        meta: Meta { from_staked_node: false, ..p.1.meta },
                    },
                ),
        ),
        unrouted(packets, dests) == with_destinations(packets, dests).filter(
            |p: (Option<usize>, TritonPacket)| p.0 is None,
        ).map_values(|p: (Option<usize>, TritonPacket)| p.1.buffer.spec_desc()),
    decreases packets.len(),
{
    reveal(Seq::filter);
    let has = |p: (Option<usize>, TritonPacket)| p.0 is Some;
    let none = |p: (Option<usize>, TritonPacket)| p.0 is None;
    let out = |p: (Option<usize>, TritonPacket)|
        (
            p.0->0,
            TritonPacket {
                buffer: p.1.buffer,
                meta: Meta { from_staked_node: false, ..p.1.meta },
            },
        );
    let frame = |p: (Option<usize>, TritonPacket)| p.1.buffer.spec_desc();
    let all = with_destinations(packets, dests);
    if packets.len() == 0 {
        assert(routed(packets, dests) =~= all.filter(has).map_values(out));
        assert(unrouted(packets, dests) =~= all.filter(none).map_values(frame));
    } else {
        let front = packets.drop_last();
        let front_dests = dests.drop_last();
        law_packets_with_a_destination_are_sent(front, front_dests);
        let before = with_destinations(front, front_dests);
        assert(all.drop_last() =~= before);
        assert(routed(packets, dests) =~= all.filter(has).map_values(out));
        assert(unrouted(packets, dests) =~= all.filter(none).map_values(frame));
    }
}

/// The packets that a plan has for a queue, in the order of the plan.
pub open spec fn of_queue(plan: Seq<(usize, TritonPacket)>, queue: int) -> Seq<TritonPacket> {
    plan.filter(|m: (usize, TritonPacket)| m.0 == queue).map_values(
        |m: (usize, TritonPacket)| m.1,
    )
}

/// What goes to a queue is what the plan has for it, in the order of the plan.
pub proof fn law_queue_gets_its_packets(plan: Seq<(usize, TritonPacket)>, dest: int)
    ensures
        packets_for(plan, dest) == of_queue(plan, dest),
    decreases plan.len(),
{
    reveal(Seq::filter);
    if plan.len() > 0 {
        law_queue_gets_its_packets(plan.drop_last(), dest);
    }
    assert(packets_for(plan, dest) =~= of_queue(plan, dest));
}

/// The number of packets that went to a queue grows by as many as the plan has for it.
pub proof fn law_distribution_counts_packets(
    dist: Seq<usize>,
    plan: Seq<(usize, TritonPacket)>,
    dest: int,
)
    requires
        0 <= dest < dist.len(),
        forall|i: int| 0 <= i < plan.len() ==> (#[trigger] plan[i]).0 < dist.len(),
    ensures
        distribution(dist, plan).len() == dist.len(),
        distribution(dist, plan)[dest] as int == (dist[dest] + of_queue(plan, dest).len()) % (
        usize::MAX + 1),
    decreases plan.len(),
{
    reveal(Seq::filter);
    let word = usize::MAX + 1;
    if plan.len() > 0 {
        let front = plan.drop_last();
        law_distribution_counts_packets(dist, front, dest);
        let n = dist[dest] + of_queue(front, dest).len();
        vstd::arithmetic::div_mod::lemma_add_mod_noop(n, 1, word);
        vstd::arithmetic::div_mod::lemma_small_mod(1, word as nat);
        assert(plan[plan.len() - 1].0 < dist.len());
    } else {
        vstd::arithmetic::div_mod::lemma_small_mod(dist[dest] as nat, word as nat);
    }
}

/// The counter of a queue, which is labelled with the number of the queue, grows by as many
/// packets as the plan has for it.
pub proof fn law_sends_are_counted_by_queue(
    count: u64,
    plan: Seq<(usize, TritonPacket)>,
    queue: usize,
)
    ensures
        count_after_sends(count, plan, seq![decimal(queue as nat)]) as int == (count + of_queue(
            plan,
            queue as int,
        ).len()) % (u64::MAX + 1),
    decreases plan.len(),
{
    reveal(Seq::filter);
    let word = u64::MAX + 1;
    if plan.len() > 0 {
        let front = plan.drop_last();
        let other = plan.last().0;
        law_sends_are_counted_by_queue(count, front, queue);
        let n = count + of_queue(front, queue as int).len();
        vstd::arithmetic::div_mod::lemma_add_mod_noop(n, 1, word);
        vstd::arithmetic::div_mod::lemma_small_mod(1, word as nat);
        law_decimal_reads_back(queue as nat);
        law_decimal_reads_back(other as nat);
        assert(seq![decimal(queue as nat)][0] == decimal(queue as nat));
        assert(seq![decimal(other as nat)][0] == decimal(other as nat));
    } else {
        vstd::arithmetic::div_mod::lemma_small_mod(count as nat, word as nat);
    }
}

/// A counter with labels that are no queue's of the plan does not change.
pub proof fn law_other_counters_stay(
    count: u64,
    plan: Seq<(usize, TritonPacket)>,
    labels: Seq<Seq<char>>,
)
    requires
        forall|i: int|
            0 <= i < plan.len() ==> labels != seq![decimal((#[trigger] plan[i]).0 as nat)],
    ensures
        count_after_sends(count, plan, labels) == count,
    decreases plan.len(),
{
    if plan.len() > 0 {
        let front = plan.drop_last();
        assert forall|i: int| 0 <= i < front.len() implies labels != seq![
            decimal((#[trigger] front[i]).0 as nat),
        ] by {
            assert(front[i] == plan[i]);
        }
        law_other_counters_stay(count, front, labels);
        assert(plan[plan.len() - 1] == plan.last());
    }
}

/// What is given back to a region is what belongs to it, from the last frame to the first.
pub proof fn law_region_gets_its_frames_back(frames: Seq<FrameDesc>, idx: int)
    ensures
        given_back(frames, idx) == frames.reverse().filter(|f: FrameDesc| f.shmem_idx == idx),
    decreases frames.len(),
{
    reveal(Seq::filter);
    let own = |f: FrameDesc| f.shmem_idx == idx;
    if frames.len() > 0 {
        law_region_gets_its_frames_back(frames.drop_first(), idx);
        assert(frames.reverse().drop_last() =~= frames.drop_first().reverse());
        assert(frames.reverse().last() == frames[0]);
    }
    assert(given_back(frames, idx) =~= frames.reverse().filter(own));
}

/// A burst takes its frames from the end of those at hand, and each has room for the 1232
/// bytes that a packet can have.
pub proof fn law_frames_of_a_burst_have_room(bufs: Seq<FrameBufMut>, count: int)
    requires
        0 <= count <= bufs.len(),
    ensures
        last_have_room(bufs, count) <==> forall|i: int|
            bufs.len() - count <= i < bufs.len() ==> (#[trigger] bufs[i]).spec_room() >= 1232,
{
}

/// An event is not looked at once the proxy shuts down; the event that only wakes the loop
/// is passed over; any other asks to receive from the socket with its number.
pub proof fn law_what_an_event_asks_for(exit: bool, token: usize)
    ensures
        spec_drain_step(exit, token) == DrainStep::Leave <==> exit,
        spec_drain_step(exit, token) == DrainStep::NextEvent <==> !exit && token == usize::MAX,
        spec_drain_step(exit, token) == DrainStep::Service(token) <==> !exit && token < usize::MAX,
{
}

/// Only a wait that ran out of time lets the receive loop go on.
pub proof fn law_only_a_timeout_is_passed_over(kind: IoErrorKind)
    ensures
        !spec_poll_error_is_fatal(kind) <==> kind == IoErrorKind::TimedOut,
{
}

/// Of a packet of which nothing is known the size and port are 0 and the address is
/// 0.0.0.0, and it is not marked.
pub proof fn law_nothing_is_known_at_first()
    ensures
        Meta::spec_default().size == 0,
        Meta::spec_default().addr == IpAddress::V4(Ipv4Address { bits: 0 }),
        Meta::spec_default().port == 0,
        !Meta::spec_default().from_staked_node,
{
}

/// A burst takes the last frames at hand, the last one first: as many as the batch has room
/// for and there are, but no more than 32, if each of them has room for 1232 bytes. Else it
/// takes none. All others stay where they are.
pub proof fn law_burst_takes_the_last_frames(
    before: Seq<FrameBufMut>,
    after: Seq<FrameBufMut>,
    room: int,
    r: Option<Seq<FrameBufMut>>,
)
    requires
        burst_begun(before, after, room, r),
        room >= 0,
    ensures
        ({
            let n = before.len() as int;
            let count = if n < 32 && n < room {
                n
            } else if room < 32 {
                room
            } else {
                32
            };
            &&& r is Some <==> forall|i: int|
                n - count <= i < n ==> (#[trigger] before[i]).spec_room() >= 1232
            &&& r matches Some(inflight) ==> {
                &&& inflight.len() == count
                &&& forall|k: int| 0 <= k < count ==> #[trigger] inflight[k] == before[n - 1 - k]
                &&& after.len() == n - count
                &&& forall|i: int| 0 <= i < n - count ==> #[trigger] after[i] == before[i]
            }
            &&& r is None ==> after == before
        }),
{
    let n = before.len() as int;
    let count = burst_len(n, room);
    law_frames_of_a_burst_have_room(before, count);
}

} // verus!
