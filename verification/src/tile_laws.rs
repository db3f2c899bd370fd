//! What the contracts of the tiles come to, in terms of what is queued, sent and freed.

use vstd::prelude::*;

use crate::fwd_laws::law_only_duplicates_are_dropped;
use crate::fwd_tile::{
    accepted, all_given_back, drained_one, frames_returned, looked_and_accepted, looked_at_all,
    ForwardStats, FwdTile,
};
use crate::io_error::IoErrorKind;
use crate::mem::{FrameBufMut, FrameDesc};
use crate::packet::{Meta, TritonPacket};
use crate::pool::frames_written;
use crate::prom::{LabelCounts, PacketCounters};
use crate::recv_laws::{
    law_distribution_counts_packets, law_each_message_is_in_its_frame,
    law_packets_with_a_destination_are_sent, law_queue_gets_its_packets,
    law_region_gets_its_frames_back, law_sends_are_counted_by_queue, of_queue, with_destinations,
};
use crate::recv_mmsg::{
    batch_routed, burst_ended, extended_by_frames, is_received, packets_taken, routed, unrouted,
    Backoff, ReceivedMsg,
};
use crate::recv_tile::{handed_on, handed_on_to, plan_done, refilled, RecvTile};
use crate::region::Region;
use crate::region_log::Snapshot;
use crate::ring_handle::{all_refused, all_sent, is_fresh_pair, Rx, Tx};
use crate::routing::PacketRoutingStrategy;
use crate::text::decimal;

verus! {

/// A forwarder that accepts a packet queues it behind the others exactly if the filter did
/// not have its payload; else it gives the frame back and counts a duplicate. From then on
/// the filter has the payload, and it forgets nothing.
pub proof fn law_packet_with_a_new_payload_is_queued(
    before: FwdTile,
    after: FwdTile,
    packet: TritonPacket,
    payload: Seq<u8>,
    counters_before: PacketCounters,
    counters_after: PacketCounters,
)
    requires
        accepted(before, after, packet, payload, counters_before, counters_after),
    ensures
        !before.seen().contains(payload) ==> {
            &&& after@.queued =~= before@.queued.push(packet)
            &&& after@.recycled == before@.recycled
            &&& counters_after.packets_deduped == counters_before.packets_deduped
        },
        before.seen().contains(payload) ==> {
            &&& after@.queued == before@.queued
            &&& after@.recycled =~= before@.recycled.push(packet.buffer.spec_desc())
            &&& counters_after.packets_deduped == if counters_before.packets_deduped == u64::MAX {
                u64::MAX as int
            } else {
                counters_before.packets_deduped + 1
            }
        },
        after@.sending == before@.sending,
        after@.batch == before@.batch,
        after.seen().contains(payload),
        forall|other: Seq<u8>|
            before.seen().contains(other) ==> #[trigger] after.seen().contains(other),
        counters_after.packets_received == counters_before.packets_received,
        counters_after.packets_forwarded == counters_before.packets_forwarded,
        counters_after.packets_forward_failed == counters_before.packets_forward_failed,
        counters_after.routing_drop == counters_before.routing_drop,
{
    law_only_duplicates_are_dropped(before@, packet);
    assert forall|other: Seq<u8>| before.seen().contains(other) implies
        #[trigger] after.seen().contains(other) by {
        assert(before.seen().insert(payload).contains(other));
    }
    assert(before.seen().insert(payload).contains(payload));
    if !before.seen().contains(payload) {
        assert(after@.queued =~= before@.queued.push(packet));
    } else {
        assert(after@.recycled =~= before@.recycled.push(packet.buffer.spec_desc()));
    }
}

/// The payload by which a forwarder accepts a packet is what it sees in the packet's region
/// from the packet's beginning on, as many bytes as the packet has.
pub proof fn law_payload_is_read_from_the_region(
    before: FwdTile,
    after: FwdTile,
    packet: TritonPacket,
    regions: Seq<Region>,
    counters_before: PacketCounters,
    counters_after: PacketCounters,
)
    requires
        looked_and_accepted(before, after, packet, regions, counters_before, counters_after),
        0 <= packet.buffer.start(),
        packet.buffer.start() + packet.meta.size <= packet.buffer.end()
            <= regions[packet.buffer.spec_desc().shmem_idx as int].spec_len(),
    ensures
        ({
            let look = after.looks()[before.looks().len() as int];
            let payload = Seq::new(
                packet.meta.size as nat,
                |i: int| look.bytes[packet.buffer.start() + i],
            );
            &&& after.looks() =~= before.looks().push(look)
            &&& look.region == regions[packet.buffer.spec_desc().shmem_idx as int].id()
            &&& accepted(before, after, packet, payload, counters_before, counters_after)
        }),
{
    let look = after.looks()[before.looks().len() as int];
    let payload = Seq::new(
        packet.meta.size as nat,
        |i: int| look.bytes[packet.buffer.start() + i],
    );
    assert(after.looks().last() == look);
    assert(packet.payload(look.bytes) =~= payload);
}

/// Looking at all regions is looking at each once, in their order, and forgets no earlier
/// look.
pub proof fn law_every_region_is_looked_at(
    before: Seq<Snapshot>,
    after: Seq<Snapshot>,
    regions: Seq<Region>,
    i: int,
)
    requires
        looked_at_all(before, after, regions),
        0 <= i < regions.len(),
    ensures
        after.len() == before.len() + regions.len(),
        after.take(before.len() as int) =~= before,
        after[before.len() + i].region == regions[i].id(),
        after[before.len() + i].bytes.len() == regions[i].spec_len(),
{
}

/// Where all packets of a plan were sent, each queue was sent exactly those that the plan
/// has for it, in their order, and refused none; and each was counted for its queue.
pub proof fn law_whole_plan_is_sent(
    before: Seq<Tx<TritonPacket>>,
    after: Seq<Tx<TritonPacket>>,
    counts_before: LabelCounts,
    counts_after: LabelCounts,
    plan: Seq<(usize, TritonPacket)>,
    i: int,
)
    requires
        plan_done(before, after, counts_before, counts_after, plan, Ok(())),
        0 <= i < before.len(),
    ensures
        after.len() == before.len(),
        after[i].sent() =~= before[i].sent() + of_queue(plan, i),
        after[i].refused() == before[i].refused(),
        i <= usize::MAX ==> counts_after.value(seq![decimal(i as nat)]) as int == (
        counts_before.value(seq![decimal(i as nat)]) + of_queue(plan, i).len()) % (u64::MAX + 1),
{
    law_queue_gets_its_packets(plan, i);
    assert(all_sent(after)[i] =~= all_sent(before)[i] + crate::recv_tile::packets_for(plan, i));
    assert(all_refused(after)[i] == all_refused(before)[i]);
    if i <= usize::MAX {
        law_sends_are_counted_by_queue(
            counts_before.value(seq![decimal(i as nat)]),
            plan,
            i as usize,
        );
    }
    assert(all_sent(after).len() == all_sent(before).len());
}

/// Where a queue had no room for a packet of a plan, the packets in front of it were sent
/// and no other, and the queue is told.
pub proof fn law_plan_ends_at_a_full_queue(
    before: Seq<Tx<TritonPacket>>,
    after: Seq<Tx<TritonPacket>>,
    counts_before: LabelCounts,
    counts_after: LabelCounts,
    plan: Seq<(usize, TritonPacket)>,
    dest: usize,
)
    requires
        plan_done(before, after, counts_before, counts_after, plan, Err(dest)),
        dest < before.len(),
    ensures
        exists|n: int|
            {
                &&& 0 <= n < plan.len()
                &&& (#[trigger] plan[n]).0 == dest
                &&& after[dest as int].refused() == before[dest as int].refused().push(plan[n].1)
                &&& forall|i: int|
                    0 <= i < before.len() ==> (#[trigger] after[i]).sent() =~= before[i].sent()
                        + of_queue(plan.take(n), i)
            },
{
    let n = choose|n: int|
        {
            &&& 0 <= n < plan.len()
            &&& plan[n].0 == dest
            &&& #[trigger] crate::recv_tile::plan_sent(
                all_sent(before),
                all_sent(after),
                plan.take(n),
            )
            &&& crate::recv_tile::sends_counted(counts_before, counts_after, plan.take(n))
            &&& all_refused(after) == all_refused(before).update(
                dest as int,
                before[dest as int].refused().push(plan[n].1),
            )
        };
    assert(plan[n].0 == dest);
    assert(all_refused(after).len() == all_refused(before).len());
    assert(all_refused(after)[dest as int] == after[dest as int].refused());
    assert forall|i: int| 0 <= i < before.len() implies (#[trigger] after[i]).sent()
        =~= before[i].sent() + of_queue(plan.take(n), i) by {
        law_queue_gets_its_packets(plan.take(n), i);
        assert(all_sent(after)[i] =~= all_sent(before)[i] + crate::recv_tile::packets_for(
            plan.take(n),
            i,
        ));
    }
}

/// The packet as it is sent: not marked as coming from a staked node.
pub open spec fn unmarked(packet: TritonPacket) -> TritonPacket {
    TritonPacket {
        buffer: packet.buffer,
        meta: Meta { from_staked_node: false, ..packet.meta },
    }
}

proof fn lemma_packets_for_destination(
    packets: Seq<TritonPacket>,
    dests: Seq<Option<usize>>,
    f: usize,
)
    requires
        dests.len() == packets.len(),
    ensures
        crate::recv_tile::packets_for(routed(packets, dests), f as int) == with_destinations(
            packets,
            dests,
        ).filter(|p: (Option<usize>, TritonPacket)| p.0 == Some(f)).map_values(
            |p: (Option<usize>, TritonPacket)|
                TritonPacket {
                    buffer: p.1.buffer,
                    meta: Meta { from_staked_node: false, ..p.1.meta },
                },
        ),
    decreases packets.len(),
{
    reveal(Seq::filter);
    let mine = |p: (Option<usize>, TritonPacket)| p.0 == Some(f);
    let out = |p: (Option<usize>, TritonPacket)|
        TritonPacket {
            buffer: p.1.buffer,
            meta: Meta { from_staked_node: false, ..p.1.meta },
        };
    let all = with_destinations(packets, dests);
    let plan = routed(packets, dests);
    if packets.len() > 0 {
        let front = packets.drop_last();
        let front_dests = dests.drop_last();
        lemma_packets_for_destination(front, front_dests, f);
        let before = with_destinations(front, front_dests);
        assert(all.drop_last() =~= before);
        if dests.last() is Some {
            assert(plan.drop_last() =~= routed(front, front_dests));
        }
    }
    assert(crate::recv_tile::packets_for(plan, f as int) =~= all.filter(mine).map_values(out));
}

/// Where a batch was handed on to `dests`, each queue was sent exactly the packets that go
/// to it, in their order; exactly the frames of the packets that go nowhere can be received
/// into again; and these are counted as dropped.
pub proof fn law_batch_is_handed_on_to_its_destinations<R: PacketRoutingStrategy>(
    dests: Seq<Option<usize>>,
    before: RecvTile<R>,
    after: RecvTile<R>,
    txs_before: Seq<Tx<TritonPacket>>,
    txs_after: Seq<Tx<TritonPacket>>,
    counters_before: PacketCounters,
    counters_after: PacketCounters,
    f: usize,
)
    requires
        handed_on_to(
            dests,
            before,
            after,
            txs_before,
            txs_after,
            counters_before,
            counters_after,
            Ok(()),
        ),
        dests.len() == before.batch().len(),
        f < txs_before.len(),
    ensures
        ({
            let batch = with_destinations(before.batch(), dests);
            let free = batch.filter(|p: (Option<usize>, TritonPacket)| p.0 is None);
            let held = before.free_bufs().len() as int;
            &&& txs_after[f as int].sent() =~= txs_before[f as int].sent() + batch.filter(
                |p: (Option<usize>, TritonPacket)| p.0 == Some(f),
            ).map_values(
                |p: (Option<usize>, TritonPacket)|
                    TritonPacket {
                        buffer: p.1.buffer,
                        meta: Meta { from_staked_node: false, ..p.1.meta },
                    },
            )
            &&& after.free_bufs().len() == held + free.len()
            &&& after.free_bufs().take(held) =~= before.free_bufs()
            &&& forall|i: int|
                0 <= i < free.len() ==> (#[trigger] after.free_bufs()[held + i]).spec_desc()
                    == free[i].1.buffer.spec_desc()
            &&& counters_before.routing_drop + free.len() <= u64::MAX ==> counters_after.routing_drop
                == counters_before.routing_drop + free.len()
            &&& before.batch().len() <= u64::MAX && counters_before.packets_received
                + before.batch().len() <= u64::MAX ==> counters_after.packets_received
                == counters_before.packets_received + before.batch().len()
            &&& counters_after.packets_deduped == counters_before.packets_deduped
            &&& counters_after.packets_forwarded == counters_before.packets_forwarded
            &&& counters_after.packets_forward_failed == counters_before.packets_forward_failed
        }),
{
    let batch = with_destinations(before.batch(), dests);
    let free = batch.filter(|p: (Option<usize>, TritonPacket)| p.0 is None);
    let held = before.free_bufs().len() as int;
    let plan = routed(before.batch(), dests);
    lemma_packets_for_destination(before.batch(), dests, f);
    law_packets_with_a_destination_are_sent(before.batch(), dests);
    assert(all_sent(txs_after)[f as int] =~= all_sent(txs_before)[f as int]
        + crate::recv_tile::packets_for(plan, f as int));
    assert forall|i: int| 0 <= i < free.len() implies (
    #[trigger] after.free_bufs()[held + i]).spec_desc() == free[i].1.buffer.spec_desc() by {
        assert(unrouted(before.batch(), dests)[i] == free[i].1.buffer.spec_desc());
    }
}

/// Where a batch was handed on, there are destinations that the router can choose for its
/// packets, and the batch went there.
pub proof fn law_router_chooses_the_destinations<R: PacketRoutingStrategy>(
    mem: Seq<u8>,
    before: RecvTile<R>,
    after: RecvTile<R>,
    txs_before: Seq<Tx<TritonPacket>>,
    txs_after: Seq<Tx<TritonPacket>>,
    counters_before: PacketCounters,
    counters_after: PacketCounters,
    r: Result<(), usize>,
)
    requires
        handed_on(
            mem,
            before,
            after,
            txs_before,
            txs_after,
            counters_before,
            counters_after,
            r,
        ),
    ensures
        exists|dests: Seq<Option<usize>>|
            {
                &&& dests.len() == before.batch().len()
                &&& forall|i: int|
                    0 <= i < dests.len() ==> {
                        &&& before.spec_router().may_route(
                            unmarked(before.batch()[i]),
                            before.batch()[i].buffer.bytes(mem),
                            before.sent_to().len() as usize,
                            #[trigger] dests[i],
                        )
                        &&& dests[i] matches Some(d) ==> d < before.sent_to().len() as usize
                    }
                &&& #[trigger] handed_on_to(
                    dests,
                    before,
                    after,
                    txs_before,
                    txs_after,
                    counters_before,
                    counters_after,
                    r,
                )
            },
{
    let dests = choose|dests: Seq<Option<usize>>| #[trigger]
        crate::recv_mmsg::routes(
            before.batch(),
            mem,
            &before.spec_router(),
            before.sent_to().len() as usize,
            dests,
        ) && handed_on_to(
            dests,
            before,
            after,
            txs_before,
            txs_after,
            counters_before,
            counters_after,
            r,
        );
    assert(handed_on_to(
        dests,
        before,
        after,
        txs_before,
        txs_after,
        counters_before,
        counters_after,
        r,
    ));
}

/// A burst that went well leaves in each frame, from its beginning on, the message that was
/// received into it, as a packet of that size, in the order of the frames. The frames that
/// were not needed are free again, and no byte that belongs to no message changed. A burst
/// that failed changes nothing but that its frames are free again.
pub proof fn law_burst_becomes_packets(
    mem_before: Seq<u8>,
    mem_after: Seq<u8>,
    inflight: Seq<FrameBufMut>,
    outcome: Result<Vec<ReceivedMsg>, IoErrorKind>,
    free_before: Seq<FrameBufMut>,
    free_after: Seq<FrameBufMut>,
    packets_before: Seq<TritonPacket>,
    packets_after: Seq<TritonPacket>,
    r: Result<usize, IoErrorKind>,
)
    requires
        burst_ended(
            mem_before,
            mem_after,
            inflight,
            outcome,
            free_before,
            free_after,
            packets_before,
            packets_after,
            r,
        ),
        outcome matches Ok(msgs) ==> {
            &&& msgs@.len() <= inflight.len()
            &&& forall|i: int|
                0 <= i < msgs@.len() ==> (#[trigger] inflight[i]).spec_desc().ptr
                    + msgs@[i].data@.len() <= mem_before.len() <= usize::MAX
            &&& forall|i: int, j: int|
                0 <= i < j < msgs@.len() ==> (#[trigger] inflight[i]).spec_desc().ptr
                    + msgs@[i].data@.len() <= (#[trigger] inflight[j]).spec_desc().ptr
                    || inflight[j].spec_desc().ptr + msgs@[j].data@.len()
                    <= inflight[i].spec_desc().ptr
        },
    ensures
        match outcome {
            Ok(msgs) => {
                let n = msgs@.len() as int;
                let first = packets_before.len() as int;
                &&& r == Ok::<usize, IoErrorKind>(msgs@.len() as usize)
                &&& free_after =~= free_before + inflight.skip(n)
                &&& packets_after.len() == first + n
                &&& packets_after.take(first) =~= packets_before
                &&& forall|i: int|
                    0 <= i < n ==> {
                        let packet = #[trigger] packets_after[first + i];
                        &&& packet.buffer.spec_desc() == inflight[i].spec_desc()
                        &&& packet.buffer.start() == inflight[i].spec_desc().ptr
                        &&& packet.buffer.end() == inflight[i].spec_desc().ptr
                            + msgs@[i].data@.len()
                        &&& packet.meta.size == msgs@[i].data@.len()
                    }
                &&& mem_after.len() == mem_before.len()
                &&& forall|i: int, k: int|
                    #![trigger msgs@[i].data@[k]]
                    0 <= i < n && 0 <= k < msgs@[i].data@.len() ==> mem_after[
                    inflight[i].spec_desc().ptr + k] == msgs@[i].data@[k]
                &&& forall|a: int|
                    0 <= a < mem_before.len() && (forall|i: int|
                        0 <= i < n ==> !(#[trigger] inflight[i].spec_desc().ptr <= a
                            < inflight[i].spec_desc().ptr + msgs@[i].data@.len()))
                        ==> #[trigger] mem_after[a] == mem_before[a]
            },
            Err(kind) => {
                &&& r == Err::<usize, IoErrorKind>(kind)
                &&& mem_after == mem_before
                &&& packets_after == packets_before
                &&& free_after =~= free_before + inflight
            },
        },
{
    if let Ok(msgs) = outcome {
        let n = msgs@.len() as int;
        let first = packets_before.len() as int;
        law_each_message_is_in_its_frame(mem_before, inflight, msgs@);
        assert forall|i: int| 0 <= i < n implies {
            let packet = #[trigger] packets_after[first + i];
            &&& packet.buffer.spec_desc() == inflight[i].spec_desc()
            &&& packet.buffer.start() == inflight[i].spec_desc().ptr
            &&& packet.buffer.end() == inflight[i].spec_desc().ptr + msgs@[i].data@.len()
            &&& packet.meta.size == msgs@[i].data@.len()
        } by {
            assert(is_received(packets_after[first + i], inflight[i], msgs@[i]));
            assert(inflight[i].spec_desc().ptr + msgs@[i].data@.len() <= usize::MAX);
        }
    }
}

/// Frames that are added can be received into from their beginning, in their order, and
/// nothing that was at hand is lost.
pub proof fn law_frames_are_added_behind(
    before: Seq<FrameBufMut>,
    after: Seq<FrameBufMut>,
    frames: Seq<FrameDesc>,
    i: int,
)
    requires
        extended_by_frames(before, after, frames),
        0 <= i < frames.len(),
    ensures
        after.len() == before.len() + frames.len(),
        after.take(before.len() as int) =~= before,
        after[before.len() + i].spec_desc() == frames[i],
        after[before.len() + i].spec_ptr() == frames[i].ptr,
{
    assert(crate::recv_mmsg::is_fresh(after[before.len() + i]));
}

/// Where a batch was routed, the plan has exactly the packets with a destination, each queue
/// counts its own, exactly the frames of the others are free again, and these are counted
/// as dropped.
pub proof fn law_batch_is_routed(
    batch: Seq<TritonPacket>,
    dests: Seq<Option<usize>>,
    plan: Seq<(usize, TritonPacket)>,
    dist_before: Seq<usize>,
    dist_after: Seq<usize>,
    bufs_before: Seq<FrameBufMut>,
    bufs_after: Seq<FrameBufMut>,
    drops_before: u64,
    drops_after: u64,
    f: usize,
)
    requires
        batch_routed(
            batch,
            dests,
            plan,
            dist_before,
            dist_after,
            bufs_before,
            bufs_after,
            drops_before,
            drops_after,
        ),
        dests.len() == batch.len(),
        f < dist_before.len(),
        forall|i: int| 0 <= i < plan.len() ==> (#[trigger] plan[i]).0 < dist_before.len(),
    ensures
        ({
            let free = with_destinations(batch, dests).filter(
                |p: (Option<usize>, TritonPacket)| p.0 is None,
            );
            &&& of_queue(plan, f as int) == with_destinations(batch, dests).filter(
                |p: (Option<usize>, TritonPacket)| p.0 == Some(f),
            ).map_values(
                |p: (Option<usize>, TritonPacket)|
                    TritonPacket {
                        buffer: p.1.buffer,
                        meta: Meta { from_staked_node: false, ..p.1.meta },
                    },
            )
            &&& plan.len() + free.len() == batch.len()
            &&& dist_after.len() == dist_before.len()
            &&& dist_after[f as int] as int == (dist_before[f as int] + of_queue(
                plan,
                f as int,
            ).len()) % (usize::MAX + 1)
            &&& bufs_after.len() == bufs_before.len() + free.len()
            &&& drops_before + free.len() <= u64::MAX ==> drops_after == drops_before + free.len()
            &&& drops_before + free.len() > u64::MAX ==> drops_after == u64::MAX
        }),
{
    law_packets_with_a_destination_are_sent(batch, dests);
    lemma_packets_for_destination(batch, dests, f);
    law_queue_gets_its_packets(plan, f as int);
    law_distribution_counts_packets(dist_before, plan, f as int);
    lemma_each_packet_is_sent_or_freed(batch, dests);
    let free = with_destinations(batch, dests).filter(
        |p: (Option<usize>, TritonPacket)| p.0 is None,
    );
    assert(unrouted(batch, dests).len() == free.len());
}

proof fn lemma_each_packet_is_sent_or_freed(packets: Seq<TritonPacket>, dests: Seq<Option<usize>>)
    ensures
        routed(packets, dests).len() + unrouted(packets, dests).len() == packets.len(),
    decreases packets.len(),
{
    if packets.len() > 0 {
        lemma_each_packet_is_sent_or_freed(packets.drop_last(), dests.drop_last());
    }
}

/// Where frames were given back, each region got exactly its own, from the last to the
/// first.
pub proof fn law_frames_are_given_back_to_their_regions(
    before: Seq<Seq<FrameDesc>>,
    after: Seq<Seq<FrameDesc>>,
    frames: Seq<FrameDesc>,
    i: int,
)
    requires
        all_given_back(before, after, frames),
        0 <= i < before.len(),
    ensures
        after.len() == before.len(),
        after[i] =~= before[i] + frames.reverse().filter(|f: FrameDesc| f.shmem_idx == i),
{
    law_region_gets_its_frames_back(frames, i);
}

/// Of two fresh handles both are ends of one ring, and nothing went through them but what
/// the ring held.
pub proof fn law_fresh_handles_are_ends_of_one_ring<T>(tx: Tx<T>, rx: Rx<T>, held: Seq<T>)
    requires
        is_fresh_pair(tx, rx, held),
    ensures
        tx.ring() == rx.ring(),
        tx.sent() == held,
        tx.refused().len() == 0,
        tx.wakes() == 0,
        rx.received().len() == 0,
        rx.missed() == 0,
{
}

/// A new forwarder has sent nothing.
pub proof fn law_nothing_is_sent_at_first()
    ensures
        ForwardStats::spec_new().duplicate == 0,
        ForwardStats::spec_new().send_batch_count == 0,
        ForwardStats::spec_new().send_batch_size_sum == 0,
        ForwardStats::spec_new().batch_send_time_spent == 0,
{
}

/// When a burst ends, its first frames become packets, one for each message, behind those
/// from before: each in its own frame, from its beginning on and as long as the message. The
/// other frames are free again, behind those that are, and so are all where the burst
/// failed.
pub proof fn law_frames_of_a_burst_become_packets(
    inflight: Seq<FrameBufMut>,
    outcome: Result<Vec<ReceivedMsg>, IoErrorKind>,
    free_before: Seq<FrameBufMut>,
    free_after: Seq<FrameBufMut>,
    packets_before: Seq<TritonPacket>,
    packets_after: Seq<TritonPacket>,
    i: int,
)
    requires
        packets_taken(
            inflight,
            outcome,
            free_before,
            free_after,
            packets_before,
            packets_after,
        ),
    ensures
        outcome is Err ==> packets_after == packets_before && free_after =~= free_before
            + inflight,
        outcome matches Ok(msgs) ==> {
            let packet = packets_after[packets_before.len() + i];
            &&& packets_after.len() == packets_before.len() + msgs@.len()
            &&& packets_after.take(packets_before.len() as int) =~= packets_before
            &&& free_after =~= free_before + inflight.skip(msgs@.len() as int)
            &&& 0 <= i < msgs@.len() && msgs@[i].data@.len() <= usize::MAX ==> {
                &&& packet.buffer.spec_desc() == inflight[i].spec_desc()
                &&& packet.buffer.start() == inflight[i].spec_desc().ptr
                &&& packet.buffer.end() - packet.buffer.start() == msgs@[i].data@.len()
                &&& packet.meta.size == msgs@[i].data@.len()
            }
        },
{
    if let Ok(msgs) = outcome {
        if 0 <= i < msgs@.len() {
            assert(is_received(packets_after[packets_before.len() + i], inflight[i], msgs@[i]));
        }
    }
}

/// A refill takes free frames from the ring until 64 are at hand or the ring had none, and
/// puts them behind those at hand, in their order. If a frame is at hand then, the receiver
/// receives.
pub proof fn law_refill_asks_for_a_batch(
    free_before: Seq<FrameBufMut>,
    free_after: Seq<FrameBufMut>,
    received_before: Seq<FrameDesc>,
    received_after: Seq<FrameDesc>,
    missed_before: int,
    missed_after: int,
    count_before: u32,
    count_after: u32,
    exit: bool,
    b: Backoff,
)
    requires
        refilled(
            free_before,
            free_after,
            received_before,
            received_after,
            missed_before,
            missed_after,
            count_before,
            count_after,
            exit,
            b,
        ),
    ensures
        free_after.take(free_before.len() as int) =~= free_before,
        received_after.len() - received_before.len() == free_after.len() - free_before.len(),
        received_after.take(received_before.len() as int) =~= received_before,
        forall|k: int|
            0 <= k < free_after.len() - free_before.len() ==> #[trigger] received_after[
            received_before.len() + k] == free_after[free_before.len() + k].spec_desc(),
        free_before.len() <= 64 ==> free_after.len() <= 64,
        free_before.len() >= 64 ==> free_after.len() == free_before.len(),
        missed_after == missed_before + (if free_after.len() < 64 {
            1int
        } else {
            0
        }),
        b == Backoff::Receive <==> free_after.len() > 0,
{
    let held = free_before.len() as int;
    let added = frames_written(free_after.skip(held));
    assert(added.len() == free_after.len() - held);
    assert forall|k: int| 0 <= k < free_after.len() - held implies #[trigger] received_after[
    received_before.len() + k] == free_after[held + k].spec_desc() by {
        assert(added[k] == free_after[held + k].spec_desc());
    }
}

/// A forwarder with fewer than 1024 packets queued asks its ring for one: it takes in the one
/// that it gets, and no other, or the ring had none. With as many it does not ask. Where it
/// takes in nothing, nothing changes.
pub proof fn law_forwarder_takes_in_one_packet(
    before: FwdTile,
    after: FwdTile,
    received_before: Seq<TritonPacket>,
    received_after: Seq<TritonPacket>,
    missed_before: int,
    missed_after: int,
    regions: Seq<Region>,
    counters_before: PacketCounters,
    counters_after: PacketCounters,
    took: bool,
)
    requires
        drained_one(
            before,
            after,
            received_before,
            received_after,
            missed_before,
            missed_after,
            regions,
            counters_before,
            counters_after,
            took,
        ),
    ensures
        before@.queued.len() >= 1024 ==> !took && missed_after == missed_before,
        before@.queued.len() < 1024 ==> received_after.len() - received_before.len() + missed_after
            - missed_before == 1,
        took <==> received_after.len() == received_before.len() + 1,
        received_after.take(received_before.len() as int) =~= received_before,
        !took ==> after@ == before@ && after.seen() == before.seen() && counters_after
            == counters_before,
        took ==> looked_and_accepted(
            before,
            after,
            received_after[received_before.len() as int],
            regions,
            counters_before,
            counters_after,
        ),
{
    if took {
        assert(received_after.last() == received_after[received_before.len() as int]);
    }
}

/// Giving frames back goes from the last to the first: each goes to the ring of its own
/// region. It ends when none is left, or with the first frame for which its ring has no
/// room.
pub proof fn law_all_frames_are_returned(
    recycled: Seq<FrameDesc>,
    left: int,
    sent_before: Seq<Seq<FrameDesc>>,
    sent_after: Seq<Seq<FrameDesc>>,
    refused_before: Seq<Seq<FrameDesc>>,
    refused_after: Seq<Seq<FrameDesc>>,
    r: Result<(), FrameDesc>,
    i: int,
)
    requires
        frames_returned(
            recycled,
            left,
            sent_before,
            sent_after,
            refused_before,
            refused_after,
            r,
        ),
        0 <= i < sent_before.len(),
        refused_before.len() == sent_before.len(),
        r matches Err(frame) ==> frame.shmem_idx < sent_before.len(),
    ensures
        r is Ok ==> {
            &&& left == 0
            &&& sent_after[i] =~= sent_before[i] + recycled.reverse().filter(
                |f: FrameDesc| f.shmem_idx == i,
            )
            &&& refused_after == refused_before
        },
        r matches Err(frame) ==> {
            &&& 0 <= left < recycled.len()
            &&& frame == recycled[left]
            &&& sent_after[i] =~= sent_before[i] + recycled.skip(left + 1).reverse().filter(
                |f: FrameDesc| f.shmem_idx == i,
            )
            &&& refused_after[i] =~= (if i == frame.shmem_idx {
                refused_before[i].push(frame)
            } else {
                refused_before[i]
            })
        },
{
    if r is Ok {
        law_frames_are_given_back_to_their_regions(sent_before, sent_after, recycled, i);
    } else {
        law_frames_are_given_back_to_their_regions(
            sent_before,
            sent_after,
            recycled.skip(left + 1),
            i,
        );
    }
}

} // verus!
