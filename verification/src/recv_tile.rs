//! A receiver at work, between the rings it shares with others.
//!
//! [`RecvTile`] keeps what a receiver holds from one step to the next: the
//! frames it can receive into, the frames it is receiving into, and the packets
//! it has received.

use vstd::prelude::*;

use crate::io_error::IoErrorKind;
use crate::mem::{FrameBufMut, FrameDesc, SharedMem};
use crate::packet::{TritonPacket, PACKET_DATA_SIZE};
use crate::pool::{
    frames_of, frames_written, free_frames_of, packet_admissible, packets_in, region_sizes,
};
use crate::prom::{inc_routing_send, saturated_sum, LabelCounts, PacketCounters};
use crate::recv_mmsg::{
    add_frames, backoff_after_refill, batch_routed, begin_burst, burst_begun, burst_len, is_fresh, is_received,
    last_have_room, packets_taken, recv_from_step, refill_limit, route_batch, routed, routes, spec_backoff,
    spec_recv_from_step, spec_refill_limit, unrouted, unstaked, Backoff, FrameTooSmall,
    ReceiveStats, ReceivedMsg, RecvFromStep, PACKETS_PER_BATCH,
};
use crate::region::Region;
use crate::region_log::{Burst, BurstLog, ReadLog, Snapshot};
use crate::ring_handle::{all_refused, all_sent, same_rings, Rx, Tx};
use crate::routing::PacketRoutingStrategy;
use crate::text::{decimal, decimal_text};

verus! {

/// A counter after one more for each packet of `plan` that went to the queue
/// with these labels. The number wraps around.
pub open spec fn count_after_sends(
    count: u64,
    plan: Seq<(usize, TritonPacket)>,
    labels: Seq<Seq<char>>,
) -> u64
    decreases plan.len(),
{
    if plan.len() == 0 {
        count
    } else {
        let before = count_after_sends(count, plan.drop_last(), labels);
        if labels == seq![decimal(plan.last().0 as nat)] {
            before.wrapping_add(1)
        } else {
            before
        }
    }
}

/// The counters of the queues after the packets of `plan` were sent.
pub open spec fn sends_counted(
    before: LabelCounts,
    after: LabelCounts,
    plan: Seq<(usize, TritonPacket)>,
) -> bool {
    forall|labels: Seq<Seq<char>>| #[trigger]
        after.value(labels) == count_after_sends(before.value(labels), plan, labels)
}

/// The labels of `n` queues: their numbers.
fn queue_labels(n: usize) -> (labels: Vec<String>)
    ensures
        labels@.len() == n,
        forall|i: int| 0 <= i < n ==> (#[trigger] labels@[i])@ == decimal(i as nat),
{
    let mut labels: Vec<String> = Vec::new();
    let mut i: usize = 0;
    while i < n
        invariant
            i <= n,
            labels@.len() == i,
            forall|k: int| 0 <= k < i ==> (#[trigger] labels@[k])@ == decimal(k as nat),
        decreases n - i,
    {
        labels.push(decimal_text(i));
        i += 1;
    }
    labels
}

/// The packets of `plan` that go to the `dest`-th queue, in their order.
pub open spec fn packets_for(plan: Seq<(usize, TritonPacket)>, dest: int) -> Seq<TritonPacket>
    decreases plan.len(),
{
    if plan.len() == 0 {
        seq![]
    } else {
        let before = packets_for(plan.drop_last(), dest);
        if plan.last().0 == dest {
            before.push(plan.last().1)
        } else {
            before
        }
    }
}

/// Each packet of `plan` was sent once, to the queue it goes to, and nothing else
/// was sent: of each queue `before` tells what was sent until then, and `after`
/// what was sent since.
pub open spec fn plan_sent(
    before: Seq<Seq<TritonPacket>>,
    after: Seq<Seq<TritonPacket>>,
    plan: Seq<(usize, TritonPacket)>,
) -> bool {
    &&& after.len() == before.len()
    &&& forall|i: int|
        0 <= i < before.len() ==> #[trigger] after[i] =~= before[i] + packets_for(plan, i)
}

/// What `send_routed` does with a plan, where `before` and `after` are the queues.
/// If a queue had no room for a packet, it was refused that one; the packets in
/// front of it were sent and counted, and no other.
pub open spec fn plan_done(
    before: Seq<Tx<TritonPacket>>,
    after: Seq<Tx<TritonPacket>>,
    counts_before: LabelCounts,
    counts_after: LabelCounts,
    plan: Seq<(usize, TritonPacket)>,
    r: Result<(), usize>,
) -> bool {
    match r {
        Ok(_) => {
            &&& plan_sent(all_sent(before), all_sent(after), plan)
            &&& sends_counted(counts_before, counts_after, plan)
            &&& all_refused(after) == all_refused(before)
        },
        Err(dest) => exists|n: int|
            {
                &&& 0 <= n < plan.len()
                &&& plan[n].0 == dest
                &&& #[trigger] plan_sent(all_sent(before), all_sent(after), plan.take(n))
                &&& sends_counted(counts_before, counts_after, plan.take(n))
                &&& all_refused(after) == all_refused(before).update(
                    dest as int,
                    before[dest as int].refused().push(plan[n].1),
                )
            },
    }
}

/// Sends each packet of `plan` to its forwarder and counts it under the label of
/// the forwarder's queue. A queue that has no room, which never happens as long
/// as it can hold all frames of all receivers, ends it with the queue's number.
/// Forwarders poll for packets, so none has to be woken.
pub fn send_routed(
    plan: Vec<(usize, TritonPacket)>,
    packet_tx_vec: &mut Vec<Tx<TritonPacket>>,
    labels: &Vec<String>,
    counters: &mut PacketCounters,
) -> (r: Result<(), usize>)
    requires
        labels@.len() == old(packet_tx_vec)@.len(),
        forall|i: int| 0 <= i < labels@.len() ==> (#[trigger] labels@[i])@ == decimal(i as nat),
        forall|i: int|
            0 <= i < plan@.len() ==> {
                &&& (#[trigger] plan@[i]).0 < old(packet_tx_vec)@.len()
                &&& (old(packet_tx_vec)@[plan@[i].0 as int].ring().pred().admits)(plan@[i].1)
            },
    ensures
        same_rings(old(packet_tx_vec)@, final(packet_tx_vec)@),
        *final(counters) == (PacketCounters {
            routing_send: final(counters).routing_send,
            ..*old(counters)
        }),
        plan_done(
            old(packet_tx_vec)@,
            final(packet_tx_vec)@,
            old(counters).routing_send,
            final(counters).routing_send,
            plan@,
            r,
        ),
{
    let mut rest: Vec<(usize, TritonPacket)> = plan;
    let ghost whole = rest@;
    let ghost mut done: int = 0;
    let ghost txs = packet_tx_vec@;
    assert(whole.skip(0) =~= whole);
    assert(whole.take(0) =~= seq![]);
    while rest.len() > 0
        invariant
            whole == plan@,
            txs == old(packet_tx_vec)@,
            labels@.len() == txs.len(),
            forall|i: int| 0 <= i < labels@.len() ==> (#[trigger] labels@[i])@ == decimal(i as nat),
            forall|i: int|
                0 <= i < whole.len() ==> {
                    &&& (#[trigger] whole[i]).0 < txs.len()
                    &&& (txs[whole[i].0 as int].ring().pred().admits)(whole[i].1)
                },
            0 <= done <= whole.len(),
            rest@ =~= whole.skip(done),
            same_rings(txs, packet_tx_vec@),
            *counters == (PacketCounters { routing_send: counters.routing_send, ..*old(counters) }),
            plan_sent(all_sent(txs), all_sent(packet_tx_vec@), whole.take(done)),
            all_refused(packet_tx_vec@) =~= all_refused(txs),
            sends_counted(old(counters).routing_send, counters.routing_send, whole.take(done)),
        decreases rest.len(),
    {
        let ghost counted = counters.routing_send;
        let ghost sent = all_sent(packet_tx_vec@);
        let ghost refused = all_refused(packet_tx_vec@);
        let (dest, packet) = rest.remove(0);
        assert(whole[done] == (dest, packet));
        match packet_tx_vec[dest].send(packet) {
            Ok(_) => {},
            Err(_) => {
                proof {
                    assert(all_sent(packet_tx_vec@) =~= sent);
                    assert(refused[dest as int] == txs[dest as int].refused());
                    assert(all_refused(packet_tx_vec@) =~= refused.update(
                        dest as int,
                        refused[dest as int].push(packet),
                    ));
                    assert(plan_sent(all_sent(txs), all_sent(packet_tx_vec@), whole.take(done)));
                }
                return Err(dest);
            },
        }
        inc_routing_send(counters, labels[dest].as_str());
        proof {
            assert(all_refused(packet_tx_vec@) =~= refused);
            done = done + 1;
            assert(whole.take(done).drop_last() =~= whole.take(done - 1));
            assert(labels@[dest as int]@ == decimal(dest as nat));
            assert forall|i: int| 0 <= i < txs.len() implies #[trigger] all_sent(packet_tx_vec@)[i]
                =~= all_sent(txs)[i] + packets_for(whole.take(done), i) by {
                assert(sent[i] =~= all_sent(txs)[i] + packets_for(whole.take(done - 1), i));
            }
            assert forall|l: Seq<Seq<char>>| #[trigger]
                counters.routing_send.value(l) == count_after_sends(
                    old(counters).routing_send.value(l),
                    whole.take(done),
                    l,
                ) by {
                assert(counted.value(l) == count_after_sends(
                    old(counters).routing_send.value(l),
                    whole.take(done - 1),
                    l,
                ));
            }
        }
    }
    assert(whole.take(done) =~= whole);
    Ok(())
}

/// Every writer stands at the beginning of a frame that the ring of free frames
/// admits.
pub open spec fn bufs_admissible(bufs: Seq<FrameBufMut>, sizes: Seq<nat>, idx: int) -> bool {
    forall|i: int|
        0 <= i < bufs.len() ==> {
            &&& is_fresh(#[trigger] bufs[i])
            &&& free_frames_of(sizes, idx)(bufs[i].spec_desc())
        }
}

/// A receiver.
pub struct RecvTile<R: PacketRoutingStrategy> {
    shmem_idx: usize,
    router: R,
    labels: Vec<String>,
    frame_bufs: Vec<FrameBufMut>,
    inflight: Vec<FrameBufMut>,
    packets: Vec<TritonPacket>,
    empty_fill_backoff: u32,
    dest_dist: Vec<usize>,
    stats: ReceiveStats,
    read_log: ReadLog,
    burst_log: BurstLog,
}

/// What a refill does, seen by the free frames, by what the ring gave and how often it had
/// nothing, and by how often in a row no frame was to be had.
pub open spec fn refilled(
    free_before: Seq<FrameBufMut>,
    free_after: Seq<FrameBufMut>,
    received_before: Seq<FrameDesc>,
    received_after: Seq<FrameDesc>,
    missed_before: int,
    missed_after: int,
    count_before: u32,
    count_after: u32,
    exit: bool,
    b: Backoff,
) -> bool {
    let held = free_before.len() as int;
    let taken = free_after.len() - held;
    &&& free_before.is_prefix_of(free_after)
    &&& received_after == received_before + frames_written(free_after.skip(held))
    &&& taken <= spec_refill_limit(held)
    &&& missed_after == missed_before + (if taken < spec_refill_limit(held) {
        1int
    } else {
        0
    })
    &&& (count_after, b) == spec_backoff(count_before, taken, held + taken, exit)
}

impl<R: PacketRoutingStrategy> RecvTile<R> {
    /// The region that is received into.
    pub closed spec fn spec_shmem_idx(&self) -> usize {
        self.shmem_idx
    }

    /// The frames that can be received into.
    pub closed spec fn free_bufs(&self) -> Seq<FrameBufMut> {
        self.frame_bufs@
    }

    /// The frames that are being received into.
    pub closed spec fn burst(&self) -> Seq<FrameBufMut> {
        self.inflight@
    }

    /// The packets that were received and not handed on yet.
    pub closed spec fn batch(&self) -> Seq<TritonPacket> {
        self.packets@
    }

    /// How many times in a row no frame was to be had.
    pub closed spec fn spec_backoff_count(&self) -> u32 {
        self.empty_fill_backoff
    }

    /// What was received so far.
    pub closed spec fn spec_stats(&self) -> ReceiveStats {
        self.stats
    }

    /// How many packets went to each forwarder.
    pub closed spec fn sent_to(&self) -> Seq<usize> {
        self.dest_dist@
    }

    /// What the receiver saw of its region when it handed packets on.
    pub closed spec fn looks(&self) -> Seq<Snapshot> {
        self.read_log.seen()
    }

    /// The region that the receiver receives into.
    pub closed spec fn home(&self) -> int {
        self.burst_log.region()
    }

    /// What the receiver received into its region.
    pub closed spec fn bursts(&self) -> Seq<Burst> {
        self.burst_log.bursts()
    }

    /// The way in which packets are spread over forwarders.
    pub closed spec fn spec_router(&self) -> R {
        self.router
    }

    /// The receiver holds only frames of its own region, receives only into such
    /// as can take a packet, and never holds more packets than a batch.
    pub closed spec fn wf(&self, sizes: Seq<nat>) -> bool {
        &&& self.shmem_idx < sizes.len()
        &&& bufs_admissible(self.frame_bufs@, sizes, self.shmem_idx as int)
        &&& bufs_admissible(self.inflight@, sizes, self.shmem_idx as int)
        &&& forall|i: int|
            0 <= i < self.inflight@.len() ==> (#[trigger] self.inflight@[i]).spec_desc().frame_size
                >= PACKET_DATA_SIZE
        &&& forall|i: int|
            0 <= i < self.packets@.len() ==> {
                &&& packet_admissible(#[trigger] self.packets@[i], sizes)
                &&& self.packets@[i].frame().shmem_idx == self.shmem_idx
            }
        &&& self.packets@.len() + self.inflight@.len() <= PACKETS_PER_BATCH
        &&& self.labels@.len() == self.dest_dist@.len()
        &&& forall|i: int|
            0 <= i < self.labels@.len() ==> (#[trigger] self.labels@[i])@ == decimal(i as nat)
    }

    /// A receiver into the region `shmem_idx` of `regions` that spreads its
    /// packets over `num_dest` forwarders.
    pub fn new(
        shmem_idx: usize,
        num_dest: usize,
        router: R,
        regions: &Vec<Region>,
        burst_log: BurstLog,
    ) -> (tile: Self)
        requires
            num_dest > 0,
            shmem_idx < regions@.len(),
            burst_log.region() == regions@[shmem_idx as int].id(),
        ensures
            tile.wf(region_sizes(regions@)),
            tile.spec_shmem_idx() == shmem_idx,
            tile.spec_router() == router,
            tile.free_bufs() == Seq::<FrameBufMut>::empty(),
            tile.burst() == Seq::<FrameBufMut>::empty(),
            tile.batch() == Seq::<TritonPacket>::empty(),
            tile.spec_backoff_count() == 0,
            tile.looks() == Seq::<Snapshot>::empty(),
            tile.home() == burst_log.region(),
            tile.bursts() == burst_log.bursts(),
            tile.sent_to() == Seq::new(num_dest as nat, |i: int| 0usize),
            tile.spec_stats() == (ReceiveStats {
                packets_count: 0,
                packet_batches_count: 0,
                full_packet_batches_count: 0,
            }),
    {
        let mut dest_dist: Vec<usize> = Vec::new();
        dest_dist.resize(num_dest, 0);
        assert(dest_dist@ =~= Seq::new(num_dest as nat, |i: int| 0usize));
        RecvTile {
            shmem_idx,
            router,
            labels: queue_labels(num_dest),
            frame_bufs: Vec::with_capacity(PACKETS_PER_BATCH),
            inflight: Vec::new(),
            packets: Vec::with_capacity(PACKETS_PER_BATCH),
            empty_fill_backoff: 0,
            dest_dist,
            stats: ReceiveStats::new(),
            read_log: ReadLog::new(),
            burst_log,
        }
    }

    /// What was received so far.
    pub fn stats(&self) -> (stats: ReceiveStats)
        ensures
            stats == self.spec_stats(),
    {
        self.stats
    }

    /// How many packets went to each forwarder.
    pub fn dest_dist(&self) -> (dist: &Vec<usize>)
        ensures
            dist@ == self.sent_to(),
    {
        &self.dest_dist
    }

    /// How many frames can be received into.
    pub fn free_len(&self) -> (n: usize)
        ensures
            n == self.free_bufs().len(),
    {
        self.frame_bufs.len()
    }

    /// Takes free frames until a batch is at hand or the ring was asked for one
    /// that it did not have, and tells what to do then.
    ///
    /// Which frames are free depends on the forwarders;
    /// [`RingInner::take_ready`](crate::ring::RingInner::take_ready) states what
    /// is taken for every state of the ring, and [`add_frames`] what becomes of it.
    pub fn refill(&mut self, fill_rx: &mut Rx<FrameDesc>, exit: bool, regions: &Vec<Region>) -> (b:
        Backoff)
        requires
            old(self).wf(region_sizes(regions@)),
            old(fill_rx).wf(),
            old(fill_rx).ring().pred().admits == free_frames_of(
                region_sizes(regions@),
                old(self).spec_shmem_idx() as int,
            ),
        ensures
            final(self).wf(region_sizes(regions@)),
            final(fill_rx).wf(),
            final(fill_rx).ring() == old(fill_rx).ring(),
            final(self).spec_shmem_idx() == old(self).spec_shmem_idx(),
            final(self).spec_router() == old(self).spec_router(),
            final(self).home() == old(self).home(),
            final(self).looks() == old(self).looks(),
            final(self).bursts() == old(self).bursts(),
            final(self).burst() == old(self).burst(),
            final(self).batch() == old(self).batch(),
            final(self).sent_to() == old(self).sent_to(),
            final(self).spec_stats() == old(self).spec_stats(),
            refilled(
                old(self).free_bufs(),
                final(self).free_bufs(),
                old(fill_rx).received(),
                final(fill_rx).received(),
                old(fill_rx).missed() as int,
                final(fill_rx).missed() as int,
                old(self).spec_backoff_count(),
                final(self).spec_backoff_count(),
                exit,
                b,
            ),
            old(self).free_bufs().is_prefix_of(final(self).free_bufs()),
            final(fill_rx).received() == old(fill_rx).received() + frames_written(
                final(self).free_bufs().skip(old(self).free_bufs().len() as int),
            ),
            final(self).free_bufs().len() - old(self).free_bufs().len() <= spec_refill_limit(
                old(self).free_bufs().len() as int,
            ),
            final(fill_rx).missed() == old(fill_rx).missed() + (if final(self).free_bufs().len()
                - old(self).free_bufs().len() < spec_refill_limit(
                old(self).free_bufs().len() as int,
            ) {
                1int
            } else {
                0
            }),
            (final(self).spec_backoff_count(), b) == spec_backoff(
                old(self).spec_backoff_count(),
                final(self).free_bufs().len() - old(self).free_bufs().len(),
                final(self).free_bufs().len() as int,
                exit,
            ),
    {
        let ghost sizes = region_sizes(regions@);
        let ghost before = self.frame_bufs@;
        let frames: Vec<FrameDesc> = fill_rx.take_ready(refill_limit(self.frame_bufs.len()));
        let taken: usize = frames.len();
        add_frames(&mut self.frame_bufs, &frames);
        proof {
            let added = self.frame_bufs@.skip(before.len() as int);
            assert(before =~= self.frame_bufs@.take(before.len() as int));
            assert forall|i: int| 0 <= i < self.frame_bufs@.len() implies {
                &&& is_fresh(#[trigger] self.frame_bufs@[i])
                &&& free_frames_of(sizes, self.shmem_idx as int)(self.frame_bufs@[i].spec_desc())
            } by {
                if i < before.len() {
                    assert(self.frame_bufs@[i] == before[i]);
                } else {
                    let k = i - before.len();
                    assert(is_fresh(self.frame_bufs@[before.len() + k]));
                    assert(frames@[k] == self.frame_bufs@[i].spec_desc());
                }
            }
            assert forall|k: int| 0 <= k < frames@.len() implies #[trigger] frames@[k]
                == frames_written(added)[k] by {
                assert(is_fresh(self.frame_bufs@[before.len() + k]));
            }
            assert(frames_written(added) =~= frames@);
        }
        let held: usize = self.frame_bufs.len();
        backoff_after_refill(&mut self.empty_fill_backoff, taken, held, exit)
    }

    /// Sets frames aside for a burst and gives their number: how many packets
    /// the kernel may receive. If one of them has no room for a packet, none is
    /// set aside.
    pub fn begin_burst(&mut self, regions: &Vec<Region>) -> (r: Result<usize, FrameTooSmall>)
        requires
            old(self).wf(region_sizes(regions@)),
            old(self).burst().len() == 0,
        ensures
            final(self).wf(region_sizes(regions@)),
            final(self).spec_shmem_idx() == old(self).spec_shmem_idx(),
            final(self).spec_router() == old(self).spec_router(),
            final(self).home() == old(self).home(),
            final(self).looks() == old(self).looks(),
            final(self).bursts() == old(self).bursts(),
            final(self).batch() == old(self).batch(),
            final(self).sent_to() == old(self).sent_to(),
            final(self).spec_stats() == old(self).spec_stats(),
            final(self).spec_backoff_count() == old(self).spec_backoff_count(),
            burst_begun(
                old(self).free_bufs(),
                final(self).free_bufs(),
                PACKETS_PER_BATCH - old(self).batch().len(),
                match r {
                    Ok(_) => Some(final(self).burst()),
                    Err(_) => None,
                },
            ),
            ({
                let n = old(self).free_bufs().len() as int;
                let wanted = burst_len(n, PACKETS_PER_BATCH - old(self).batch().len());
                match r {
                    Ok(count) => {
                        &&& last_have_room(old(self).free_bufs(), wanted)
                        &&& count == wanted
                        &&& final(self).free_bufs() == old(self).free_bufs().take(n - count)
                        &&& final(self).burst() == old(self).free_bufs().skip(n - count).reverse()
                    },
                    Err(_) => {
                        &&& !last_have_room(old(self).free_bufs(), wanted)
                        &&& final(self).free_bufs() == old(self).free_bufs()
                        &&& final(self).burst() == old(self).burst()
                    },
                }
            }),
    {
        let batch_len: usize = self.packets.len();
        let ghost before = self.frame_bufs@;
        match begin_burst(&mut self.frame_bufs, batch_len, PACKETS_PER_BATCH) {
            Ok(inflight) => {
                self.inflight = inflight;
                assert forall|i: int| 0 <= i < self.inflight@.len() implies {
                    &&& before.contains(#[trigger] self.inflight@[i])
                    &&& self.inflight@[i].spec_desc().frame_size >= PACKET_DATA_SIZE
                } by {
                    let k = before.len() - 1 - i;
                    assert(self.inflight@[i] == before[k]);
                }
                Ok(self.inflight.len())
            },
            Err(e) => Err(e),
        }
    }

    /// Ends a burst: what the kernel received into the frames becomes packets,
    /// and the other frames are free again. Tells whether to receive another.
    ///
    /// What was in the region before depends on the forwarders;
    /// [`BurstLog::complete`] states what becomes of it.
    pub fn complete_burst(
        &mut self,
        regions: &Vec<Region>,
        outcome: Result<Vec<ReceivedMsg>, IoErrorKind>,
    ) -> (step: RecvFromStep)
        requires
            old(self).wf(region_sizes(regions@)),
            old(self).home() == regions@[old(self).spec_shmem_idx() as int].id(),
            outcome matches Ok(msgs) ==> {
                &&& msgs@.len() <= old(self).burst().len()
                &&& forall|i: int|
                    0 <= i < msgs@.len() ==> (#[trigger] msgs@[i]).data@.len() <= PACKET_DATA_SIZE
            },
        ensures
            final(self).wf(region_sizes(regions@)),
            final(self).spec_shmem_idx() == old(self).spec_shmem_idx(),
            final(self).spec_router() == old(self).spec_router(),
            final(self).home() == old(self).home(),
            final(self).looks() == old(self).looks(),
            final(self).bursts() == match outcome {
                Ok(msgs) => old(self).bursts().push(
                    Burst { bufs: old(self).burst(), msgs: msgs@ },
                ),
                Err(_) => old(self).bursts(),
            },
            final(self).sent_to() == old(self).sent_to(),
            final(self).spec_stats() == old(self).spec_stats(),
            final(self).spec_backoff_count() == old(self).spec_backoff_count(),
            final(self).burst().len() == 0,
            packets_taken(
                old(self).burst(),
                outcome,
                old(self).free_bufs(),
                final(self).free_bufs(),
                old(self).batch(),
                final(self).batch(),
            ),
            match outcome {
                Err(_) => {
                    &&& final(self).batch() == old(self).batch()
                    &&& final(self).free_bufs() == old(self).free_bufs() + old(self).burst()
                },
                Ok(msgs) => {
                    let n = msgs@.len() as int;
                    let first = old(self).batch().len() as int;
                    &&& final(self).free_bufs() == old(self).free_bufs() + old(self).burst().skip(n)
                    &&& final(self).batch().len() == first + n
                    &&& old(self).batch().is_prefix_of(final(self).batch())
                    &&& forall|i: int|
                        0 <= i < n ==> is_received(
                            #[trigger] final(self).batch()[first + i],
                            old(self).burst()[i],
                            msgs@[i],
                        )
                },
            },
            step == spec_recv_from_step(
                old(self).batch().len() as int,
                match outcome {
                    Ok(msgs) => Ok::<usize, IoErrorKind>(msgs@.len() as usize),
                    Err(kind) => Err::<usize, IoErrorKind>(kind),
                },
                final(self).free_bufs().len() as int,
                final(self).batch().len() as int,
                PACKETS_PER_BATCH as int,
            ),
    {
        let ghost sizes = region_sizes(regions@);
        let ghost burst = self.inflight@;
        let received: usize = self.packets.len();
        let mut inflight: Vec<FrameBufMut> = Vec::new();
        inflight.append(&mut self.inflight);
        assert(inflight@ =~= burst);
        let (mut bytes, lock) = regions[self.shmem_idx].take();
        let result: Result<usize, IoErrorKind> = self.burst_log.complete(
            &mut bytes,
            inflight,
            outcome,
            &mut self.frame_bufs,
            &mut self.packets,
        );
        lock.release_write(bytes);
        proof {
            let first = old(self).packets@.len() as int;
            assert(old(self).packets@ =~= self.packets@.take(first));
            assert forall|i: int| 0 <= i < self.packets@.len() implies {
                &&& packet_admissible(#[trigger] self.packets@[i], sizes)
                &&& self.packets@[i].frame().shmem_idx == self.shmem_idx
            } by {
                if i < first {
                    assert(self.packets@[i] == old(self).packets@[i]);
                } else {
                    assert(is_received(
                        self.packets@[first + (i - first)],
                        burst[i - first],
                        outcome->Ok_0@[i - first],
                    ));
                }
            }
        }
        let frames_left: usize = self.frame_bufs.len();
        let batch_len: usize = self.packets.len();
        recv_from_step(received, result, frames_left, batch_len, PACKETS_PER_BATCH)
    }

    /// Counts the batch, spreads its packets over the forwarders and sends them.
    /// A queue that has no room ends it with the queue's number.
    ///
    /// The bytes by which packets are spread are those in the region at the time.
    pub fn hand_on(
        &mut self,
        regions: &Vec<Region>,
        packet_tx_vec: &mut Vec<Tx<TritonPacket>>,
        counters: &mut PacketCounters,
    ) -> (r: Result<(), usize>)
        requires
            old(self).wf(region_sizes(regions@)),
            old(packet_tx_vec)@.len() == old(self).sent_to().len(),
            forall|i: int|
                0 <= i < old(packet_tx_vec)@.len() ==> (#[trigger] old(
                    packet_tx_vec,
                )@[i]).ring().pred().admits == packets_in(region_sizes(regions@)),
        ensures
            same_rings(old(packet_tx_vec)@, final(packet_tx_vec)@),
            final(self).wf(region_sizes(regions@)),
            final(self).spec_shmem_idx() == old(self).spec_shmem_idx(),
            final(self).spec_router() == old(self).spec_router(),
            final(self).home() == old(self).home(),
            final(self).bursts() == old(self).bursts(),
            final(self).burst() == old(self).burst(),
            final(self).batch().len() == 0,
            final(self).spec_backoff_count() == old(self).spec_backoff_count(),
            final(self).spec_stats() == old(self).spec_stats().after_batch(
                old(self).batch().len() as usize,
            ),
            ({
                let look = final(self).looks().last();
                let region = regions@[old(self).spec_shmem_idx() as int];
                &&& final(self).looks() == old(self).looks().push(look)
                &&& look.region == region.id()
                &&& look.bytes.len() == region.spec_len()
                &&& handed_on(
                    look.bytes,
                    *old(self),
                    *final(self),
                    old(packet_tx_vec)@,
                    final(packet_tx_vec)@,
                    *old(counters),
                    *final(counters),
                    r,
                )
            }),
    {
        let ghost sizes = region_sizes(regions@);
        let len: usize = self.packets.len();
        self.stats.record_batch(counters, len);
        let ghost batch = self.packets@;
        let ghost num_dest = self.dest_dist@.len() as usize;
        let handle = regions[self.shmem_idx].share();
        let ghost mem = handle@@;
        let bytes: &SharedMem = self.read_log.look(handle.borrow());
        let plan: Vec<(usize, TritonPacket)> = route_batch(
            &mut self.packets,
            bytes,
            &self.router,
            &mut self.dest_dist,
            &mut self.frame_bufs,
            counters,
        );
        handle.release_read();
        let ghost dests = choose|dests: Seq<Option<usize>>| #[trigger]
            routes(batch, mem, &self.router, num_dest, dests) && batch_routed(
                batch,
                dests,
                plan@,
                old(self).dest_dist@,
                self.dest_dist@,
                old(self).frame_bufs@,
                self.frame_bufs@,
                old(counters).routing_drop,
                counters.routing_drop,
            );
        proof {
            let free = unrouted(batch, dests);
            lemma_routed_are_from_batch(batch, dests);
            let held = old(self).frame_bufs@.len() as int;
            assert forall|i: int| 0 <= i < self.frame_bufs@.len() implies {
                &&& is_fresh(#[trigger] self.frame_bufs@[i])
                &&& free_frames_of(sizes, self.shmem_idx as int)(self.frame_bufs@[i].spec_desc())
            } by {
                if i < held {
                    assert(self.frame_bufs@[i] == self.frame_bufs@.take(held)[i]);
                    assert(self.frame_bufs@[i] == old(self).frame_bufs@[i]);
                } else {
                    assert(is_fresh(self.frame_bufs@[held + (i - held)]));
                    assert(frames_of(batch).contains(free[i - held]));
                }
            }
            assert forall|i: int| 0 <= i < plan@.len() implies packet_admissible(
                (#[trigger] plan@[i]).1,
                sizes,
            ) by {
                let k = choose|k: int| 0 <= k < batch.len() && plan@[i].1 == unstaked(#[trigger] batch[k]);
                assert(packet_admissible(batch[k], sizes));
            }
        }
        let ghost txs = packet_tx_vec@;
        let r = send_routed(plan, packet_tx_vec, &self.labels, counters);
        assert(routes(
            old(self).batch(),
            self.looks().last().bytes,
            &old(self).spec_router(),
            old(self).sent_to().len() as usize,
            dests,
        ));
        assert(handed_on_to(
            dests,
            *old(self),
            *self,
            txs,
            packet_tx_vec@,
            *old(counters),
            *counters,
            r,
        ));
        r
    }
}

/// What became of a batch that was handed on while the region held `mem`, where
/// `txs_before` and `txs_after` are the queues: its packets went where the router
/// can send them.
pub open spec fn handed_on<R: PacketRoutingStrategy>(
    mem: Seq<u8>,
    before: RecvTile<R>,
    after: RecvTile<R>,
    txs_before: Seq<Tx<TritonPacket>>,
    txs_after: Seq<Tx<TritonPacket>>,
    counters_before: PacketCounters,
    counters_after: PacketCounters,
    r: Result<(), usize>,
) -> bool {
    exists|dests: Seq<Option<usize>>| #[trigger]
        routes(
            before.batch(),
            mem,
            &before.spec_router(),
            before.sent_to().len() as usize,
            dests,
        ) && handed_on_to(
            dests,
            before,
            after,
            txs_before,
            txs_after,
            counters_before,
            counters_after,
            r,
        )
}

/// What became of a batch whose packets went to `dests`.
pub open spec fn handed_on_to<R: PacketRoutingStrategy>(
    dests: Seq<Option<usize>>,
    before: RecvTile<R>,
    after: RecvTile<R>,
    txs_before: Seq<Tx<TritonPacket>>,
    txs_after: Seq<Tx<TritonPacket>>,
    counters_before: PacketCounters,
    counters_after: PacketCounters,
    r: Result<(), usize>,
) -> bool {
    let plan = routed(before.batch(), dests);
    &&& batch_routed(
        before.batch(),
        dests,
        plan,
        before.sent_to(),
        after.sent_to(),
        before.free_bufs(),
        after.free_bufs(),
        counters_before.routing_drop,
        counters_after.routing_drop,
    )
    &&& counters_after == (PacketCounters {
        packets_received: saturated_sum(
            counters_before.packets_received,
            before.batch().len() as u64,
        ),
        routing_drop: counters_after.routing_drop,
        routing_send: counters_after.routing_send,
        ..counters_before
    })
    &&& plan_done(
        txs_before,
        txs_after,
        counters_before.routing_send,
        counters_after.routing_send,
        plan,
        r,
    )
}

/// What is routed, and what is not, comes from the batch.
proof fn lemma_routed_are_from_batch(packets: Seq<TritonPacket>, dests: Seq<Option<usize>>)
    ensures
        forall|i: int|
            0 <= i < routed(packets, dests).len() ==> exists|k: int|
                0 <= k < packets.len() && (#[trigger] routed(packets, dests)[i]).1
                    == unstaked(#[trigger] packets[k]),
        forall|i: int|
            0 <= i < unrouted(packets, dests).len() ==> frames_of(
                packets,
            ).contains(#[trigger] unrouted(packets, dests)[i]),
    decreases packets.len(),
{
    if packets.len() > 0 {
        let rest = packets.drop_last();
        lemma_routed_are_from_batch(rest, dests.drop_last());
        let before = routed(rest, dests.drop_last());
        let now = routed(packets, dests);
        assert forall|i: int| 0 <= i < now.len() implies exists|k: int|
            0 <= k < packets.len() && (#[trigger] now[i]).1 == unstaked(#[trigger] packets[k]) by {
            if i < before.len() {
                assert(now[i] == before[i]);
                let k = choose|k: int|
                    0 <= k < rest.len() && before[i].1 == unstaked(#[trigger] rest[k]);
                assert(rest[k] == packets[k]);
            } else {
                assert(now[i].1 == unstaked(packets[packets.len() - 1]));
            }
        }
        let before = unrouted(rest, dests.drop_last());
        let now = unrouted(packets, dests);
        assert forall|i: int| 0 <= i < now.len() implies frames_of(packets).contains(
            #[trigger] now[i],
        ) by {
            if i < before.len() {
                assert(now[i] == before[i]);
                let k = frames_of(rest).index_of(before[i]);
                assert(frames_of(packets)[k] == frames_of(rest)[k]);
            } else {
                assert(frames_of(packets)[packets.len() - 1] == now[i]);
            }
        }
    }
}

} // verus!
