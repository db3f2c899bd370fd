//! Forwarding packets: dropping duplicates, building batches to send, and giving
//! the frames back.
//!
//! The forwarder itself owns a socket and runs until it is told to stop. What it
//! does with the packets in between stands here, as methods of [`FwdTile`].

use std::collections::VecDeque;

use solana_perf::deduper::Deduper;
use vstd::prelude::*;
use vstd::rwlock::ReadHandle;
use vstd::slice::slice_subrange;

use crate::addr::SocketAddress;
use crate::mem::{FrameBuf, FrameDesc, SharedMem};
use crate::packet::TritonPacket;
use crate::pool::{
    frame_admissible, frames_of, free_frames_of, packet_admissible, packets_in, region_sizes,
};
use crate::prom::{
    inc_packets_deduped, inc_packets_forward_failed, saturated_sum, PacketCounters,
};
use crate::region::{Region, RegionPredicate};
use crate::region_log::{ReadLog, RegionBytes, Snapshot};
use crate::ring_handle::{all_refused, all_sent, same_rings, Rx, Tx};
use crate::text::{count_message, count_text};

verus! {

/// The size of the filter that finds duplicates: 76 MB.
pub const DEDUPER_NUM_BITS: u64 = 637_534_199;

/// How many messages one call of the kernel sends at most.
pub const UIO_MAXIOV: usize = 1024;

/// `solana_perf::deduper::Deduper`: a Bloom filter over byte strings.
#[verifier::external_type_specification]
#[verifier::external_body]
#[verifier::reject_recursive_types(T)]
pub struct ExDeduper<const K: usize, T: ?Sized>(Deduper<K, T>);

/// The byte strings that a filter takes for duplicates: those of which it holds
/// all bits. What it was asked about is among them until it is reset.
pub uninterp spec fn recorded(deduper: Deduper<2, [u8]>) -> Set<Seq<u8>>;

/// How many bits a filter was made with.
pub uninterp spec fn filter_bits(deduper: Deduper<2, [u8]>) -> nat;

/// `Deduper::new`, seeded by chance. Trusted: the filter has as many bits as it
/// was asked for and takes nothing for a duplicate. The seed is left unsaid: it
/// differs from call to call.
#[verifier::external_body]
fn new_deduper(num_bits: u64) -> (deduper: Deduper<2, [u8]>)
    requires
        0 < num_bits <= 0xffff_ffff,
    ensures
        recorded(deduper) == Set::<Seq<u8>>::empty(),
        filter_bits(deduper) == num_bits,
{
    Deduper::<2, [u8]>::new(&mut rand::thread_rng(), num_bits)
}

/// `Deduper::dedup`, which tells whether `data` is a duplicate and records it.
/// Trusted: `data` is a duplicate exactly when the filter held all of its bits;
/// afterwards it holds them, and none that it held is lost. A duplicate changes
/// nothing. Which other strings become duplicates is left unsaid: it depends on
/// the seed.
#[verifier::external_body]
fn dedup(deduper: &mut Deduper<2, [u8]>, data: &[u8]) -> (duplicate: bool)
    requires
        filter_bits(*old(deduper)) > 0,
    ensures
        duplicate == recorded(*old(deduper)).contains(data@),
        recorded(*old(deduper)).insert(data@).subset_of(recorded(*final(deduper))),
        duplicate ==> recorded(*final(deduper)) == recorded(*old(deduper)),
        filter_bits(*final(deduper)) == filter_bits(*old(deduper)),
{
    deduper.dedup(data)
}

/// What is wrong with so many destinations, if anything.
pub open spec fn dest_count_error(dests_len: nat) -> Option<Seq<char>> {
    if dests_len <= UIO_MAXIOV {
        None
    } else {
        Some(
            count_text(
                "number of destinations ("@,
                dests_len,
                ") cannot be greater than UIO_MAXIOV ("@,
                UIO_MAXIOV as nat,
            ),
        )
    }
}

/// Whether every packet can be sent to this many destinations in one batch; else
/// what is told to a user.
pub fn check_dest_count(dests_len: usize) -> (r: Result<(), String>)
    ensures
        r is Ok <==> dest_count_error(dests_len as nat) is None,
        r matches Err(m) ==> dest_count_error(dests_len as nat) == Some(m@),
        dests_len <= UIO_MAXIOV ==> r is Ok,
        dests_len > UIO_MAXIOV ==> (r matches Err(m) && m@ == count_text(
            "number of destinations ("@,
            dests_len as nat,
            ") cannot be greater than UIO_MAXIOV ("@,
            UIO_MAXIOV as nat,
        )),
{
    if dests_len <= UIO_MAXIOV {
        Ok(())
    } else {
        Err(
            count_message(
                "number of destinations (",
                dests_len,
                ") cannot be greater than UIO_MAXIOV (",
                UIO_MAXIOV,
            ),
        )
    }
}

/// Adds a message for each of `dests` that sends `packet` there.
fn push_copies(
    batch: &mut Vec<(FrameBuf, SocketAddress)>,
    packet: &TritonPacket,
    dests: &Vec<SocketAddress>,
)
    requires
        packet.meta.size <= packet.buffer.end() - packet.buffer.start(),
    ensures
        final(batch)@.len() == old(batch)@.len() + dests@.len(),
        messages(final(batch)@) == messages(old(batch)@) + dests@.map_values(
            |dest: SocketAddress| outgoing(*packet, dest),
        ),
{
    let ghost before = batch@;
    let ghost copies = dests@.map_values(|dest: SocketAddress| outgoing(*packet, dest));
    let mut j: usize = 0;
    while j < dests.len()
        invariant
            j <= dests@.len(),
            packet.meta.size <= packet.buffer.end() - packet.buffer.start(),
            copies == dests@.map_values(|dest: SocketAddress| outgoing(*packet, dest)),
            batch@.len() == before.len() + j,
            messages(batch@) =~= messages(before) + copies.take(j as int),
        decreases dests.len() - j,
    {
        let ghost so_far = batch@;
        let buf: FrameBuf = packet.buffer.subslice_clone(0, packet.meta.size);
        batch.push((buf, dests[j]));
        assert(messages(batch@) =~= messages(so_far).push(messages(batch@).last()));
        assert(messages(batch@).last() == copies[j as int]);
        j += 1;
    }
    assert(copies.take(j as int) =~= copies);
}

/// What a forwarder has sent. The numbers wrap around.
#[derive(Debug, Clone, Copy, PartialEq, Eq, Structural)]
pub struct ForwardStats {
    pub duplicate: u64,
    pub send_batch_count: u64,
    pub send_batch_size_sum: u64,
    /// In microseconds.
    pub batch_send_time_spent: u64,
}

impl ForwardStats {
    /// Nothing was sent yet.
    pub open spec fn spec_new() -> Self {
        ForwardStats {
            duplicate: 0,
            send_batch_count: 0,
            send_batch_size_sum: 0,
            batch_send_time_spent: 0,
        }
    }
}

/// One message of a batch: the bytes from `start` to `end` of the frame's region
/// go to `dest`.
pub struct Outgoing {
    pub start: int,
    pub end: int,
    pub frame: FrameDesc,
    pub dest: SocketAddress,
}

impl Outgoing {
    /// The bytes that are sent, in a region that holds `mem`.
    pub open spec fn bytes(self, mem: Seq<u8>) -> Seq<u8> {
        mem.subrange(self.start, self.end)
    }

    /// The bytes that are sent lie within an admissible frame.
    pub open spec fn admissible(self, sizes: Seq<nat>) -> bool {
        &&& frame_admissible(self.frame, sizes)
        &&& self.frame.ptr <= self.start <= self.end <= self.frame.ptr + self.frame.frame_size
    }
}

/// The message that sends `packet` to `dest`.
pub open spec fn outgoing(packet: TritonPacket, dest: SocketAddress) -> Outgoing {
    Outgoing {
        start: packet.buffer.start(),
        end: packet.buffer.start() + packet.meta.size,
        frame: packet.frame(),
        dest,
    }
}

/// Each of `packets` to each of `dests`, in the order of the packets.
pub open spec fn fan_out(packets: Seq<TritonPacket>, dests: Seq<SocketAddress>) -> Seq<Outgoing>
    decreases packets.len(),
{
    if packets.len() == 0 {
        seq![]
    } else {
        fan_out(packets.drop_last(), dests) + dests.map_values(
            |dest: SocketAddress| outgoing(packets.last(), dest),
        )
    }
}

/// The messages that a batch holds.
pub open spec fn messages(batch: Seq<(FrameBuf, SocketAddress)>) -> Seq<Outgoing> {
    batch.map_values(
        |m: (FrameBuf, SocketAddress)|
            Outgoing { start: m.0.start(), end: m.0.end(), frame: m.0.spec_desc(), dest: m.1 },
    )
}

/// How many of `queued` packets a batch takes: as many as can each be sent to
/// all of `dests` destinations.
pub open spec fn batch_packets(queued: nat, dests: nat) -> nat {
    if dests == 0 || queued < UIO_MAXIOV as nat / dests {
        queued
    } else {
        UIO_MAXIOV as nat / dests
    }
}

/// What a forwarder holds, seen from outside.
#[verifier::ext_equal]
pub struct FwdState {
    /// The packets to be sent, from oldest to newest.
    pub queued: Seq<TritonPacket>,
    /// The batch that was built last.
    pub batch: Seq<Outgoing>,
    /// The frames of batches that are being sent.
    pub sending: Seq<FrameDesc>,
    /// The frames to be given back.
    pub recycled: Seq<FrameDesc>,
    pub stats: ForwardStats,
}

impl FwdState {
    /// After a packet came in that is a duplicate, or is not.
    pub open spec fn take_in(self, packet: TritonPacket, duplicate: bool) -> Self {
        if duplicate {
            FwdState {
                recycled: self.recycled.push(packet.frame()),
                stats: ForwardStats {
                    duplicate: self.stats.duplicate.wrapping_add(1),
                    ..self.stats
                },
                ..self
            }
        } else {
            FwdState { queued: self.queued.push(packet), ..self }
        }
    }

    /// After a batch was built from the oldest packets, if there are any. Their
    /// frames can be given back at once only if there is nothing to be sent.
    pub open spec fn start_batch(self, dests: Seq<SocketAddress>) -> Self {
        let n = batch_packets(self.queued.len(), dests.len()) as int;
        let batch = fan_out(self.queued.take(n), dests);
        let frames = frames_of(self.queued.take(n));
        if self.queued.len() == 0 {
            self
        } else if batch.len() == 0 {
            FwdState {
                queued: self.queued.skip(n),
                batch,
                recycled: self.recycled + frames,
                ..self
            }
        } else {
            FwdState {
                queued: self.queued.skip(n),
                batch,
                sending: self.sending + frames,
                ..self
            }
        }
    }

    /// After the sending of the batch ended: it was sent within so many
    /// microseconds, or so many of its messages were not. Either way the frames
    /// can be given back.
    pub open spec fn finish_batch(self, outcome: Result<u64, usize>) -> Self {
        FwdState {
            sending: seq![],
            recycled: self.recycled + self.sending,
            stats: match outcome {
                Ok(micros) => ForwardStats {
                    batch_send_time_spent: self.stats.batch_send_time_spent.wrapping_add(micros),
                    send_batch_count: self.stats.send_batch_count.wrapping_add(1),
                    send_batch_size_sum: self.stats.send_batch_size_sum.wrapping_add(
                        self.batch.len() as u64,
                    ),
                    ..self.stats
                },
                Err(_) => self.stats,
            },
            ..self
        }
    }

    /// Every frame lies within its region, and every packet and message within
    /// its frame.
    pub open spec fn admissible(self, sizes: Seq<nat>) -> bool {
        &&& forall|i: int|
            0 <= i < self.queued.len() ==> packet_admissible(#[trigger] self.queued[i], sizes)
        &&& forall|i: int|
            0 <= i < self.sending.len() ==> frame_admissible(#[trigger] self.sending[i], sizes)
        &&& forall|i: int|
            0 <= i < self.recycled.len() ==> frame_admissible(#[trigger] self.recycled[i], sizes)
        &&& forall|i: int|
            0 <= i < self.batch.len() ==> (#[trigger] self.batch[i]).admissible(sizes)
    }

    /// Nothing is left to be done.
    pub open spec fn is_idle(self) -> bool {
        &&& self.queued.len() == 0
        &&& self.batch.len() == 0
        &&& self.sending.len() == 0
        &&& self.recycled.len() == 0
    }
}

/// A forwarder.
pub struct FwdTile {
    deduper: Deduper<2, [u8]>,
    queued: VecDeque<TritonPacket>,
    next_batch: Vec<(FrameBuf, SocketAddress)>,
    sending: Vec<FrameDesc>,
    recycled: Vec<FrameDesc>,
    stats: ForwardStats,
    read_log: ReadLog,
}

impl View for FwdTile {
    type V = FwdState;

    closed spec fn view(&self) -> FwdState {
        FwdState {
            queued: self.queued@,
            batch: messages(self.next_batch@),
            sending: self.sending@,
            recycled: self.recycled@,
            stats: self.stats,
        }
    }
}

impl FwdTile {
    /// The payloads that count as duplicates.
    pub closed spec fn seen(&self) -> Set<Seq<u8>> {
        recorded(self.deduper)
    }

    /// How many bits the filter has.
    pub closed spec fn filter_size(&self) -> nat {
        filter_bits(self.deduper)
    }

    /// What the forwarder saw of regions.
    pub closed spec fn looks(&self) -> Seq<Snapshot> {
        self.read_log.seen()
    }

    /// The filter works, and every queued packet is no larger than what was
    /// written for it.
    pub closed spec fn wf(&self) -> bool {
        &&& filter_bits(self.deduper) > 0
        &&& forall|i: int|
            0 <= i < self.queued@.len() ==> (#[trigger] self.queued@[i]).meta.size
                <= self.queued@[i].buffer.end() - self.queued@[i].buffer.start()
    }

    /// A forwarder that has seen nothing.
    pub fn new() -> (tile: Self)
        ensures
            tile.wf(),
            tile.seen() == Set::<Seq<u8>>::empty(),
            tile.looks() == Seq::<Snapshot>::empty(),
            tile.filter_size() == 637_534_199,
            tile@ == (FwdState {
                queued: seq![],
                batch: seq![],
                sending: seq![],
                recycled: seq![],
                stats: ForwardStats::spec_new(),
            }),
    {
        let tile = FwdTile {
            deduper: new_deduper(DEDUPER_NUM_BITS),
            queued: VecDeque::with_capacity(UIO_MAXIOV),
            next_batch: Vec::with_capacity(UIO_MAXIOV),
            sending: Vec::new(),
            recycled: Vec::new(),
            stats: ForwardStats {
                duplicate: 0,
                send_batch_count: 0,
                send_batch_size_sum: 0,
                batch_send_time_spent: 0,
            },
            read_log: ReadLog::new(),
        };
        assert(tile@.batch =~= seq![]);
        tile
    }

    /// How many packets are queued.
    pub fn queued_len(&self) -> (n: usize)
        ensures
            n == self@.queued.len(),
    {
        self.queued.len()
    }

    /// Takes in a packet of which it is known whether it is a duplicate. The
    /// frame of a duplicate is given back.
    pub fn take_in(&mut self, packet: TritonPacket, duplicate: bool, counters: &mut PacketCounters)
        requires
            old(self).wf(),
            packet.meta.size <= packet.buffer.end() - packet.buffer.start(),
        ensures
            final(self).wf(),
            final(self).seen() == old(self).seen(),
            final(self).looks() == old(self).looks(),
            final(self)@ == old(self)@.take_in(packet, duplicate),
            *final(counters) == (PacketCounters {
                packets_deduped: saturated_sum(
                    old(counters).packets_deduped,
                    if duplicate {
                        1
                    } else {
                        0
                    },
                ),
                ..*old(counters)
            }),
    {
        if duplicate {
            self.recycled.push(packet.buffer.into_inner());
            self.stats.duplicate = self.stats.duplicate.wrapping_add(1);
            inc_packets_deduped(counters, 1);
        } else {
            self.queued.push_back(packet);
        }
        assert(self@ =~= old(self)@.take_in(packet, duplicate));
    }

    /// Takes in a packet whose bytes are in `mem`. It is queued unless the
    /// filter takes it for a duplicate, which it does from then on with the
    /// same payload. Tells whether it did.
    pub fn accept(
        &mut self,
        packet: TritonPacket,
        mem: &SharedMem,
        counters: &mut PacketCounters,
    ) -> (duplicate: bool)
        requires
            old(self).wf(),
            packet.meta.size <= packet.buffer.end() - packet.buffer.start(),
            packet.buffer.end() <= mem@.len(),
        ensures
            final(self).wf(),
            final(self).looks() == old(self).looks(),
            duplicate == old(self).seen().contains(packet.payload(mem@)),
            old(self).seen().insert(packet.payload(mem@)).subset_of(final(self).seen()),
            duplicate ==> final(self).seen() == old(self).seen(),
            final(self)@ == old(self)@.take_in(packet, duplicate),
            *final(counters) == (PacketCounters {
                packets_deduped: saturated_sum(
                    old(counters).packets_deduped,
                    if duplicate {
                        1
                    } else {
                        0
                    },
                ),
                ..*old(counters)
            }),
    {
        let data_size: usize = packet.meta.size;
        let data_slice: &[u8] = slice_subrange(packet.buffer.chunk(mem), 0, data_size);
        assert(data_slice@ =~= packet.payload(mem@));
        let duplicate: bool = dedup(&mut self.deduper, data_slice);
        self.take_in(packet, duplicate, counters);
        duplicate
    }

    /// Builds the next batch: the oldest packets, as many as can each be sent to
    /// all of `dests`. Their frames can be given back once the batch was sent. A
    /// batch of nothing, or no packet to build one from, gives `false`.
    pub fn start_batch(&mut self, dests: &Vec<SocketAddress>) -> (ready: bool)
        requires
            old(self).wf(),
            dests@.len() <= UIO_MAXIOV,
        ensures
            final(self).wf(),
            final(self).seen() == old(self).seen(),
            final(self).looks() == old(self).looks(),
            final(self)@ == old(self)@.start_batch(dests@),
            ready == (old(self)@.queued.len() > 0 && final(self)@.batch.len() > 0),
    {
        if self.queued.len() == 0 {
            return false;
        }
        let ghost queued = self.queued@;
        let mut frames: Vec<FrameDesc> = Vec::new();
        let d: usize = dests.len();
        let ghost mut done: int = 0;
        self.next_batch.clear();
        proof {
            assert(queued.take(0) =~= seq![]);
            assert(queued.skip(0) =~= queued);
            assert(messages(self.next_batch@) =~= seq![]);
            assert(frames_of(queued.take(0)) =~= seq![]);
            assert(0 * d == 0);
        }
        while self.next_batch.len() < UIO_MAXIOV && self.queued.len() > 0
            invariant
                d == dests@.len(),
                d <= UIO_MAXIOV,
                self.wf(),
                self.deduper == old(self).deduper,
                self.stats == old(self).stats,
                self.read_log == old(self).read_log,
                self.sending == old(self).sending,
                self.recycled == old(self).recycled,
                0 <= done <= queued.len(),
                self.queued@ =~= queued.skip(done),
                frames@ =~= frames_of(queued.take(done)),
                messages(self.next_batch@) =~= fan_out(queued.take(done), dests@),
                self.next_batch@.len() == done * d,
                done * d <= UIO_MAXIOV,
            ensures
                done == queued.len() || done * d == UIO_MAXIOV || (done + 1) * d > UIO_MAXIOV,
            decreases self.queued.len(),
        {
            let remaining: usize = UIO_MAXIOV - self.next_batch.len();
            if d > remaining {
                assert((done + 1) * d == done * d + d) by (nonlinear_arith);
                break ;
            }
            let ghost batch = self.next_batch@;
            let popped = self.queued.pop_front();
            assert(popped is Some);
            if let Some(packet) = popped {
                assert(packet == queued[done]);
                frames.push(packet.buffer.detach_desc());
                push_copies(&mut self.next_batch, &packet, dests);
                proof {
                    done = done + 1;
                    assert(done * d == (done - 1) * d + d) by (nonlinear_arith);
                    assert(queued.take(done).drop_last() =~= queued.take(done - 1));
                }
            }
        }
        proof {
            lemma_batch_packets(queued.len(), d as nat, done as nat);
        }
        let ready: bool = self.next_batch.len() > 0;
        if ready {
            self.sending.append(&mut frames);
        } else {
            self.recycled.append(&mut frames);
        }
        assert(self@ =~= old(self)@.start_batch(dests@));
        ready
    }
}

impl FwdTile {
    /// Ends the sending of the batch: it was sent within so many microseconds, or
    /// so many of its messages were not. Either way its frames can be given back.
    pub fn finish_batch(&mut self, outcome: Result<u64, usize>, counters: &mut PacketCounters)
        requires
            old(self).wf(),
        ensures
            final(self).wf(),
            final(self).seen() == old(self).seen(),
            final(self).looks() == old(self).looks(),
            final(self)@ == old(self)@.finish_batch(outcome),
            *final(counters) == (PacketCounters {
                packets_forward_failed: saturated_sum(
                    old(counters).packets_forward_failed,
                    match outcome {
                        Ok(_) => 0,
                        Err(num_failed) => num_failed as u64,
                    },
                ),
                ..*old(counters)
            }),
    {
        self.recycled.append(&mut self.sending);
        match outcome {
            Ok(micros) => {
                self.stats.batch_send_time_spent = self.stats.batch_send_time_spent.wrapping_add(
                    micros,
                );
                self.stats.send_batch_count = self.stats.send_batch_count.wrapping_add(1);
                self.stats.send_batch_size_sum = self.stats.send_batch_size_sum.wrapping_add(
                    self.next_batch.len() as u64,
                );
            },
            Err(num_failed) => {
                inc_packets_forward_failed(counters, num_failed as u64);
            },
        }
        assert(self@ =~= old(self)@.finish_batch(outcome));
    }

    /// What was sent so far.
    pub fn stats(&self) -> (stats: ForwardStats)
        ensures
            stats == self@.stats,
    {
        self.stats
    }

    /// The number of messages in the batch that was built last.
    pub fn batch_len(&self) -> (n: usize)
        ensures
            n == self@.batch.len(),
    {
        self.next_batch.len()
    }

    /// The next frame to be given back: the one that was done with last.
    pub fn next_recycled(&mut self) -> (r: Option<FrameDesc>)
        requires
            old(self).wf(),
        ensures
            final(self).wf(),
            final(self).seen() == old(self).seen(),
            final(self).looks() == old(self).looks(),
            match r {
                Some(frame) => {
                    &&& old(self)@.recycled.len() > 0
                    &&& frame == old(self)@.recycled.last()
                    &&& final(self)@ == (FwdState {
                        recycled: old(self)@.recycled.drop_last(),
                        ..old(self)@
                    })
                },
                None => old(self)@.recycled.len() == 0 && final(self)@ == old(self)@,
            },
    {
        self.recycled.pop()
    }

    /// Whether nothing is left to be done. The batch that was sent last counts
    /// until another one is built.
    pub fn is_idle(&self) -> (b: bool)
        ensures
            b == self@.is_idle(),
    {
        self.queued.len() == 0 && self.next_batch.len() == 0 && self.sending.len() == 0
            && self.recycled.len() == 0
    }

    /// The filter, for whoever resets it from time to time.
    pub fn deduper_mut(&mut self) -> (deduper: &mut Deduper<2, [u8]>)
        requires
            old(self).wf(),
        ensures
            recorded(*deduper) == old(self).seen(),
            final(self)@ == old(self)@,
            final(self).looks() == old(self).looks(),
            final(self).seen() == recorded(*final(deduper)),
            filter_bits(*final(deduper)) == filter_bits(*deduper) ==> final(self).wf(),
    {
        &mut self.deduper
    }
}

/// A forwarder took in `packet`, whose payload was `payload`: as a duplicate exactly
/// if the filter had it.
pub open spec fn accepted(
    before: FwdTile,
    after: FwdTile,
    packet: TritonPacket,
    payload: Seq<u8>,
    counters_before: PacketCounters,
    counters_after: PacketCounters,
) -> bool {
    let duplicate = before.seen().contains(payload);
    &&& after@ == before@.take_in(packet, duplicate)
    &&& before.seen().insert(payload).subset_of(after.seen())
    &&& duplicate ==> after.seen() == before.seen()
    &&& counters_after == (PacketCounters {
        packets_deduped: saturated_sum(
            counters_before.packets_deduped,
            if duplicate {
                1
            } else {
                0
            },
        ),
        ..counters_before
    })
}

/// A forwarder looked at the region of `packet` and took the packet in with the
/// payload that it saw there.
pub open spec fn looked_and_accepted(
    before: FwdTile,
    after: FwdTile,
    packet: TritonPacket,
    regions: Seq<Region>,
    counters_before: PacketCounters,
    counters_after: PacketCounters,
) -> bool {
    let look = after.looks().last();
    let region = regions[packet.frame().shmem_idx as int];
    &&& after.looks() == before.looks().push(look)
    &&& look.region == region.id()
    &&& look.bytes.len() == region.spec_len()
    &&& accepted(
        before,
        after,
        packet,
        packet.payload(look.bytes),
        counters_before,
        counters_after,
    )
}

/// One look at each of `regions` was added, in their order.
pub open spec fn looked_at_all(
    before: Seq<Snapshot>,
    after: Seq<Snapshot>,
    regions: Seq<Region>,
) -> bool {
    &&& after.len() == before.len() + regions.len()
    &&& before.is_prefix_of(after)
    &&& forall|i: int|
        0 <= i < regions.len() ==> {
            &&& (#[trigger] after[before.len() + i]).region == regions[i].id()
            &&& after[before.len() + i].bytes.len() == regions[i].spec_len()
        }
}

/// What an attempt to take in the next packet does, seen by what the ring gave and how
/// often it had nothing.
pub open spec fn drained_one(
    before: FwdTile,
    after: FwdTile,
    received_before: Seq<TritonPacket>,
    received_after: Seq<TritonPacket>,
    missed_before: int,
    missed_after: int,
    regions: Seq<Region>,
    counters_before: PacketCounters,
    counters_after: PacketCounters,
    took: bool,
) -> bool {
    if took {
        &&& before@.queued.len() < UIO_MAXIOV
        &&& received_after == received_before.push(received_after.last())
        &&& missed_after == missed_before
        &&& looked_and_accepted(
            before,
            after,
            received_after.last(),
            regions,
            counters_before,
            counters_after,
        )
    } else {
        &&& received_after == received_before
        &&& missed_after == missed_before + (if before@.queued.len() < UIO_MAXIOV {
            1int
        } else {
            0
        })
        &&& after@ == before@
        &&& after.seen() == before.seen()
        &&& counters_after == counters_before
    }
}

/// What giving the frames `recycled` back does, of which `left` are left, seen by what was
/// sent into each ring and what each ring refused.
pub open spec fn frames_returned(
    recycled: Seq<FrameDesc>,
    left: int,
    sent_before: Seq<Seq<FrameDesc>>,
    sent_after: Seq<Seq<FrameDesc>>,
    refused_before: Seq<Seq<FrameDesc>>,
    refused_after: Seq<Seq<FrameDesc>>,
    r: Result<(), FrameDesc>,
) -> bool {
    match r {
        Ok(_) => {
            &&& left == 0
            &&& all_given_back(sent_before, sent_after, recycled)
            &&& refused_after == refused_before
        },
        Err(frame) => {
            &&& 0 <= left < recycled.len()
            &&& frame == recycled[left]
            &&& all_given_back(sent_before, sent_after, recycled.skip(left + 1))
            &&& refused_after == refused_before.update(
                frame.shmem_idx as int,
                refused_before[frame.shmem_idx as int].push(frame),
            )
        },
    }
}

/// The forwarder at work, between the rings it shares with others.
impl FwdTile {
    /// Takes in what came from the receivers: a packet or none. Tells which.
    ///
    /// The payload is what the packet's region holds at the time;
    /// [`accept`](Self::accept) states it for given bytes.
    pub fn accept_next(
        &mut self,
        received: Option<TritonPacket>,
        regions: &Vec<Region>,
        counters: &mut PacketCounters,
    ) -> (took: bool)
        requires
            old(self).wf(),
            old(self)@.admissible(region_sizes(regions@)),
            received matches Some(packet) ==> packet_admissible(packet, region_sizes(regions@)),
        ensures
            final(self).wf(),
            final(self)@.admissible(region_sizes(regions@)),
            took == received is Some,
            match received {
                Some(packet) => looked_and_accepted(
                    *old(self),
                    *final(self),
                    packet,
                    regions@,
                    *old(counters),
                    *final(counters),
                ),
                None => {
                    &&& final(self).looks() == old(self).looks()
                    &&& final(self)@ == old(self)@
                    &&& final(self).seen() == old(self).seen()
                    &&& *final(counters) == *old(counters)
                },
            },
    {
        let ghost sizes = region_sizes(regions@);
        match received {
            None => false,
            Some(packet) => {
                let idx: usize = packet.buffer.shmem_idx();
                assert(sizes[idx as int] == regions@[idx as int].spec_len());
                let handle = regions[idx].share();
                let bytes: &SharedMem = self.read_log.look(handle.borrow());
                self.accept(packet, bytes, counters);
                handle.release_read();
                true
            },
        }
    }

    /// Takes in the next packet, unless enough are queued or the ring was asked for
    /// one and had none. Tells whether it took one.
    ///
    /// Which packet is waiting, if any, depends on the receivers;
    /// [`accept_next`](Self::accept_next) states what comes of either.
    pub fn drain_one(
        &mut self,
        packet_rx: &mut Rx<TritonPacket>,
        regions: &Vec<Region>,
        counters: &mut PacketCounters,
    ) -> (took: bool)
        requires
            old(self).wf(),
            old(self)@.admissible(region_sizes(regions@)),
            old(packet_rx).wf(),
            old(packet_rx).ring().pred().admits == packets_in(region_sizes(regions@)),
        ensures
            final(self).wf(),
            final(self)@.admissible(region_sizes(regions@)),
            final(packet_rx).wf(),
            final(packet_rx).ring() == old(packet_rx).ring(),
            drained_one(
                *old(self),
                *final(self),
                old(packet_rx).received(),
                final(packet_rx).received(),
                old(packet_rx).missed() as int,
                final(packet_rx).missed() as int,
                regions@,
                *old(counters),
                *final(counters),
                took,
            ),
            took ==> old(self)@.queued.len() < UIO_MAXIOV,
            took ==> {
                let packet = final(packet_rx).received().last();
                &&& final(packet_rx).received() == old(packet_rx).received().push(packet)
                &&& final(packet_rx).missed() == old(packet_rx).missed()
                &&& packet_admissible(packet, region_sizes(regions@))
                &&& looked_and_accepted(
                    *old(self),
                    *final(self),
                    packet,
                    regions@,
                    *old(counters),
                    *final(counters),
                )
            },
            !took ==> {
                &&& final(self).looks() == old(self).looks()
                &&& final(packet_rx).received() == old(packet_rx).received()
                &&& final(packet_rx).missed() == old(packet_rx).missed() + (if old(
                    self,
                )@.queued.len() < UIO_MAXIOV {
                    1int
                } else {
                    0
                })
                &&& final(self)@ == old(self)@
                &&& final(self).seen() == old(self).seen()
                &&& *final(counters) == *old(counters)
            },
    {
        if self.queued.len() >= UIO_MAXIOV {
            return false;
        }
        let received: Option<TritonPacket> = packet_rx.try_recv();
        self.accept_next(received, regions, counters)
    }

    /// A copy of the `i`-th message of the batch that was built last, whose bytes
    /// are in `mem`, with where it goes.
    pub fn copy_message(&self, i: usize, mem: &SharedMem) -> (copy: (Vec<u8>, SocketAddress))
        requires
            i < self@.batch.len(),
            self@.batch[i as int].end <= mem@.len(),
        ensures
            copy.0@ == self@.batch[i as int].bytes(mem@),
            copy.0@.len() == self@.batch[i as int].end - self@.batch[i as int].start,
            copy.1 == self@.batch[i as int].dest,
    {
        let bytes: Vec<u8> = self.next_batch[i].0.to_vec(mem);
        (bytes, self.next_batch[i].1)
    }

    /// A copy of each message of the batch that was built last, with where it goes,
    /// in the order of the batch. The bytes of the regions are in `mems`.
    pub fn copy_messages(&self, mems: &Vec<&SharedMem>) -> (copies: Vec<(Vec<u8>, SocketAddress)>)
        requires
            forall|i: int|
                0 <= i < self@.batch.len() ==> {
                    &&& (#[trigger] self@.batch[i]).frame.shmem_idx < mems@.len()
                    &&& self@.batch[i].end <= mems@[self@.batch[i].frame.shmem_idx as int]@.len()
                },
        ensures
            copies@.len() == self@.batch.len(),
            forall|i: int|
                0 <= i < copies@.len() ==> {
                    let mem = mems@[self@.batch[i].frame.shmem_idx as int];
                    &&& (#[trigger] copies@[i]).0@ == self@.batch[i].bytes(mem@)
                    &&& copies@[i].0@.len() == self@.batch[i].end - self@.batch[i].start
                    &&& copies@[i].1 == self@.batch[i].dest
                },
    {
        let mut copies: Vec<(Vec<u8>, SocketAddress)> = Vec::new();
        let mut i: usize = 0;
        while i < self.next_batch.len()
            invariant
                forall|k: int|
                    0 <= k < self@.batch.len() ==> {
                        &&& (#[trigger] self@.batch[k]).frame.shmem_idx < mems@.len()
                        &&& self@.batch[k].end <= mems@[self@.batch[k].frame.shmem_idx as int]@.len()
                    },
                i <= self.next_batch@.len(),
                copies@.len() == i,
                forall|k: int|
                    0 <= k < i ==> {
                        let mem = mems@[self@.batch[k].frame.shmem_idx as int];
                        &&& (#[trigger] copies@[k]).0@ == self@.batch[k].bytes(mem@)
                        &&& copies@[k].0@.len() == self@.batch[k].end - self@.batch[k].start
                        &&& copies@[k].1 == self@.batch[k].dest
                    },
            decreases self.next_batch.len() - i,
        {
            let idx: usize = self.next_batch[i].0.shmem_idx();
            assert(self@.batch[i as int].frame.shmem_idx == idx);
            copies.push(self.copy_message(i, mems[idx]));
            i += 1;
        }
        copies
    }

    /// A copy of each message of the batch that was built last, with where it
    /// goes, in the order of the batch. All regions are looked at, and the bytes are
    /// those that were seen.
    ///
    /// [`copy_messages`](Self::copy_messages) states it for given bytes.
    pub fn copy_batch(&mut self, regions: &Vec<Region>) -> (copies: Vec<(Vec<u8>, SocketAddress)>)
        requires
            old(self).wf(),
            old(self)@.admissible(region_sizes(regions@)),
        ensures
            final(self).wf(),
            final(self)@ == old(self)@,
            final(self).seen() == old(self).seen(),
            looked_at_all(old(self).looks(), final(self).looks(), regions@),
            copies@.len() == old(self)@.batch.len(),
            forall|i: int|
                0 <= i < copies@.len() ==> {
                    let message = old(self)@.batch[i];
                    let look = final(self).looks()[old(self).looks().len()
                        + message.frame.shmem_idx];
                    &&& (#[trigger] copies@[i]).0@ == message.bytes(look.bytes)
                    &&& copies@[i].0@.len() == message.end - message.start
                    &&& copies@[i].1 == message.dest
                },
    {
        let ghost sizes = region_sizes(regions@);
        let ghost before = self.looks();
        let n: usize = regions.len();
        let mut handles: Vec<ReadHandle<'_, RegionBytes, RegionPredicate>> = Vec::new();
        let mut i: usize = 0;
        while i < n
            invariant
                n == regions@.len(),
                i <= n,
                handles@.len() == i,
                forall|k: int|
                    0 <= k < i ==> {
                        &&& (#[trigger] handles@[k])@.id() == regions@[k].id()
                        &&& handles@[k]@@.len() == regions@[k].spec_len()
                    },
            decreases n - i,
        {
            handles.push(regions[i].share());
            i += 1;
        }
        let mut mems: Vec<&SharedMem> = Vec::new();
        i = 0;
        while i < n
            invariant
                n == regions@.len(),
                i <= n,
                handles@.len() == n,
                forall|k: int|
                    0 <= k < n ==> {
                        &&& (#[trigger] handles@[k])@.id() == regions@[k].id()
                        &&& handles@[k]@@.len() == regions@[k].spec_len()
                    },
                self.wf(),
                self@ == old(self)@,
                self.seen() == old(self).seen(),
                before == old(self).looks(),
                mems@.len() == i,
                self.looks().len() == before.len() + i,
                before.is_prefix_of(self.looks()),
                forall|k: int|
                    0 <= k < i ==> {
                        &&& (#[trigger] self.looks()[before.len() + k]).region == regions@[k].id()
                        &&& self.looks()[before.len() + k].bytes.len() == regions@[k].spec_len()
                        &&& self.looks()[before.len() + k].bytes == mems@[k]@
                    },
            decreases n - i,
        {
            let ghost looks = self.looks();
            mems.push(self.read_log.look(handles[i].borrow()));
            i += 1;
            assert forall|k: int| 0 <= k < i implies {
                &&& (#[trigger] self.looks()[before.len() + k]).region == regions@[k].id()
                &&& self.looks()[before.len() + k].bytes.len() == regions@[k].spec_len()
                &&& self.looks()[before.len() + k].bytes == mems@[k]@
            } by {
                if k < i - 1 {
                    assert(self.looks()[before.len() + k] == looks[before.len() + k]);
                }
            }
        }
        proof {
            assert forall|k: int| 0 <= k < self@.batch.len() implies {
                &&& (#[trigger] self@.batch[k]).frame.shmem_idx < mems@.len()
                &&& self@.batch[k].end <= mems@[self@.batch[k].frame.shmem_idx as int]@.len()
            } by {
                assert(self@.batch[k].admissible(sizes));
                let idx = self@.batch[k].frame.shmem_idx as int;
                assert(sizes[idx] == regions@[idx].spec_len());
                assert(self.looks()[before.len() + idx].bytes == mems@[idx]@);
            }
        }
        let copies: Vec<(Vec<u8>, SocketAddress)> = self.copy_messages(&mems);
        proof {
            assert forall|k: int| 0 <= k < copies@.len() implies {
                let message = old(self)@.batch[k];
                let look = self.looks()[before.len() + message.frame.shmem_idx];
                &&& (#[trigger] copies@[k]).0@ == message.bytes(look.bytes)
            } by {
                assert(self@.batch[k].frame.shmem_idx < mems@.len());
                let idx = self@.batch[k].frame.shmem_idx as int;
                assert(self.looks()[before.len() + idx].bytes == mems@[idx]@);
            }
        }
        while handles.len() > 0
            decreases handles.len(),
        {
            if let Some(handle) = handles.pop() {
                handle.release_read();
            }
        }
        copies
    }

    /// Gives all frames back to the receivers they came from. A receiver that
    /// has no room for one, which never happens as long as its ring holds all
    /// of its frames, gives the frame back as an error. Receivers poll for
    /// frames, so none has to be woken.
    pub fn recycle(&mut self, fill_tx_vec: &mut Vec<Tx<FrameDesc>>, regions: &Vec<Region>) -> (r:
        Result<(), FrameDesc>)
        requires
            old(self).wf(),
            old(self)@.admissible(region_sizes(regions@)),
            old(fill_tx_vec)@.len() == regions@.len(),
            forall|i: int|
                0 <= i < regions@.len() ==> (#[trigger] old(fill_tx_vec)@[i]).ring().pred().admits
                    == free_frames_of(region_sizes(regions@), i),
        ensures
            final(self).wf(),
            final(self)@.admissible(region_sizes(regions@)),
            final(self).seen() == old(self).seen(),
            final(self).looks() == old(self).looks(),
            final(self)@ == (FwdState { recycled: final(self)@.recycled, ..old(self)@ }),
            final(self)@.recycled.is_prefix_of(old(self)@.recycled),
            same_rings(old(fill_tx_vec)@, final(fill_tx_vec)@),
            frames_returned(
                old(self)@.recycled,
                final(self)@.recycled.len() as int,
                all_sent(old(fill_tx_vec)@),
                all_sent(final(fill_tx_vec)@),
                all_refused(old(fill_tx_vec)@),
                all_refused(final(fill_tx_vec)@),
                r,
            ),
            ({
                let left = final(self)@.recycled.len() as int;
                let before = all_sent(old(fill_tx_vec)@);
                let after = all_sent(final(fill_tx_vec)@);
                match r {
                    Ok(_) => {
                        &&& left == 0
                        &&& all_given_back(before, after, old(self)@.recycled)
                        &&& all_refused(final(fill_tx_vec)@) == all_refused(old(fill_tx_vec)@)
                    },
                    Err(frame) => {
                        &&& left < old(self)@.recycled.len()
                        &&& frame == old(self)@.recycled[left]
                        &&& all_given_back(before, after, old(self)@.recycled.skip(left + 1))
                        &&& all_refused(final(fill_tx_vec)@) == all_refused(
                            old(fill_tx_vec)@,
                        ).update(
                            frame.shmem_idx as int,
                            old(fill_tx_vec)@[frame.shmem_idx as int].refused().push(frame),
                        )
                    },
                }
            }),
    {
        let ghost sizes = region_sizes(regions@);
        let ghost recycled = self@.recycled;
        let ghost txs = fill_tx_vec@;
        assert(recycled.skip(recycled.len() as int) =~= seq![]);
        loop
            invariant
                sizes == region_sizes(regions@),
                recycled == old(self)@.recycled,
                txs == old(fill_tx_vec)@,
                self.wf(),
                self@.admissible(sizes),
                self.seen() == old(self).seen(),
                self.looks() == old(self).looks(),
                self@ == (FwdState { recycled: self@.recycled, ..old(self)@ }),
                self@.recycled.is_prefix_of(recycled),
                txs.len() == sizes.len(),
                forall|i: int|
                    0 <= i < sizes.len() ==> (#[trigger] txs[i]).ring().pred().admits == free_frames_of(
                        sizes,
                        i,
                    ),
                same_rings(txs, fill_tx_vec@),
                all_given_back(
                    all_sent(txs),
                    all_sent(fill_tx_vec@),
                    recycled.skip(self@.recycled.len() as int),
                ),
                all_refused(fill_tx_vec@) =~= all_refused(txs),
            decreases self@.recycled.len(),
        {
            let ghost n = self@.recycled.len() as int;
            let ghost sent = all_sent(fill_tx_vec@);
            let ghost refused = all_refused(fill_tx_vec@);
            match self.next_recycled() {
                None => {
                    assert(recycled.skip(0) =~= recycled);
                    return Ok(());
                },
                Some(desc) => {
                    let idx: usize = desc.shmem_idx;
                    assert(desc == recycled[n - 1]);
                    match fill_tx_vec[idx].send(desc) {
                        Ok(_) => {
                            proof {
                                assert(all_refused(fill_tx_vec@) =~= refused);
                                assert(recycled.skip(n - 1).drop_first() =~= recycled.skip(n));
                                assert forall|i: int| 0 <= i < txs.len() implies #[trigger] all_sent(
                                    fill_tx_vec@,
                                )[i] =~= all_sent(txs)[i] + given_back(
                                    recycled.skip(n - 1),
                                    i,
                                ) by {
                                    assert(sent[i] =~= all_sent(txs)[i] + given_back(
                                        recycled.skip(n),
                                        i,
                                    ));
                                }
                            }
                        },
                        Err(desc) => {
                            proof {
                                assert(all_sent(fill_tx_vec@) =~= sent);
                                assert(refused[idx as int] == txs[idx as int].refused());
                                assert(all_refused(fill_tx_vec@) =~= refused.update(
                                    idx as int,
                                    refused[idx as int].push(desc),
                                ));
                            }
                            return Err(desc);
                        },
                    }
                },
            }
        }
    }
}

/// The frames of the `idx`-th region, from the last of `frames` to the first.
pub open spec fn given_back(frames: Seq<FrameDesc>, idx: int) -> Seq<FrameDesc>
    decreases frames.len(),
{
    if frames.len() == 0 {
        seq![]
    } else {
        let behind = given_back(frames.drop_first(), idx);
        if frames[0].shmem_idx == idx {
            behind.push(frames[0])
        } else {
            behind
        }
    }
}

/// Each of `frames` was sent once, into the ring of its own region, and nothing
/// else was sent: of each ring `before` tells what was sent until then, and
/// `after` what was sent since.
pub open spec fn all_given_back(
    before: Seq<Seq<FrameDesc>>,
    after: Seq<Seq<FrameDesc>>,
    frames: Seq<FrameDesc>,
) -> bool {
    &&& after.len() == before.len()
    &&& forall|i: int|
        0 <= i < before.len() ==> #[trigger] after[i] =~= before[i] + given_back(frames, i)
}

/// The number of packets in a batch is what building it step by step arrives at.
proof fn lemma_batch_packets(queued: nat, dests: nat, taken: nat)
    requires
        taken <= queued,
        taken * dests <= UIO_MAXIOV,
        taken == queued || taken * dests == UIO_MAXIOV || (taken + 1) * dests > UIO_MAXIOV,
    ensures
        taken == batch_packets(queued, dests),
{
    if dests > 0 {
        let most = UIO_MAXIOV as nat / dests;
        assert(taken <= most) by (nonlinear_arith)
            requires
                taken * dests <= UIO_MAXIOV,
                dests > 0,
                most == UIO_MAXIOV as nat / dests,
        ;
        if taken < queued {
            assert(taken >= most) by (nonlinear_arith)
                requires
                    taken * dests == UIO_MAXIOV || (taken + 1) * dests > UIO_MAXIOV,
                    dests > 0,
                    most == UIO_MAXIOV as nat / dests,
            ;
        }
    } else {
        assert((taken + 1) * dests == 0) by (nonlinear_arith)
            requires
                dests == 0,
        ;
        assert(taken * dests == 0) by (nonlinear_arith)
            requires
                dests == 0,
        ;
    }
}

} // verus!
