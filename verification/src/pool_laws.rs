//! What holds of the frames of the whole proxy, however its tiles interleave.
//!
//! A [`ProxyState`] is what all regions, rings and tiles hold. Every step moves
//! frames as the contract of a function that moves them says; `step_laws` tells
//! which steps a call consists of.

use vstd::prelude::*;
use vstd::seq_lib::lemma_multiset_commutative;

use crate::addr::SocketAddress;
use crate::fwd_tile::{batch_packets, given_back, FwdState};
use crate::mem::{write_bytes, FrameBufMut, FrameDesc};
use crate::packet::TritonPacket;
use crate::pool::{frames_of, frames_written};
use crate::recv_mmsg::{
    burst_len, is_received, routed, unrouted, unstaked, ReceivedMsg,
};
use crate::recv_tile::packets_for;
use crate::ring::RingState;
use crate::triton_forwarder::{all_frames, law_region_is_cut_into_frames, PoolPlan};

verus! {

/// How often `x` occurs in `values`.
pub open spec fn occurs<T>(values: Seq<T>, x: T) -> nat {
    values.to_multiset().count(x)
}

/// How often `x` occurs in all of `parts`.
pub open spec fn occurs_in_all<T>(parts: Seq<Seq<T>>, x: T) -> nat
    decreases parts.len(),
{
    if parts.len() == 0 {
        0
    } else {
        occurs_in_all(parts.drop_last(), x) + occurs(parts.last(), x)
    }
}

/// The messages of a ring in which every ticket is published.
pub open spec fn published<T>(pending: Seq<Option<T>>) -> Seq<T> {
    pending.map_values(|m: Option<T>| m->0)
}

/// Every ticket is published.
pub open spec fn all_published<T>(pending: Seq<Option<T>>) -> bool {
    forall|i: int| 0 <= i < pending.len() ==> (#[trigger] pending[i]) is Some
}

/// The frames that a forwarder holds.
pub open spec fn frames_in(fwd: FwdState) -> Seq<FrameDesc> {
    frames_of(fwd.queued) + fwd.sending + fwd.recycled
}

/// `packet` is what becomes of `data` when it is received into `frame`.
pub open spec fn fills(packet: TritonPacket, frame: FrameDesc, data: Seq<u8>) -> bool {
    &&& packet.frame() == frame
    &&& packet.buffer.start() == frame.ptr
    &&& packet.buffer.end() == frame.ptr + data.len()
    &&& packet.meta.size == data.len()
    &&& data.len() <= frame.frame_size
}

/// What all regions, rings and tiles of the proxy hold.
pub struct ProxyState {
    /// For each receiver, the bytes of its region.
    pub mem: Seq<Seq<u8>>,
    /// For each receiver, the ring of its free frames.
    pub free: Seq<RingState<FrameDesc>>,
    /// For each receiver, the frames that it can receive into: free ones and those
    /// of a burst.
    pub held: Seq<Seq<FrameDesc>>,
    /// For each receiver, the packets that it received and has not handed on yet.
    pub batch: Seq<Seq<TritonPacket>>,
    /// For each forwarder, the ring of packets that wait for it.
    pub waiting: Seq<RingState<TritonPacket>>,
    /// For each forwarder, what it holds.
    pub fwd: Seq<FwdState>,
}

/// A step of a tile.
pub enum ProxyStep {
    /// Receiver `r` takes the `n` oldest free frames.
    Refill { r: int, n: int },
    /// Receiver `r` sorts the frames that it can receive into in another way.
    Rearrange { r: int, frames: Seq<FrameDesc> },
    /// Receiver `r` receives `data` into the `i`-th of its frames, as `packet`.
    Receive { r: int, i: int, packet: TritonPacket, data: Seq<u8> },
    /// Receiver `r` sends the `i`-th packet of its batch to forwarder `f`.
    Send { r: int, i: int, f: int },
    /// Receiver `r` drops the `i`-th packet of its batch.
    Drop { r: int, i: int },
    /// Forwarder `f` takes in the oldest waiting packet, as a duplicate or not.
    TakeIn { f: int, duplicate: bool },
    /// Forwarder `f` builds a batch.
    Batch { f: int, dests: Seq<SocketAddress> },
    /// Forwarder `f` ends the sending of its batch.
    FinishBatch { f: int, outcome: Result<u64, usize> },
    /// Forwarder `f` gives the last of its recycled frames back.
    Recycle { f: int },
}

impl ProxyState {
    /// The frames in the rings of free frames.
    pub open spec fn free_frames(self) -> Seq<Seq<FrameDesc>> {
        self.free.map_values(|ring: RingState<FrameDesc>| published(ring.pending))
    }

    /// The frames of the packets that receivers received.
    pub open spec fn batch_frames(self) -> Seq<Seq<FrameDesc>> {
        self.batch.map_values(|packets: Seq<TritonPacket>| frames_of(packets))
    }

    /// The frames of the packets that wait for forwarders.
    pub open spec fn waiting_frames(self) -> Seq<Seq<FrameDesc>> {
        self.waiting.map_values(
            |ring: RingState<TritonPacket>| frames_of(published(ring.pending)),
        )
    }

    /// The frames that forwarders hold.
    pub open spec fn fwd_frames(self) -> Seq<Seq<FrameDesc>> {
        self.fwd.map_values(|fwd: FwdState| frames_in(fwd))
    }

    /// How often `x` occurs in the whole proxy.
    pub open spec fn total(self, x: FrameDesc) -> nat {
        occurs_in_all(self.free_frames(), x) + occurs_in_all(self.held, x) + occurs_in_all(
            self.batch_frames(),
            x,
        ) + occurs_in_all(self.waiting_frames(), x) + occurs_in_all(self.fwd_frames(), x)
    }

    /// Whether a tile can take `step` now. Neither a send nor a recycling asks
    /// for room in a ring.
    pub open spec fn enables(self, step: ProxyStep) -> bool {
        match step {
            ProxyStep::Refill { r, n } => 0 <= r < self.held.len() && 0 <= n
                <= self.free[r].pending.len(),
            ProxyStep::Rearrange { r, frames } => 0 <= r < self.held.len() && frames.to_multiset()
                == self.held[r].to_multiset(),
            ProxyStep::Receive { r, i, packet, data } => {
                &&& 0 <= r < self.held.len()
                &&& 0 <= i < self.held[r].len()
                &&& fills(packet, self.held[r][i], data)
            },
            ProxyStep::Send { r, i, f } => {
                &&& 0 <= r < self.held.len()
                &&& 0 <= i < self.batch[r].len()
                &&& 0 <= f < self.waiting.len()
            },
            ProxyStep::Drop { r, i } => 0 <= r < self.held.len() && 0 <= i < self.batch[r].len(),
            ProxyStep::TakeIn { f, duplicate } => 0 <= f < self.waiting.len()
                && self.waiting[f].is_deliverable(),
            ProxyStep::Batch { f, dests } => 0 <= f < self.waiting.len(),
            ProxyStep::FinishBatch { f, outcome } => 0 <= f < self.waiting.len(),
            ProxyStep::Recycle { f } => {
                &&& 0 <= f < self.waiting.len()
                &&& self.fwd[f].recycled.len() > 0
                &&& self.fwd[f].recycled.last().shmem_idx < self.held.len()
            },
        }
    }

    /// The proxy after `step`.
    pub open spec fn after(self, step: ProxyStep) -> ProxyState {
        match step {
            ProxyStep::Refill { r, n } => ProxyState {
                free: self.free.update(
                    r,
                    RingState { pending: self.free[r].pending.skip(n), ..self.free[r] },
                ),
                held: self.held.update(
                    r,
                    self.held[r] + published(self.free[r].pending.take(n)),
                ),
                ..self
            },
            ProxyStep::Rearrange { r, frames } => ProxyState {
                held: self.held.update(r, frames),
                ..self
            },
            ProxyStep::Receive { r, i, packet, data } => ProxyState {
                mem: self.mem.update(
                    r,
                    write_bytes(self.mem[r], self.held[r][i].ptr as int, data),
                ),
                held: self.held.update(r, self.held[r].remove(i)),
                batch: self.batch.update(r, self.batch[r].push(packet)),
                ..self
            },
            ProxyStep::Send { r, i, f } => ProxyState {
                batch: self.batch.update(r, self.batch[r].remove(i)),
                waiting: self.waiting.update(
                    f,
                    self.waiting[f].send(unstaked(self.batch[r][i])),
                ),
                ..self
            },
            ProxyStep::Drop { r, i } => ProxyState {
                held: self.held.update(r, self.held[r].push(self.batch[r][i].frame())),
                batch: self.batch.update(r, self.batch[r].remove(i)),
                ..self
            },
            ProxyStep::TakeIn { f, duplicate } => ProxyState {
                waiting: self.waiting.update(f, self.waiting[f].deliver()),
                fwd: self.fwd.update(
                    f,
                    self.fwd[f].take_in(self.waiting[f].pending[0]->0, duplicate),
                ),
                ..self
            },
            ProxyStep::Batch { f, dests } => ProxyState {
                fwd: self.fwd.update(f, self.fwd[f].start_batch(dests)),
                ..self
            },
            ProxyStep::FinishBatch { f, outcome } => ProxyState {
                fwd: self.fwd.update(f, self.fwd[f].finish_batch(outcome)),
                ..self
            },
            ProxyStep::Recycle { f } => {
                let frame = self.fwd[f].recycled.last();
                let idx = frame.shmem_idx as int;
                ProxyState {
                    fwd: self.fwd.update(
                        f,
                        FwdState { recycled: self.fwd[f].recycled.drop_last(), ..self.fwd[f] },
                    ),
                    free: self.free.update(idx, self.free[idx].send(frame)),
                    ..self
                }
            },
        }
    }

    /// The proxy after all of `steps`.
    pub open spec fn after_all(self, steps: Seq<ProxyStep>) -> ProxyState
        decreases steps.len(),
    {
        if steps.len() == 0 {
            self
        } else {
            self.after_all(steps.drop_last()).after(steps.last())
        }
    }

    /// Whether tiles can take all of `steps` in that order.
    pub open spec fn enables_all(self, steps: Seq<ProxyStep>) -> bool
        decreases steps.len(),
    {
        steps.len() == 0 || (self.enables_all(steps.drop_last()) && self.after_all(
            steps.drop_last(),
        ).enables(steps.last()))
    }

    /// Every frame of the plan is free, and nothing is anywhere else.
    pub open spec fn is_initial(self, plan: PoolPlan) -> bool {
        &&& self.mem.len() == plan.num_recv_tiles
        &&& self.free.len() == plan.num_recv_tiles
        &&& self.held.len() == plan.num_recv_tiles
        &&& self.batch.len() == plan.num_recv_tiles
        &&& self.waiting.len() == plan.num_fwd_tiles
        &&& self.fwd.len() == plan.num_fwd_tiles
        &&& forall|r: int|
            0 <= r < self.mem.len() ==> (#[trigger] self.mem[r]).len() == plan.num_frames
                * plan.frame_size
        &&& forall|r: int|
            0 <= r < self.free.len() ==> {
                &&& (#[trigger] self.free[r]).capacity == plan.num_frames
                &&& self.free[r].pending == all_frames(
                    plan.num_frames as nat,
                    plan.frame_size,
                    r as usize,
                ).map_values(|f: FrameDesc| Some(f))
            }
        &&& forall|r: int| 0 <= r < self.held.len() ==> (#[trigger] self.held[r]).len() == 0
        &&& forall|r: int| 0 <= r < self.batch.len() ==> (#[trigger] self.batch[r]).len() == 0
        &&& forall|f: int|
            0 <= f < self.waiting.len() ==> {
                &&& (#[trigger] self.waiting[f]).capacity >= plan.packet_ring_capacity
                &&& self.waiting[f].pending.len() == 0
            }
        &&& forall|f: int|
            0 <= f < self.fwd.len() ==> {
                &&& (#[trigger] self.fwd[f]).queued.len() == 0
                &&& self.fwd[f].sending.len() == 0
                &&& self.fwd[f].recycled.len() == 0
            }
    }

    /// What every state has in common: nothing is half sent, every frame that is
    /// free or with a receiver is with that of its own region, and the regions and
    /// rings are as large as planned.
    pub open spec fn in_order(self, plan: PoolPlan) -> bool {
        &&& self.mem.len() == plan.num_recv_tiles
        &&& self.free.len() == plan.num_recv_tiles
        &&& self.held.len() == plan.num_recv_tiles
        &&& self.batch.len() == plan.num_recv_tiles
        &&& self.waiting.len() == plan.num_fwd_tiles
        &&& self.fwd.len() == plan.num_fwd_tiles
        &&& forall|r: int|
            0 <= r < self.mem.len() ==> (#[trigger] self.mem[r]).len() == plan.num_frames
                * plan.frame_size
        &&& forall|r: int|
            0 <= r < self.free.len() ==> {
                &&& (#[trigger] self.free[r]).capacity == plan.num_frames
                &&& all_published(self.free[r].pending)
                &&& forall|i: int|
                    0 <= i < self.free[r].pending.len() ==> (
                    #[trigger] self.free[r].pending[i])->0.shmem_idx == r
            }
        &&& forall|r: int, i: int|
            0 <= r < self.held.len() && 0 <= i < self.held[r].len() ==> (
            #[trigger] self.held[r][i]).shmem_idx == r
        &&& forall|r: int, i: int|
            0 <= r < self.batch.len() && 0 <= i < self.batch[r].len() ==> (
            #[trigger] self.batch[r][i]).frame().shmem_idx == r
        &&& forall|f: int|
            0 <= f < self.waiting.len() ==> {
                &&& (#[trigger] self.waiting[f]).capacity >= plan.packet_ring_capacity
                &&& all_published(self.waiting[f].pending)
            }
    }
}

pub(crate) proof fn lemma_occurs_concat<T>(a: Seq<T>, b: Seq<T>, x: T)
    ensures
        occurs(a + b, x) == occurs(a, x) + occurs(b, x),
{
    lemma_multiset_commutative(a, b);
}

/// The frames that a forwarder holds are at three places.
proof fn lemma_occurs_in(fwd: FwdState, x: FrameDesc)
    ensures
        occurs(frames_in(fwd), x) == occurs(frames_of(fwd.queued), x) + occurs(fwd.sending, x)
            + occurs(fwd.recycled, x),
{
    lemma_occurs_concat(frames_of(fwd.queued), fwd.sending, x);
    lemma_occurs_concat(frames_of(fwd.queued) + fwd.sending, fwd.recycled, x);
}

pub(crate) proof fn lemma_occurs_one<T>(a: T, x: T)
    ensures
        occurs(seq![a], x) == if a == x {
            1nat
        } else {
            0nat
        },
        occurs(Seq::<T>::empty(), x) == 0,
{
    broadcast use vstd::seq_lib::group_to_multiset_ensures;

    let none = Seq::<T>::empty();
    assert(none.push(a) =~= seq![a]);
}

/// Changing one part changes the number of occurrences by as much as the part.
pub(crate) proof fn lemma_update_part<T>(parts: Seq<Seq<T>>, i: int, part: Seq<T>, x: T)
    requires
        0 <= i < parts.len(),
    ensures
        occurs_in_all(parts.update(i, part), x) + occurs(parts[i], x) == occurs_in_all(parts, x)
            + occurs(part, x),
        occurs(parts[i], x) <= occurs_in_all(parts, x),
    decreases parts.len(),
{
    let changed = parts.update(i, part);
    if i == parts.len() - 1 {
        assert(changed.drop_last() =~= parts.drop_last());
    } else {
        lemma_update_part(parts.drop_last(), i, part, x);
        assert(changed.drop_last() =~= parts.drop_last().update(i, part));
        assert(changed.last() == parts.last());
    }
}

proof fn lemma_refill_keeps(s: ProxyState, r: int, n: int, x: FrameDesc)
    requires
        s.free.len() == s.held.len(),
        s.enables(ProxyStep::Refill { r, n }),
    ensures
        s.after(ProxyStep::Refill { r, n }).total(x) == s.total(x),
{
    let t = s.after(ProxyStep::Refill { r, n });
    let pending = s.free[r].pending;
    let taken = published(pending.take(n));
    let left = published(pending.skip(n));
    assert(published(pending) =~= taken + left);
    lemma_occurs_concat(taken, left, x);
    lemma_occurs_concat(s.held[r], taken, x);
    assert(t.free_frames() =~= s.free_frames().update(r, left));
    lemma_update_part(s.free_frames(), r, left, x);
    lemma_update_part(s.held, r, s.held[r] + taken, x);
    assert(t.batch_frames() =~= s.batch_frames());
    assert(t.waiting_frames() =~= s.waiting_frames());
    assert(t.fwd_frames() =~= s.fwd_frames());
}

/// Without one of its values a sequence has that value once less.
proof fn lemma_occurs_remove<T>(values: Seq<T>, i: int, x: T)
    requires
        0 <= i < values.len(),
    ensures
        occurs(values, x) == occurs(values.remove(i), x) + occurs(seq![values[i]], x),
{
    let one = seq![values[i]];
    assert(values =~= values.take(i) + one + values.skip(i + 1));
    assert(values.remove(i) =~= values.take(i) + values.skip(i + 1));
    lemma_occurs_concat(values.take(i) + one, values.skip(i + 1), x);
    lemma_occurs_concat(values.take(i), one, x);
    lemma_occurs_concat(values.take(i), values.skip(i + 1), x);
}

proof fn lemma_receive_keeps(s: ProxyState, step: ProxyStep, x: FrameDesc)
    requires
        step is Receive,
        s.batch.len() == s.held.len(),
        s.enables(step),
    ensures
        s.after(step).total(x) == s.total(x),
{
    if let ProxyStep::Receive { r, i, packet, data } = step {
        let t = s.after(step);
        let frame = packet.frame();
        lemma_occurs_remove(s.held[r], i, x);
        lemma_update_part(s.held, r, s.held[r].remove(i), x);
        let more = frames_of(s.batch[r].push(packet));
        assert(more =~= frames_of(s.batch[r]) + seq![frame]);
        lemma_occurs_concat(frames_of(s.batch[r]), seq![frame], x);
        assert(t.batch_frames() =~= s.batch_frames().update(r, more));
        lemma_update_part(s.batch_frames(), r, more, x);
        assert(t.free_frames() =~= s.free_frames());
        assert(t.waiting_frames() =~= s.waiting_frames());
        assert(t.fwd_frames() =~= s.fwd_frames());
    }
}

/// Taking a packet out of a batch takes its frame away.
proof fn lemma_unbatch(s: ProxyState, r: int, i: int, x: FrameDesc)
    requires
        0 <= r < s.batch.len(),
        0 <= i < s.batch[r].len(),
    ensures
        ({
            let left = frames_of(s.batch[r].remove(i));
            &&& occurs_in_all(s.batch_frames(), x) == occurs_in_all(
                s.batch_frames().update(r, left),
                x,
            ) + occurs(seq![s.batch[r][i].frame()], x)
        }),
{
    let frames = frames_of(s.batch[r]);
    let left = frames_of(s.batch[r].remove(i));
    assert(left =~= frames.remove(i));
    lemma_occurs_remove(frames, i, x);
    assert(s.batch_frames()[r] == frames);
    lemma_update_part(s.batch_frames(), r, left, x);
}

proof fn lemma_send_keeps(s: ProxyState, r: int, i: int, f: int, x: FrameDesc)
    requires
        s.batch.len() == s.held.len(),
        s.enables(ProxyStep::Send { r, i, f }),
    ensures
        s.after(ProxyStep::Send { r, i, f }).total(x) == s.total(x),
{
    let t = s.after(ProxyStep::Send { r, i, f });
    let packet = unstaked(s.batch[r][i]);
    let frame = packet.frame();
    lemma_unbatch(s, r, i, x);
    assert(t.batch_frames() =~= s.batch_frames().update(r, frames_of(s.batch[r].remove(i))));
    let waiting = frames_of(published(s.waiting[f].pending));
    let more = frames_of(published(s.waiting[f].send(packet).pending));
    assert(more =~= waiting + seq![frame]);
    lemma_occurs_concat(waiting, seq![frame], x);
    assert(t.waiting_frames() =~= s.waiting_frames().update(f, more));
    lemma_update_part(s.waiting_frames(), f, more, x);
    assert(t.free_frames() =~= s.free_frames());
    assert(t.fwd_frames() =~= s.fwd_frames());
}

proof fn lemma_drop_keeps(s: ProxyState, r: int, i: int, x: FrameDesc)
    requires
        s.batch.len() == s.held.len(),
        s.enables(ProxyStep::Drop { r, i }),
    ensures
        s.after(ProxyStep::Drop { r, i }).total(x) == s.total(x),
{
    let t = s.after(ProxyStep::Drop { r, i });
    let frame = s.batch[r][i].frame();
    lemma_unbatch(s, r, i, x);
    assert(t.batch_frames() =~= s.batch_frames().update(r, frames_of(s.batch[r].remove(i))));
    assert(s.held[r].push(frame) =~= s.held[r] + seq![frame]);
    lemma_occurs_concat(s.held[r], seq![frame], x);
    lemma_update_part(s.held, r, s.held[r].push(frame), x);
    assert(t.free_frames() =~= s.free_frames());
    assert(t.waiting_frames() =~= s.waiting_frames());
    assert(t.fwd_frames() =~= s.fwd_frames());
}

proof fn lemma_take_in_keeps(s: ProxyState, f: int, duplicate: bool, x: FrameDesc)
    requires
        s.waiting.len() == s.fwd.len(),
        s.enables(ProxyStep::TakeIn { f, duplicate }),
    ensures
        s.after(ProxyStep::TakeIn { f, duplicate }).total(x) == s.total(x),
{
    let t = s.after(ProxyStep::TakeIn { f, duplicate });
    let pending = s.waiting[f].pending;
    let packet = pending[0]->0;
    let frame = packet.frame();
    let waiting = frames_of(published(pending));
    let left = frames_of(published(s.waiting[f].deliver().pending));
    assert(waiting =~= seq![frame] + left);
    lemma_occurs_concat(seq![frame], left, x);
    assert(t.waiting_frames() =~= s.waiting_frames().update(f, left));
    lemma_update_part(s.waiting_frames(), f, left, x);
    let fwd = s.fwd[f];
    let next = fwd.take_in(packet, duplicate);
    lemma_occurs_in(fwd, x);
    lemma_occurs_in(next, x);
    if duplicate {
        assert(next.recycled =~= fwd.recycled + seq![frame]);
        lemma_occurs_concat(fwd.recycled, seq![frame], x);
    } else {
        assert(frames_of(next.queued) =~= frames_of(fwd.queued) + seq![frame]);
        lemma_occurs_concat(frames_of(fwd.queued), seq![frame], x);
    }
    assert(t.fwd_frames() =~= s.fwd_frames().update(f, frames_in(next)));
    lemma_update_part(s.fwd_frames(), f, frames_in(next), x);
    assert(t.batch_frames() =~= s.batch_frames());
    assert(t.free_frames() =~= s.free_frames());
}

proof fn lemma_batch_keeps(s: ProxyState, f: int, dests: Seq<SocketAddress>, x: FrameDesc)
    requires
        s.waiting.len() == s.fwd.len(),
        s.enables(ProxyStep::Batch { f, dests }),
    ensures
        s.after(ProxyStep::Batch { f, dests }).total(x) == s.total(x),
{
    let t = s.after(ProxyStep::Batch { f, dests });
    let fwd = s.fwd[f];
    let next = fwd.start_batch(dests);
    let n = batch_packets(fwd.queued.len(), dests.len()) as int;
    lemma_occurs_in(fwd, x);
    lemma_occurs_in(next, x);
    if fwd.queued.len() > 0 {
        let taken = frames_of(fwd.queued.take(n));
        assert(frames_of(fwd.queued) =~= taken + frames_of(next.queued));
        lemma_occurs_concat(taken, frames_of(next.queued), x);
        lemma_occurs_concat(fwd.recycled, taken, x);
        lemma_occurs_concat(fwd.sending, taken, x);
    }
    assert(t.fwd_frames() =~= s.fwd_frames().update(f, frames_in(next)));
    lemma_update_part(s.fwd_frames(), f, frames_in(next), x);
    assert(t.batch_frames() =~= s.batch_frames());
    assert(t.free_frames() =~= s.free_frames());
    assert(t.waiting_frames() =~= s.waiting_frames());
}

proof fn lemma_finish_keeps(s: ProxyState, f: int, outcome: Result<u64, usize>, x: FrameDesc)
    requires
        s.waiting.len() == s.fwd.len(),
        s.enables(ProxyStep::FinishBatch { f, outcome }),
    ensures
        s.after(ProxyStep::FinishBatch { f, outcome }).total(x) == s.total(x),
{
    let t = s.after(ProxyStep::FinishBatch { f, outcome });
    let fwd = s.fwd[f];
    let next = fwd.finish_batch(outcome);
    lemma_occurs_in(fwd, x);
    lemma_occurs_in(next, x);
    lemma_occurs_concat(fwd.recycled, fwd.sending, x);
    lemma_occurs_one(x, x);
    assert(t.fwd_frames() =~= s.fwd_frames().update(f, frames_in(next)));
    lemma_update_part(s.fwd_frames(), f, frames_in(next), x);
    assert(t.batch_frames() =~= s.batch_frames());
    assert(t.free_frames() =~= s.free_frames());
    assert(t.waiting_frames() =~= s.waiting_frames());
}

proof fn lemma_recycle_keeps(s: ProxyState, f: int, x: FrameDesc)
    requires
        s.waiting.len() == s.fwd.len(),
        s.free.len() == s.held.len(),
        s.enables(ProxyStep::Recycle { f }),
    ensures
        s.after(ProxyStep::Recycle { f }).total(x) == s.total(x),
{
    let t = s.after(ProxyStep::Recycle { f });
    let fwd = s.fwd[f];
    let frame = fwd.recycled.last();
    let idx = frame.shmem_idx as int;
    let left = fwd.recycled.drop_last();
    assert(fwd.recycled =~= left + seq![frame]);
    lemma_occurs_concat(left, seq![frame], x);
    let next = FwdState { recycled: left, ..fwd };
    lemma_occurs_in(fwd, x);
    lemma_occurs_in(next, x);
    assert(t.fwd_frames() =~= s.fwd_frames().update(f, frames_in(next)));
    lemma_update_part(s.fwd_frames(), f, frames_in(next), x);
    let free = published(s.free[idx].pending);
    let more = published(s.free[idx].send(frame).pending);
    assert(more =~= free + seq![frame]);
    lemma_occurs_concat(free, seq![frame], x);
    assert(t.free_frames() =~= s.free_frames().update(idx, more));
    lemma_update_part(s.free_frames(), idx, more, x);
    assert(t.batch_frames() =~= s.batch_frames());
    assert(t.waiting_frames() =~= s.waiting_frames());
}

/// What is left of a batch is in frames of the receiver's own region.
proof fn lemma_batch_stays_home(s: ProxyState, r: int, i: int)
    requires
        0 <= r < s.batch.len(),
        0 <= i < s.batch[r].len(),
        forall|k: int|
            0 <= k < s.batch[r].len() ==> (#[trigger] s.batch[r][k]).frame().shmem_idx == r,
    ensures
        forall|k: int|
            0 <= k < s.batch[r].remove(i).len() ==> (#[trigger] s.batch[r].remove(
                i,
            )[k]).frame().shmem_idx == r,
        s.batch[r][i].frame().shmem_idx == r,
{
    assert forall|k: int| 0 <= k < s.batch[r].remove(i).len() implies (
    #[trigger] s.batch[r].remove(i)[k]).frame().shmem_idx == r by {
        assert(s.batch[r].remove(i)[k] == s.batch[r][if k < i {
            k
        } else {
            k + 1
        }]);
    }
}

/// One step keeps what all states have in common, and every frame.
proof fn lemma_step_keeps(s: ProxyState, step: ProxyStep, plan: PoolPlan, x: FrameDesc)
    requires
        s.in_order(plan),
        s.enables(step),
        step matches ProxyStep::Receive { r, i, .. } ==> s.held[r][i].fits(
            plan.num_frames * plan.frame_size,
        ),
    ensures
        s.after(step).in_order(plan),
        s.after(step).total(x) == s.total(x),
{
    let t = s.after(step);
    match step {
        ProxyStep::Refill { r, n } => {
            lemma_refill_keeps(s, r, n, x);
            let left = t.free[r].pending;
            assert(forall|i: int| 0 <= i < left.len() ==> #[trigger] left[i]
                == s.free[r].pending[i + n]);
        },
        ProxyStep::Rearrange { r, frames } => {
            lemma_update_part(s.held, r, frames, x);
            assert forall|i: int| 0 <= i < frames.len() implies (#[trigger] frames[i]).shmem_idx
                == r by {
                lemma_contained_occurs(frames, frames[i]);
                lemma_contained_occurs(s.held[r], frames[i]);
                let k = s.held[r].index_of(frames[i]);
                assert(s.held[r][k] == frames[i]);
            }
            assert(t.batch_frames() =~= s.batch_frames());
            assert(t.free_frames() =~= s.free_frames());
            assert(t.waiting_frames() =~= s.waiting_frames());
            assert(t.fwd_frames() =~= s.fwd_frames());
        },
        ProxyStep::Receive { r, i, packet, data } => {
            lemma_receive_keeps(s, step, x);
            assert(s.held[r][i].shmem_idx == r);
            assert(t.mem[r].len() == s.mem[r].len());
            assert forall|k: int| 0 <= k < t.held[r].len() implies (
            #[trigger] t.held[r][k]).shmem_idx == r by {
                assert(t.held[r][k] == s.held[r][if k < i {
                    k
                } else {
                    k + 1
                }]);
            }
        },
        ProxyStep::Send { r, i, f } => {
            lemma_send_keeps(s, r, i, f, x);
            lemma_batch_stays_home(s, r, i);
        },
        ProxyStep::Drop { r, i } => {
            lemma_drop_keeps(s, r, i, x);
            lemma_batch_stays_home(s, r, i);
        },
        ProxyStep::TakeIn { f, duplicate } => {
            lemma_take_in_keeps(s, f, duplicate, x);
        },
        ProxyStep::Batch { f, dests } => {
            lemma_batch_keeps(s, f, dests, x);
        },
        ProxyStep::FinishBatch { f, outcome } => {
            lemma_finish_keeps(s, f, outcome, x);
        },
        ProxyStep::Recycle { f } => {
            lemma_recycle_keeps(s, f, x);
        },
    }
}

proof fn lemma_initial_in_order(s: ProxyState, plan: PoolPlan)
    requires
        s.is_initial(plan),
    ensures
        s.in_order(plan),
{
    assert forall|r: int| 0 <= r < s.free.len() implies {
        &&& (#[trigger] s.free[r]).capacity == plan.num_frames
        &&& all_published(s.free[r].pending)
        &&& forall|i: int|
            0 <= i < s.free[r].pending.len() ==> (#[trigger] s.free[r].pending[i])->0.shmem_idx == r
    } by {}
}

pub(crate) proof fn lemma_steps_keep(
    s: ProxyState,
    steps: Seq<ProxyStep>,
    plan: PoolPlan,
    x: FrameDesc,
)
    requires
        plan.wf(),
        s.is_initial(plan),
        s.enables_all(steps),
    ensures
        s.after_all(steps).in_order(plan),
        s.after_all(steps).total(x) == s.total(x),
    decreases steps.len(),
{
    if steps.len() == 0 {
        lemma_initial_in_order(s, plan);
    } else {
        let before = s.after_all(steps.drop_last());
        lemma_steps_keep(s, steps.drop_last(), plan, x);
        if let ProxyStep::Receive { r, i, packet, data } = steps.last() {
            let frame = before.held[r][i];
            lemma_steps_keep(s, steps.drop_last(), plan, frame);
            lemma_initial_total(s, plan, frame);
            lemma_held_occurs(before, r, i);
            lemma_contained_occurs(planned_frames(plan), frame);
            lemma_planned_frame(plan, frame);
        }
        lemma_step_keeps(before, steps.last(), plan, x);
    }
}

/// A frame that a receiver can receive into is somewhere.
pub(crate) proof fn lemma_held_occurs(s: ProxyState, r: int, i: int)
    requires
        0 <= r < s.held.len(),
        0 <= i < s.held[r].len(),
    ensures
        occurs_in_all(s.held, s.held[r][i]) >= 1,
        s.total(s.held[r][i]) >= 1,
{
    let frame = s.held[r][i];
    assert(s.held[r].contains(frame));
    lemma_contained_occurs(s.held[r], frame);
    lemma_update_part(s.held, r, s.held[r], frame);
}

/// A frame of a plan lies within its region and shares no byte with another.
pub(crate) proof fn lemma_planned_frame(plan: PoolPlan, x: FrameDesc)
    requires
        plan.wf(),
        planned_frames(plan).contains(x),
    ensures
        x.shmem_idx < plan.num_recv_tiles,
        x.wf(),
        x.frame_size == plan.frame_size,
        x.fits(plan.num_frames * plan.frame_size),
        forall|y: FrameDesc|
            #![trigger planned_frames(plan).contains(y)]
            planned_frames(plan).contains(y) && y.shmem_idx == x.shmem_idx && y != x
                ==> x.disjoint(&y),
{
    let all = planned_frames(plan);
    let own = all_frames(plan.num_frames as nat, plan.frame_size, x.shmem_idx);
    lemma_pool_frames(plan, plan.num_recv_tiles as nat);
    let k = all.index_of(x);
    assert(all[k] == x);
    let i = own.index_of(x);
    assert(own[i] == x);
    law_region_is_cut_into_frames(plan.num_frames, plan.frame_size, x.shmem_idx, i, i);
    assert forall|y: FrameDesc|
        #![trigger planned_frames(plan).contains(y)]
        planned_frames(plan).contains(y) && y.shmem_idx == x.shmem_idx && y != x implies x.disjoint(
        &y,
    ) by {
        let m = all.index_of(y);
        assert(all[m] == y);
        let j = own.index_of(y);
        assert(own[j] == y);
        law_region_is_cut_into_frames(plan.num_frames, plan.frame_size, x.shmem_idx, i, j);
    }
}

/// The frames of the first `n` regions of a plan.
pub open spec fn pool_frames(plan: PoolPlan, n: nat) -> Seq<FrameDesc>
    decreases n,
{
    if n == 0 {
        seq![]
    } else {
        pool_frames(plan, (n - 1) as nat) + all_frames(
            plan.num_frames as nat,
            plan.frame_size,
            (n - 1) as usize,
        )
    }
}

/// All frames of a plan.
pub open spec fn planned_frames(plan: PoolPlan) -> Seq<FrameDesc> {
    pool_frames(plan, plan.num_recv_tiles as nat)
}

proof fn lemma_pool_frames(plan: PoolPlan, n: nat)
    requires
        plan.wf(),
        n <= plan.num_recv_tiles,
    ensures
        pool_frames(plan, n).no_duplicates(),
        pool_frames(plan, n).len() == plan.num_frames * n,
        forall|i: int|
            0 <= i < pool_frames(plan, n).len() ==> {
                let x = #[trigger] pool_frames(plan, n)[i];
                &&& x.shmem_idx < n
                &&& all_frames(plan.num_frames as nat, plan.frame_size, x.shmem_idx).contains(x)
            },
    decreases n,
{
    if n > 0 {
        let before = pool_frames(plan, (n - 1) as nat);
        let last = all_frames(plan.num_frames as nat, plan.frame_size, (n - 1) as usize);
        lemma_pool_frames(plan, (n - 1) as nat);
        assert(plan.num_frames * (n - 1) + plan.num_frames == plan.num_frames * n)
            by (nonlinear_arith);
        assert forall|i: int, j: int| 0 <= i < j < last.len() implies last[i] != last[j] by {
            law_region_is_cut_into_frames(
                plan.num_frames,
                plan.frame_size,
                (n - 1) as usize,
                i,
                j,
            );
        }
        vstd::seq_lib::lemma_no_dup_in_concat(before, last);
        let now = pool_frames(plan, n);
        assert forall|i: int| 0 <= i < now.len() implies {
            let x = #[trigger] now[i];
            &&& x.shmem_idx < n
            &&& all_frames(plan.num_frames as nat, plan.frame_size, x.shmem_idx).contains(x)
        } by {
            if i < before.len() {
                assert(now[i] == before[i]);
            } else {
                assert(now[i] == last[i - before.len()]);
            }
        }
    }
}

/// At first every frame of the plan is there once.
pub(crate) proof fn lemma_initial_total(s: ProxyState, plan: PoolPlan, x: FrameDesc)
    requires
        s.is_initial(plan),
    ensures
        s.total(x) == occurs(planned_frames(plan), x),
{
    lemma_free_prefix(s, plan, plan.num_recv_tiles as nat, x);
    assert(s.free_frames().take(plan.num_recv_tiles as int) =~= s.free_frames());
    assert forall|f: int| 0 <= f < s.waiting_frames().len() implies (
    #[trigger] s.waiting_frames()[f]).len() == 0 by {
        assert(s.waiting[f].pending.len() == 0);
    }
    assert forall|f: int| 0 <= f < s.fwd_frames().len() implies (
    #[trigger] s.fwd_frames()[f]).len() == 0 by {
        assert(s.fwd[f].queued.len() == 0);
    }
    assert forall|r: int| 0 <= r < s.batch_frames().len() implies (
    #[trigger] s.batch_frames()[r]).len() == 0 by {
        assert(s.batch[r].len() == 0);
    }
    lemma_nothing_occurs(s.held, x);
    lemma_nothing_occurs(s.batch_frames(), x);
    lemma_nothing_occurs(s.waiting_frames(), x);
    lemma_nothing_occurs(s.fwd_frames(), x);
}

proof fn lemma_free_prefix(s: ProxyState, plan: PoolPlan, n: nat, x: FrameDesc)
    requires
        s.is_initial(plan),
        n <= plan.num_recv_tiles,
    ensures
        occurs_in_all(s.free_frames().take(n as int), x) == occurs(pool_frames(plan, n), x),
    decreases n,
{
    if n == 0 {
        lemma_occurs_one(x, x);
    } else {
        lemma_free_prefix(s, plan, (n - 1) as nat, x);
        let parts = s.free_frames().take(n as int);
        let last = all_frames(plan.num_frames as nat, plan.frame_size, (n - 1) as usize);
        assert(parts.drop_last() =~= s.free_frames().take(n - 1));
        assert(s.free[n - 1].capacity == plan.num_frames);
        assert(parts.last() =~= last);
        lemma_occurs_concat(pool_frames(plan, (n - 1) as nat), last, x);
    }
}

pub(crate) proof fn lemma_nothing_occurs<T>(parts: Seq<Seq<T>>, x: T)
    requires
        forall|i: int| 0 <= i < parts.len() ==> (#[trigger] parts[i]).len() == 0,
    ensures
        occurs_in_all(parts, x) == 0,
    decreases parts.len(),
{
    if parts.len() > 0 {
        lemma_nothing_occurs(parts.drop_last(), x);
        assert(parts.last() =~= Seq::<T>::empty());
        lemma_occurs_one(x, x);
    }
}

/// A frame occurs where it is contained.
pub(crate) proof fn lemma_contained_occurs(frames: Seq<FrameDesc>, x: FrameDesc)
    ensures
        frames.contains(x) <==> occurs(frames, x) > 0,
{
    broadcast use vstd::seq_lib::group_to_multiset_ensures;

}

/// However the tiles interleave, no frame is lost and none is handed out twice:
/// every frame of the plan is at exactly one place, and nothing else is anywhere.
pub proof fn law_each_frame_is_at_one_place(
    start: ProxyState,
    steps: Seq<ProxyStep>,
    plan: PoolPlan,
    x: FrameDesc,
)
    requires
        plan.wf(),
        start.is_initial(plan),
        start.enables_all(steps),
    ensures
        start.after_all(steps).total(x) == if planned_frames(plan).contains(x) {
            1nat
        } else {
            0nat
        },
{
    lemma_steps_keep(start, steps, plan, x);
    lemma_initial_total(start, plan, x);
    lemma_pool_frames(plan, plan.num_recv_tiles as nat);
    planned_frames(plan).lemma_multiset_has_no_duplicates();
    lemma_contained_occurs(planned_frames(plan), x);
}

/// Frames that are all different, and of which one is missing, are fewer than all.
proof fn lemma_room_for_missing(some: Seq<FrameDesc>, missing: FrameDesc, all: Seq<FrameDesc>)
    requires
        forall|x: FrameDesc| #[trigger] occurs(some, x) <= 1,
        forall|i: int| 0 <= i < some.len() ==> all.contains(#[trigger] some[i]),
        occurs(some, missing) == 0,
        all.contains(missing),
    ensures
        some.len() < all.len(),
{
    assert forall|x: FrameDesc| some.to_multiset().contains(x) implies some.to_multiset().count(x)
        == 1 by {
        assert(occurs(some, x) <= 1);
    }
    some.lemma_multiset_has_no_duplicates_conv();
    lemma_contained_occurs(some, missing);
    let more = some.push(missing);
    assert(more.no_duplicates());
    more.unique_seq_to_set();
    assert(more.to_set().subset_of(all.to_set()));
    vstd::seq_lib::seq_to_set_is_finite(all);
    vstd::set_lib::lemma_len_subset(more.to_set(), all.to_set());
    all.lemma_cardinality_of_set();
}

/// However the tiles interleave, no ring is ever full when something is sent into
/// it: a receiver that sends a packet and a forwarder that gives a frame back
/// always find room.
pub proof fn law_rings_never_overflow(
    start: ProxyState,
    steps: Seq<ProxyStep>,
    plan: PoolPlan,
    step: ProxyStep,
)
    requires
        plan.wf(),
        start.is_initial(plan),
        start.enables_all(steps),
        start.after_all(steps).enables(step),
    ensures
        ({
            let s = start.after_all(steps);
            match step {
                ProxyStep::Send { r, i, f } => !s.waiting[f].is_full(),
                ProxyStep::Recycle { f } => !s.free[s.fwd[f].recycled.last().shmem_idx as int].is_full(),
                _ => true,
            }
        }),
{
    let s = start.after_all(steps);
    let all = planned_frames(plan);
    assert forall|x: FrameDesc| #[trigger]
        s.total(x) == if all.contains(x) {
            1nat
        } else {
            0nat
        } by {
        law_each_frame_is_at_one_place(start, steps, plan, x);
    }
    lemma_pool_frames(plan, plan.num_recv_tiles as nat);
    match step {
        ProxyStep::Send { r, i, f } => {
            let missing = s.batch[r][i].frame();
            lemma_steps_keep(start, steps, plan, missing);
            let some = frames_of(published(s.waiting[f].pending));
            assert(s.waiting_frames()[f] == some);
            assert forall|x: FrameDesc| #[trigger] occurs(some, x) <= s.total(x) by {
                lemma_update_part(s.waiting_frames(), f, some, x);
            }
            assert forall|k: int| 0 <= k < some.len() implies all.contains(#[trigger] some[k]) by {
                lemma_contained_occurs(some, some[k]);
                assert(occurs(some, some[k]) <= s.total(some[k]));
            }
            let part = frames_of(s.batch[r]);
            assert(part[i] == missing);
            assert(s.batch_frames()[r] == part);
            lemma_contained_occurs(part, missing);
            lemma_update_part(s.batch_frames(), r, part, missing);
            lemma_update_part(s.waiting_frames(), f, some, missing);
            lemma_room_for_missing(some, missing, all);
            assert(s.waiting[f].capacity >= plan.packet_ring_capacity);
        },
        ProxyStep::Recycle { f } => {
            let missing = s.fwd[f].recycled.last();
            let idx = missing.shmem_idx as int;
            lemma_steps_keep(start, steps, plan, missing);
            let some = published(s.free[idx].pending);
            let own = all_frames(plan.num_frames as nat, plan.frame_size, missing.shmem_idx);
            assert(s.free_frames()[idx] == some);
            assert forall|x: FrameDesc| #[trigger] occurs(some, x) <= s.total(x) by {
                lemma_update_part(s.free_frames(), idx, some, x);
            }
            assert(s.free[idx].capacity == plan.num_frames);
            assert forall|k: int| 0 <= k < some.len() implies own.contains(#[trigger] some[k]) by {
                lemma_contained_occurs(some, some[k]);
                assert(occurs(some, some[k]) <= s.total(some[k]));
                let j = all.index_of(some[k]);
                assert(all[j] == some[k]);
                assert(s.free[idx].pending[k]->0.shmem_idx == idx);
            }
            let part = frames_in(s.fwd[f]);
            assert(part.last() == missing);
            assert(part.contains(missing));
            assert(s.fwd_frames()[f] == part);
            lemma_contained_occurs(part, missing);
            lemma_update_part(s.fwd_frames(), f, part, missing);
            lemma_update_part(s.free_frames(), idx, some, missing);
            assert(all.contains(missing));
            let j = all.index_of(missing);
            assert(all[j] == missing);
            lemma_room_for_missing(some, missing, own);
        },
        _ => {},
    }
}

/// What goes to each of `num_dest` queues.
pub open spec fn spread(plan: Seq<(usize, TritonPacket)>, num_dest: nat) -> Seq<Seq<TritonPacket>> {
    Seq::new(num_dest, |dest: int| packets_for(plan, dest))
}

/// Each packet of a plan is sent exactly once, to the queue that it is routed to:
/// over all queues a packet is sent as often as it occurs in the plan, and what is
/// sent to a queue is routed to it.
pub proof fn law_each_routed_packet_is_sent_once(
    plan: Seq<(usize, TritonPacket)>,
    num_dest: nat,
    packet: TritonPacket,
)
    requires
        forall|i: int| 0 <= i < plan.len() ==> (#[trigger] plan[i]).0 < num_dest,
    ensures
        occurs_in_all(spread(plan, num_dest), packet) == occurs(
            plan.map_values(|m: (usize, TritonPacket)| m.1),
            packet,
        ),
        forall|dest: int, k: int|
            0 <= dest < num_dest && 0 <= k < packets_for(plan, dest).len() ==> plan.contains(
                (dest as usize, #[trigger] packets_for(plan, dest)[k]),
            ),
    decreases plan.len(),
{
    let parts = spread(plan, num_dest);
    let values = plan.map_values(|m: (usize, TritonPacket)| m.1);
    if plan.len() == 0 {
        lemma_nothing_occurs(parts, packet);
        assert(values =~= Seq::<TritonPacket>::empty());
        lemma_occurs_one(packet, packet);
    } else {
        let rest = plan.drop_last();
        let before = spread(rest, num_dest);
        let last = plan[plan.len() - 1];
        let dest = last.0 as int;
        law_each_routed_packet_is_sent_once(rest, num_dest, packet);
        assert(values =~= rest.map_values(|m: (usize, TritonPacket)| m.1) + seq![last.1]);
        lemma_occurs_concat(
            rest.map_values(|m: (usize, TritonPacket)| m.1),
            seq![last.1],
            packet,
        );
        assert(before[dest].push(last.1) =~= before[dest] + seq![last.1]);
        lemma_occurs_concat(before[dest], seq![last.1], packet);
        assert(parts =~= before.update(dest, before[dest] + seq![last.1]));
        lemma_update_part(before, dest, before[dest] + seq![last.1], packet);
        assert forall|d: int, k: int|
            0 <= d < num_dest && 0 <= k < packets_for(plan, d).len() implies plan.contains(
            (d as usize, #[trigger] packets_for(plan, d)[k]),
        ) by {
            if k < packets_for(rest, d).len() {
                assert(packets_for(plan, d)[k] == packets_for(rest, d)[k]);
                let i = rest.index_of((d as usize, packets_for(rest, d)[k]));
                assert(plan[i] == rest[i]);
            } else {
                assert(last == (d as usize, packets_for(plan, d)[k]));
            }
        }
    }
}

/// What is given back to each of `num_regions` rings of free frames.
pub open spec fn returned(frames: Seq<FrameDesc>, num_regions: nat) -> Seq<Seq<FrameDesc>> {
    Seq::new(num_regions, |idx: int| given_back(frames, idx))
}

/// Each frame is given back exactly once, to the ring of its own region: over all
/// rings a frame is given back as often as it occurs, and what is given back to a
/// ring is a frame of its region.
pub proof fn law_each_frame_is_given_back_once(
    frames: Seq<FrameDesc>,
    num_regions: nat,
    x: FrameDesc,
)
    requires
        forall|i: int| 0 <= i < frames.len() ==> (#[trigger] frames[i]).shmem_idx < num_regions,
    ensures
        occurs_in_all(returned(frames, num_regions), x) == occurs(frames, x),
        forall|idx: int, k: int|
            0 <= idx < num_regions && 0 <= k < given_back(frames, idx).len() ==> (
            #[trigger] given_back(frames, idx)[k]).shmem_idx == idx && frames.contains(
                given_back(frames, idx)[k],
            ),
    decreases frames.len(),
{
    let parts = returned(frames, num_regions);
    if frames.len() == 0 {
        lemma_nothing_occurs(parts, x);
        assert(frames =~= Seq::<FrameDesc>::empty());
        lemma_occurs_one(x, x);
    } else {
        let behind = frames.drop_first();
        let before = returned(behind, num_regions);
        let first = frames[0];
        let own = first.shmem_idx as int;
        law_each_frame_is_given_back_once(behind, num_regions, x);
        assert(frames =~= seq![first] + behind);
        lemma_occurs_concat(seq![first], behind, x);
        assert(before[own].push(first) =~= before[own] + seq![first]);
        lemma_occurs_concat(before[own], seq![first], x);
        assert(parts =~= before.update(own, before[own] + seq![first]));
        lemma_update_part(before, own, before[own] + seq![first], x);
        assert forall|idx: int, k: int|
            0 <= idx < num_regions && 0 <= k < given_back(frames, idx).len() implies (
        #[trigger] given_back(frames, idx)[k]).shmem_idx == idx && frames.contains(
            given_back(frames, idx)[k],
        ) by {
            if k < given_back(behind, idx).len() {
                assert(given_back(frames, idx)[k] == given_back(behind, idx)[k]);
                let i = behind.index_of(given_back(behind, idx)[k]);
                assert(frames[i + 1] == behind[i]);
            } else {
                assert(frames[0] == given_back(frames, idx)[k]);
            }
        }
    }
}

/// A burst that begins and ends leaves the receiver with the frames it had: those
/// that were set aside are in received packets or free again.
pub proof fn law_burst_keeps_frames(
    fill_buffers: Seq<FrameBufMut>,
    room: int,
    msgs: Seq<ReceivedMsg>,
    packets: Seq<TritonPacket>,
)
    requires
        0 <= room,
        ({
            let n = fill_buffers.len() as int;
            let inflight = fill_buffers.skip(n - burst_len(n, room)).reverse();
            &&& packets.len() == msgs.len() <= inflight.len()
            &&& forall|i: int|
                0 <= i < msgs.len() ==> is_received(#[trigger] packets[i], inflight[i], msgs[i])
        }),
    ensures
        ({
            let n = fill_buffers.len() as int;
            let inflight = fill_buffers.skip(n - burst_len(n, room)).reverse();
            let left = fill_buffers.take(n - burst_len(n, room));
            (frames_written(left + inflight.skip(msgs.len() as int)) + frames_of(
                packets,
            )).to_multiset() == frames_written(fill_buffers).to_multiset()
        }),
{
    let n = fill_buffers.len() as int;
    let c = burst_len(n, room);
    let set_aside = fill_buffers.skip(n - c);
    let inflight = set_aside.reverse();
    let left = fill_buffers.take(n - c);
    let unused = inflight.skip(msgs.len() as int);
    assert forall|i: int| 0 <= i < packets.len() implies #[trigger] frames_of(packets)[i]
        == frames_written(inflight)[i] by {
        assert(is_received(packets[i], inflight[i], msgs[i]));
    }
    assert(frames_written(inflight) =~= frames_of(packets) + frames_written(unused));
    assert(frames_written(inflight) =~= frames_written(set_aside).reverse());
    assert(frames_written(left + unused) =~= frames_written(left) + frames_written(unused));
    assert(frames_written(fill_buffers) =~= frames_written(left) + frames_written(set_aside));
    frames_written(set_aside).lemma_reverse_to_multiset();
    lemma_multiset_commutative(frames_of(packets), frames_written(unused));
    lemma_multiset_commutative(frames_written(left), frames_written(unused));
    lemma_multiset_commutative(frames_written(left + unused), frames_of(packets));
    lemma_multiset_commutative(frames_written(left), frames_written(set_aside));
    assert((frames_written(left + unused) + frames_of(packets)).to_multiset()
        =~= frames_written(fill_buffers).to_multiset());
}

/// Routing a batch leaves no frame behind: each is in a packet that has a
/// destination or can be received into again.
pub proof fn law_routing_keeps_frames(packets: Seq<TritonPacket>, dests: Seq<Option<usize>>)
    ensures
        (routed_frames(routed(packets, dests)) + unrouted(packets, dests)).to_multiset()
            == frames_of(packets).to_multiset(),
    decreases packets.len(),
{
    let sent = routed(packets, dests);
    let kept = unrouted(packets, dests);
    if packets.len() == 0 {
        assert(routed_frames(sent) + kept =~= frames_of(packets));
    } else {
        let rest = packets.drop_last();
        let frame = packets.last().frame();
        law_routing_keeps_frames(rest, dests.drop_last());
        let sent_before = routed(rest, dests.drop_last());
        let kept_before = unrouted(rest, dests.drop_last());
        assert(frames_of(packets) =~= frames_of(rest) + seq![frame]);
        lemma_multiset_commutative(frames_of(rest), seq![frame]);
        lemma_multiset_commutative(routed_frames(sent_before), kept_before);
        lemma_multiset_commutative(routed_frames(sent), kept);
        match dests.last() {
            Some(_) => {
                assert(routed_frames(sent) =~= routed_frames(sent_before) + seq![frame]);
                lemma_multiset_commutative(routed_frames(sent_before), seq![frame]);
            },
            None => {
                assert(kept =~= kept_before + seq![frame]);
                lemma_multiset_commutative(kept_before, seq![frame]);
            },
        }
        assert((routed_frames(sent) + kept).to_multiset() =~= frames_of(packets).to_multiset());
    }
}

/// The frames of packets that have a destination.
pub open spec fn routed_frames(plan: Seq<(usize, TritonPacket)>) -> Seq<FrameDesc> {
    plan.map_values(|m: (usize, TritonPacket)| m.1.frame())
}

} // verus!
