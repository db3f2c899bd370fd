//! Which steps of the whole proxy a call of a tile consists of.

use vstd::prelude::*;

use crate::fwd_tile::{given_back, FwdState};
use crate::mem::{FrameBufMut, FrameDesc};
use crate::packet::{TritonPacket, PACKET_DATA_SIZE};
use crate::pool::frames_written;
use crate::pool_laws::{fills, published, ProxyState, ProxyStep};
use crate::recv_mmsg::{
    burst_written, extended_by_frames, is_fresh, is_received, routed, unrouted, ReceivedMsg,
};
use crate::recv_tile::packets_for;

verus! {

/// What a refill does is the step that takes the oldest free frames: `frames` are
/// what [`RingInner::take_ready`](crate::ring::RingInner::take_ready) takes from
/// the ring of free frames, and
/// [`RecvTile::refill`](crate::recv_tile::RecvTile::refill) adds writers into them.
pub proof fn law_refill_is_its_step(
    s: ProxyState,
    r: int,
    before: Seq<FrameBufMut>,
    after: Seq<FrameBufMut>,
    frames: Seq<FrameDesc>,
)
    requires
        s.free.len() == s.held.len(),
        0 <= r < s.held.len(),
        frames.len() <= s.free[r].pending.len(),
        forall|i: int|
            0 <= i < frames.len() ==> s.free[r].pending[i] == Some(#[trigger] frames[i]),
        extended_by_frames(before, after, frames),
    ensures
        frames_written(after) == frames_written(before) + frames,
        ({
            let step = ProxyStep::Refill { r, n: frames.len() as int };
            &&& s.enables(step)
            &&& s.after(step).held[r] == s.held[r] + frames
            &&& s.after(step).free[r].pending == s.free[r].pending.skip(frames.len() as int)
        }),
{
    assert forall|i: int| 0 <= i < after.len() implies #[trigger] frames_written(after)[i] == (
    frames_written(before) + frames)[i] by {
        if i < before.len() {
            assert(after[i] == after.take(before.len() as int)[i]);
        } else {
            let k = i - before.len();
            assert(is_fresh(after[before.len() + k]));
        }
    }
    assert(frames_written(after) =~= frames_written(before) + frames);
    assert(published(s.free[r].pending.take(frames.len() as int)) =~= frames);
}

/// Taking in a packet is its step: `packet` is what
/// [`RingInner::try_recv`](crate::ring::RingInner::try_recv) takes from the queue,
/// and [`FwdTile::drain_one`](crate::fwd_tile::FwdTile::drain_one) takes it in.
pub proof fn law_taking_in_is_its_step(
    s: ProxyState,
    f: int,
    packet: TritonPacket,
    duplicate: bool,
)
    requires
        s.waiting.len() == s.fwd.len(),
        0 <= f < s.fwd.len(),
        s.waiting[f].pending.len() > 0,
        s.waiting[f].pending[0] == Some(packet),
    ensures
        ({
            let step = ProxyStep::TakeIn { f, duplicate };
            let t = s.after(step);
            &&& s.enables(step)
            &&& t.waiting[f].pending == s.waiting[f].pending.drop_first()
            &&& t.fwd[f] == s.fwd[f].take_in(packet, duplicate)
            &&& t.mem == s.mem
            &&& t.free == s.free
            &&& t.held == s.held
            &&& t.batch == s.batch
        }),
{
}

/// The steps that receive `msgs` as `packets`, one behind the other.
pub open spec fn receive_steps(
    r: int,
    packets: Seq<TritonPacket>,
    msgs: Seq<ReceivedMsg>,
) -> Seq<ProxyStep> {
    Seq::new(
        packets.len(),
        |i: int| ProxyStep::Receive { r, i: 0, packet: packets[i], data: msgs[i].data@ },
    )
}

/// Ending a burst is its steps: receiving the messages one by one puts into the
/// region and the batch what
/// [`complete_burst`](crate::recv_mmsg::complete_burst) says, and the receiver keeps
/// the other frames. `bufs` are the frames of the burst, which come first among
/// those that the receiver can receive into.
pub proof fn law_receiving_is_its_steps(
    s: ProxyState,
    r: int,
    bufs: Seq<FrameBufMut>,
    msgs: Seq<ReceivedMsg>,
    packets: Seq<TritonPacket>,
    rest: Seq<FrameDesc>,
)
    requires
        0 <= r < s.held.len(),
        s.batch.len() == s.held.len(),
        s.mem.len() == s.held.len(),
        packets.len() == msgs.len() <= bufs.len(),
        s.held[r] == frames_written(bufs.take(msgs.len() as int)) + rest,
        forall|i: int|
            0 <= i < msgs.len() ==> {
                &&& is_received(#[trigger] packets[i], bufs[i], msgs[i])
                &&& msgs[i].data@.len() <= PACKET_DATA_SIZE <= bufs[i].spec_desc().frame_size
            },
    ensures
        s.enables_all(receive_steps(r, packets, msgs)),
        s.after_all(receive_steps(r, packets, msgs)) == (ProxyState {
            mem: s.mem.update(r, burst_written(s.mem[r], bufs, msgs)),
            held: s.held.update(r, rest),
            batch: s.batch.update(r, s.batch[r] + packets),
            ..s
        }),
    decreases msgs.len(),
{
    let n = msgs.len() as int;
    let steps = receive_steps(r, packets, msgs);
    let end = ProxyState {
        mem: s.mem.update(r, burst_written(s.mem[r], bufs, msgs)),
        held: s.held.update(r, rest),
        batch: s.batch.update(r, s.batch[r] + packets),
        ..s
    };
    if n == 0 {
        assert(frames_written(bufs.take(n)) + rest =~= rest);
        assert(end.mem =~= s.mem);
        assert(end.held =~= s.held);
        assert(s.batch[r] + packets =~= s.batch[r]);
        assert(end.batch =~= s.batch);
    } else {
        let frame = bufs[n - 1].spec_desc();
        let more = seq![frame] + rest;
        assert(frames_written(bufs.take(n)) + rest =~= frames_written(bufs.take(n - 1)) + more);
        let before_packets = packets.drop_last();
        let before_msgs = msgs.drop_last();
        assert forall|i: int| 0 <= i < n - 1 implies {
            &&& is_received(#[trigger] before_packets[i], bufs[i], before_msgs[i])
            &&& before_msgs[i].data@.len() <= PACKET_DATA_SIZE <= bufs[i].spec_desc().frame_size
        } by {
            assert(is_received(packets[i], bufs[i], msgs[i]));
        }
        law_receiving_is_its_steps(s, r, bufs, before_msgs, before_packets, more);
        assert(steps.drop_last() =~= receive_steps(r, before_packets, before_msgs));
        assert(is_received(packets[n - 1], bufs[n - 1], msgs[n - 1]));
        let t = s.after_all(steps.drop_last());
        assert(t.held[r][0] == frame);
        assert(fills(packets[n - 1], frame, msgs[n - 1].data@));
        assert(more.remove(0) =~= rest);
        let u = s.after_all(steps);
        assert(u == t.after(steps.last()));
        assert(u.mem =~= end.mem);
        assert(u.held =~= end.held);
        assert((s.batch[r] + before_packets).push(packets[n - 1]) =~= s.batch[r] + packets);
        assert(u.batch =~= end.batch);
    }
}

/// The steps that hand the packets of a batch on, one behind the other, where they go
/// to `dests`.
pub open spec fn hand_on_steps(r: int, dests: Seq<Option<usize>>) -> Seq<ProxyStep> {
    dests.map_values(
        |d: Option<usize>|
            match d {
                Some(dest) => ProxyStep::Send { r, i: 0, f: dest as int },
                None => ProxyStep::Drop { r, i: 0 },
            },
    )
}

/// Handing a batch on is its steps: sending or dropping its packets one by one puts
/// into each queue what [`RecvTile::hand_on`](crate::recv_tile::RecvTile::hand_on)
/// says was sent to it, and the frames that it says are free are so. `rest` are
/// packets behind those that are handed on.
pub proof fn law_handing_on_is_its_steps(
    s: ProxyState,
    r: int,
    packets: Seq<TritonPacket>,
    rest: Seq<TritonPacket>,
    dests: Seq<Option<usize>>,
)
    requires
        0 <= r < s.held.len(),
        s.batch.len() == s.held.len(),
        s.batch[r] == packets + rest,
        dests.len() == packets.len(),
        forall|i: int|
            0 <= i < dests.len() ==> (#[trigger] dests[i] matches Some(dest) ==> dest
                < s.waiting.len()),
    ensures
        s.enables_all(hand_on_steps(r, dests)),
        ({
            let t = s.after_all(hand_on_steps(r, dests));
            let plan = routed(packets, dests);
            &&& t.mem == s.mem
            &&& t.batch == s.batch.update(r, rest)
            &&& t.held == s.held.update(
                r,
                s.held[r] + unrouted(packets, dests),
            )
            &&& t.free == s.free
            &&& t.fwd == s.fwd
            &&& t.waiting.len() == s.waiting.len()
            &&& forall|f: int|
                0 <= f < s.waiting.len() ==> (#[trigger] t.waiting[f]).pending
                    == s.waiting[f].pending + packets_for(plan, f).map_values(
                    |p: TritonPacket| Some(p),
                )
        }),
    decreases packets.len(),
{
    let steps = hand_on_steps(r, dests);
    let plan = routed(packets, dests);
    if packets.len() == 0 {
        assert(packets + rest =~= rest);
        assert(s.batch.update(r, rest) =~= s.batch);
        assert(s.held[r] + unrouted(packets, dests) =~= s.held[r]);
        assert(s.held.update(r, s.held[r]) =~= s.held);
        assert forall|f: int| 0 <= f < s.waiting.len() implies (
        #[trigger] s.waiting[f]).pending == s.waiting[f].pending + packets_for(plan, f).map_values(
            |p: TritonPacket| Some(p),
        ) by {
            assert(s.waiting[f].pending =~= s.waiting[f].pending + packets_for(plan, f).map_values(
                |p: TritonPacket| Some(p),
            ));
        }
    } else {
        let front = packets.drop_last();
        let front_dests = dests.drop_last();
        let last = packets[packets.len() - 1];
        let behind = seq![last] + rest;
        let front_plan = routed(front, front_dests);
        assert(packets + rest =~= front + behind);
        assert forall|i: int| 0 <= i < front_dests.len() implies (#[trigger] front_dests[i]
            matches Some(dest) ==> dest < s.waiting.len()) by {
            assert(front_dests[i] == dests[i]);
        }
        law_handing_on_is_its_steps(s, r, front, behind, front_dests);
        assert(steps.drop_last() =~= hand_on_steps(r, front_dests));
        let t = s.after_all(steps.drop_last());
        let u = s.after_all(steps);
        assert(u == t.after(steps.last()));
        assert(t.batch[r] == behind);
        assert(behind[0] == last);
        assert(behind.remove(0) =~= rest);
        assert(u.batch =~= s.batch.update(r, rest));
        let free = unrouted(front, front_dests);
        match dests.last() {
            Some(dest) => {
                assert(steps.last() == (ProxyStep::Send { r, i: 0, f: dest as int }));
                assert(plan.drop_last() =~= front_plan);
            },
            None => {
                assert(steps.last() == (ProxyStep::Drop { r, i: 0 }));
                assert((s.held[r] + free).push(last.frame()) =~= s.held[r] + free.push(
                    last.frame(),
                ));
                assert(u.held =~= s.held.update(
                    r,
                    s.held[r] + unrouted(packets, dests),
                ));
            },
        }
        assert forall|f: int| 0 <= f < s.waiting.len() implies (#[trigger] u.waiting[f]).pending
            == s.waiting[f].pending + packets_for(plan, f).map_values(
            |p: TritonPacket| Some(p),
        ) by {
            assert(t.waiting[f].pending == s.waiting[f].pending + packets_for(
                front_plan,
                f,
            ).map_values(|p: TritonPacket| Some(p)));
            assert(u.waiting[f].pending =~= s.waiting[f].pending + packets_for(plan, f).map_values(
                |p: TritonPacket| Some(p),
            ));
        }
    }
}

/// The steps that give `n` frames of forwarder `f` back.
pub open spec fn recycle_steps(f: int, n: nat) -> Seq<ProxyStep> {
    Seq::new(n, |i: int| ProxyStep::Recycle { f })
}

/// Giving frames back is its steps: giving the last `n` frames of a forwarder back
/// one by one puts into each ring of free frames what
/// [`FwdTile::recycle`](crate::fwd_tile::FwdTile::recycle) says was sent into it.
pub proof fn law_giving_back_is_its_steps(s: ProxyState, f: int, n: nat)
    requires
        s.waiting.len() == s.fwd.len(),
        s.free.len() == s.held.len(),
        0 <= f < s.fwd.len(),
        n <= s.fwd[f].recycled.len(),
        forall|i: int|
            0 <= i < s.fwd[f].recycled.len() ==> (#[trigger] s.fwd[f].recycled[i]).shmem_idx
                < s.held.len(),
    ensures
        s.enables_all(recycle_steps(f, n)),
        ({
            let t = s.after_all(recycle_steps(f, n));
            let left = s.fwd[f].recycled.len() - n;
            &&& t.mem == s.mem
            &&& t.held == s.held
            &&& t.batch == s.batch
            &&& t.waiting == s.waiting
            &&& t.fwd == s.fwd.update(
                f,
                FwdState { recycled: s.fwd[f].recycled.take(left), ..s.fwd[f] },
            )
            &&& t.free.len() == s.free.len()
            &&& forall|i: int|
                0 <= i < s.free.len() ==> (#[trigger] t.free[i]).pending == s.free[i].pending
                    + given_back(s.fwd[f].recycled.skip(left), i).map_values(
                    |x: FrameDesc| Some(x),
                )
        }),
    decreases n,
{
    let steps = recycle_steps(f, n);
    let all = s.fwd[f].recycled;
    let left = all.len() - n;
    if n == 0 {
        assert(all.take(left) =~= all);
        assert(all.skip(left) =~= seq![]);
        assert(s.fwd.update(f, FwdState { recycled: all.take(left), ..s.fwd[f] }) =~= s.fwd);
        assert forall|i: int| 0 <= i < s.free.len() implies (#[trigger] s.free[i]).pending
            == s.free[i].pending + given_back(all.skip(left), i).map_values(
            |x: FrameDesc| Some(x),
        ) by {
            assert(s.free[i].pending =~= s.free[i].pending + given_back(
                all.skip(left),
                i,
            ).map_values(|x: FrameDesc| Some(x)));
        }
    } else {
        law_giving_back_is_its_steps(s, f, (n - 1) as nat);
        assert(steps.drop_last() =~= recycle_steps(f, (n - 1) as nat));
        let t = s.after_all(recycle_steps(f, (n - 1) as nat));
        let u = s.after_all(steps);
        let frame = all[left];
        assert(steps.last() == (ProxyStep::Recycle { f }));
        assert(all.take(left + 1).last() == frame);
        assert(all.take(left + 1).drop_last() =~= all.take(left));
        assert(u == t.after(steps.last()));
        assert(u.fwd =~= s.fwd.update(f, FwdState { recycled: all.take(left), ..s.fwd[f] }));
        assert(all.skip(left).drop_first() =~= all.skip(left + 1));
        assert forall|i: int| 0 <= i < s.free.len() implies (#[trigger] u.free[i]).pending
            == s.free[i].pending + given_back(all.skip(left), i).map_values(
            |x: FrameDesc| Some(x),
        ) by {
            assert(t.free[i].pending == s.free[i].pending + given_back(
                all.skip(left + 1),
                i,
            ).map_values(|x: FrameDesc| Some(x)));
            assert(u.free[i].pending =~= s.free[i].pending + given_back(
                all.skip(left),
                i,
            ).map_values(|x: FrameDesc| Some(x)));
        }
    }
}

} // verus!
