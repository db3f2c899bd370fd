//! What is sent is what was received, however the tiles of the proxy interleave.

use vstd::prelude::*;

use crate::addr::SocketAddress;
use crate::fwd_tile::{batch_packets, fan_out, outgoing, Outgoing};
use crate::mem::{write_bytes, FrameDesc};
use crate::packet::TritonPacket;
use crate::pool::frames_of;
use crate::pool_laws::{
    fills, frames_in, law_each_frame_is_at_one_place, lemma_contained_occurs, lemma_held_occurs,
    lemma_initial_total, lemma_planned_frame, lemma_steps_keep, lemma_update_part, planned_frames,
    published, ProxyState, ProxyStep,
};
use crate::recv_mmsg::unstaked;
use crate::triton_forwarder::PoolPlan;

verus! {

/// What was received into `frame` last: as which packet, and which bytes.
pub open spec fn last_arrival(steps: Seq<ProxyStep>, frame: FrameDesc) -> Option<
    (TritonPacket, Seq<u8>),
>
    decreases steps.len(),
{
    if steps.len() == 0 {
        None
    } else {
        match steps.last() {
            ProxyStep::Receive { r, i, packet, data } => if packet.frame() == frame {
                Some((packet, data))
            } else {
                last_arrival(steps.drop_last(), frame)
            },
            _ => last_arrival(steps.drop_last(), frame),
        }
    }
}

/// `packet` is what was received into its frame last, and its payload, in regions
/// that hold `mem`, is what was received.
pub open spec fn carries(
    steps: Seq<ProxyStep>,
    mem: Seq<Seq<u8>>,
    packet: TritonPacket,
) -> bool {
    last_arrival(steps, packet.frame()) matches Some((received, data)) && {
        &&& fills(received, packet.frame(), data)
        &&& unstaked(packet) == unstaked(received)
        &&& packet.frame().fits(mem[packet.frame().shmem_idx as int].len() as int)
        &&& packet.payload(mem[packet.frame().shmem_idx as int]) == data
    }
}

/// `message` sends the packet that was received into its frame last, and its bytes,
/// in regions that hold `mem`, are what was received.
pub open spec fn forwards(
    steps: Seq<ProxyStep>,
    mem: Seq<Seq<u8>>,
    message: Outgoing,
) -> bool {
    last_arrival(steps, message.frame) matches Some((received, data)) && {
        &&& fills(received, message.frame, data)
        &&& message == outgoing(received, message.dest)
        &&& message.frame.fits(mem[message.frame.shmem_idx as int].len() as int)
        &&& message.bytes(mem[message.frame.shmem_idx as int]) == data
    }
}

/// Every packet carries what was received, and so does every message of a batch
/// that is being sent.
pub open spec fn all_carry(steps: Seq<ProxyStep>, s: ProxyState) -> bool {
    &&& forall|r: int, i: int|
        0 <= r < s.batch.len() && 0 <= i < s.batch[r].len() ==> carries(
            steps,
            s.mem,
            #[trigger] s.batch[r][i],
        )
    &&& forall|f: int, i: int|
        0 <= f < s.waiting.len() && 0 <= i < s.waiting[f].pending.len() ==> carries(
            steps,
            s.mem,
            (#[trigger] s.waiting[f].pending[i])->0,
        )
    &&& forall|f: int, i: int|
        0 <= f < s.fwd.len() && 0 <= i < s.fwd[f].queued.len() ==> carries(
            steps,
            s.mem,
            #[trigger] s.fwd[f].queued[i],
        )
    &&& forall|f: int, i: int|
        0 <= f < s.fwd.len() && 0 <= i < s.fwd[f].batch.len() && s.fwd[f].sending.len() > 0
            ==> forwards(steps, s.mem, #[trigger] s.fwd[f].batch[i])
}

/// The frames of a batch that is being sent are set aside.
spec fn batches_set_aside(s: ProxyState) -> bool {
    forall|f: int, i: int|
        0 <= f < s.fwd.len() && 0 <= i < s.fwd[f].batch.len() && s.fwd[f].sending.len() > 0
            ==> s.fwd[f].sending.contains((#[trigger] s.fwd[f].batch[i]).frame)
}

/// The messages of packets send what the packets carry, from their frames.
proof fn lemma_fan_out_forwards(
    steps: Seq<ProxyStep>,
    mem: Seq<Seq<u8>>,
    packets: Seq<TritonPacket>,
    dests: Seq<SocketAddress>,
)
    requires
        forall|i: int| 0 <= i < packets.len() ==> carries(steps, mem, #[trigger] packets[i]),
    ensures
        forall|k: int|
            0 <= k < fan_out(packets, dests).len() ==> {
                &&& forwards(steps, mem, #[trigger] fan_out(packets, dests)[k])
                &&& frames_of(packets).contains(fan_out(packets, dests)[k].frame)
            },
    decreases packets.len(),
{
    if packets.len() > 0 {
        let rest = packets.drop_last();
        let before = fan_out(rest, dests);
        let now = fan_out(packets, dests);
        let last = packets[packets.len() - 1];
        lemma_fan_out_forwards(steps, mem, rest, dests);
        assert forall|k: int| 0 <= k < now.len() implies {
            &&& forwards(steps, mem, #[trigger] now[k])
            &&& frames_of(packets).contains(now[k].frame)
        } by {
            if k < before.len() {
                assert(now[k] == before[k]);
                let i = frames_of(rest).index_of(before[k].frame);
                assert(frames_of(packets)[i] == frames_of(rest)[i]);
            } else {
                let m = now[k];
                assert(m == outgoing(last, dests[k - before.len()]));
                assert(carries(steps, mem, last));
                let (received, data) = last_arrival(steps, last.frame())->0;
                assert(unstaked(last).buffer == unstaked(received).buffer);
                assert(unstaked(last).meta.size == unstaked(received).meta.size);
                let bytes = mem[m.frame.shmem_idx as int];
                assert(last.payload(bytes) =~= m.bytes(bytes));
                assert(frames_of(packets)[packets.len() - 1] == m.frame);
            }
        }
    }
}

/// Writing into one frame leaves what lies in another alone.
proof fn lemma_other_frame_spared(
    mem: Seq<u8>,
    frame: FrameDesc,
    data: Seq<u8>,
    start: int,
    end: int,
    other: FrameDesc,
)
    requires
        frame.fits(mem.len() as int),
        other.fits(mem.len() as int),
        data.len() <= frame.frame_size,
        frame.disjoint(&other),
        other.ptr <= start <= end <= other.ptr + other.frame_size,
    ensures
        write_bytes(mem, frame.ptr as int, data).subrange(start, end) =~= mem.subrange(start, end),
{
}

/// What is received into one frame leaves what packets in other frames carry alone.
proof fn lemma_receive_spares(
    steps: Seq<ProxyStep>,
    s: ProxyState,
    plan: PoolPlan,
    step: ProxyStep,
    frame: FrameDesc,
)
    requires
        plan.wf(),
        s.in_order(plan),
        s.enables(step),
        step is Receive,
        planned_frames(plan).contains(step->Receive_packet.frame()),
        planned_frames(plan).contains(frame),
        frame != step->Receive_packet.frame(),
    ensures
        last_arrival(steps.push(step), frame) == last_arrival(steps, frame),
        s.after(step).mem[frame.shmem_idx as int].len() == s.mem[frame.shmem_idx as int].len(),
        forall|start: int, end: int|
            frame.ptr <= start <= end <= frame.ptr + frame.frame_size ==> #[trigger] s.after(
                step,
            ).mem[frame.shmem_idx as int].subrange(start, end)
                =~= s.mem[frame.shmem_idx as int].subrange(start, end),
{
    assert(steps.push(step).drop_last() =~= steps);
    if let ProxyStep::Receive { r, i, packet, data } = step {
        let own = packet.frame();
        assert(s.held[r][i].shmem_idx == r);
        lemma_planned_frame(plan, own);
        lemma_planned_frame(plan, frame);
        let t = s.after(step);
        let idx = frame.shmem_idx as int;
        assert(s.mem[r].len() == plan.num_frames * plan.frame_size);
        assert forall|start: int, end: int|
            frame.ptr <= start <= end <= frame.ptr + frame.frame_size implies #[trigger] t.mem[idx].subrange(
            start,
            end,
        ) =~= s.mem[idx].subrange(start, end) by {
            if idx == r {
                lemma_other_frame_spared(s.mem[r], own, data, start, end, frame);
            }
        }
    }
}

/// What a packet carries, and what a message forwards, stays so while another frame
/// is received into.
proof fn lemma_receive_keeps_carried(
    steps: Seq<ProxyStep>,
    s: ProxyState,
    plan: PoolPlan,
    step: ProxyStep,
    frame: FrameDesc,
)
    requires
        plan.wf(),
        s.in_order(plan),
        s.enables(step),
        step is Receive,
        planned_frames(plan).contains(step->Receive_packet.frame()),
        planned_frames(plan).contains(frame),
        frame != step->Receive_packet.frame(),
    ensures
        forall|p: TritonPacket|
            p.frame() == frame && #[trigger] carries(steps, s.mem, p) ==> carries(
                steps.push(step),
                s.after(step).mem,
                p,
            ),
        forall|m: Outgoing|
            m.frame == frame && #[trigger] forwards(steps, s.mem, m) ==> forwards(
                steps.push(step),
                s.after(step).mem,
                m,
            ),
{
    lemma_receive_spares(steps, s, plan, step, frame);
    let t = s.after(step);
    let before = s.mem[frame.shmem_idx as int];
    let after = t.mem[frame.shmem_idx as int];
    assert forall|p: TritonPacket| p.frame() == frame && #[trigger] carries(
        steps,
        s.mem,
        p,
    ) implies carries(steps.push(step), t.mem, p) by {
        let (received, data) = last_arrival(steps, frame)->0;
        assert(unstaked(p).buffer == unstaked(received).buffer);
        let (start, end) = (p.buffer.start(), p.buffer.end());
        assert(after.subrange(start, end) =~= before.subrange(start, end));
    }
    assert forall|m: Outgoing| m.frame == frame && #[trigger] forwards(
        steps,
        s.mem,
        m,
    ) implies forwards(steps.push(step), t.mem, m) by {
        assert(after.subrange(m.start, m.end) =~= before.subrange(m.start, m.end));
    }
}

/// Nothing that a packet or a message is in can be received into, and everything is
/// in a frame of the plan.
proof fn lemma_in_use(start: ProxyState, steps: Seq<ProxyStep>, plan: PoolPlan, x: FrameDesc)
    requires
        plan.wf(),
        start.is_initial(plan),
        start.enables_all(steps),
        ({
            let s = start.after_all(steps);
            ||| exists|r: int, i: int|
                0 <= r < s.batch.len() && 0 <= i < s.batch[r].len() && (
                #[trigger] s.batch[r][i]).frame() == x
            ||| exists|f: int, i: int|
                0 <= f < s.waiting.len() && 0 <= i < s.waiting[f].pending.len() && (
                #[trigger] s.waiting[f].pending[i])->0.frame() == x
            ||| exists|f: int|
                0 <= f < s.fwd.len() && frames_in(#[trigger] s.fwd[f]).contains(x)
        }),
    ensures
        planned_frames(plan).contains(x),
        forall|r: int, i: int|
            0 <= r < start.after_all(steps).held.len() && 0 <= i < start.after_all(
                steps,
            ).held[r].len() ==> #[trigger] start.after_all(steps).held[r][i] != x,
{
    let s = start.after_all(steps);
    law_each_frame_is_at_one_place(start, steps, plan, x);
    if exists|r: int, i: int|
        0 <= r < s.batch.len() && 0 <= i < s.batch[r].len() && (
        #[trigger] s.batch[r][i]).frame() == x {
        let (r, i) = choose|r: int, i: int|
            0 <= r < s.batch.len() && 0 <= i < s.batch[r].len() && (
            #[trigger] s.batch[r][i]).frame() == x;
        let part = frames_of(s.batch[r]);
        assert(part[i] == x);
        assert(s.batch_frames()[r] == part);
        lemma_contained_occurs(part, x);
        lemma_update_part(s.batch_frames(), r, part, x);
    } else if exists|f: int, i: int|
        0 <= f < s.waiting.len() && 0 <= i < s.waiting[f].pending.len() && (
        #[trigger] s.waiting[f].pending[i])->0.frame() == x {
        let (f, i) = choose|f: int, i: int|
            0 <= f < s.waiting.len() && 0 <= i < s.waiting[f].pending.len() && (
            #[trigger] s.waiting[f].pending[i])->0.frame() == x;
        let part = frames_of(published(s.waiting[f].pending));
        assert(part[i] == x);
        assert(s.waiting_frames()[f] == part);
        lemma_contained_occurs(part, x);
        lemma_update_part(s.waiting_frames(), f, part, x);
    } else {
        let f = choose|f: int| 0 <= f < s.fwd.len() && frames_in(#[trigger] s.fwd[f]).contains(x);
        let part = frames_in(s.fwd[f]);
        assert(s.fwd_frames()[f] == part);
        lemma_contained_occurs(part, x);
        lemma_update_part(s.fwd_frames(), f, part, x);
    }
    assert forall|r: int, i: int|
        0 <= r < s.held.len() && 0 <= i < s.held[r].len() implies #[trigger] s.held[r][i] != x by {
        if s.held[r][i] == x {
            lemma_held_occurs(s, r, i);
        }
    }
}

/// Receiving a packet leaves what all others carry alone, and it carries what was
/// received.
proof fn lemma_receive_carries(
    start: ProxyState,
    steps: Seq<ProxyStep>,
    plan: PoolPlan,
    step: ProxyStep,
)
    requires
        plan.wf(),
        start.is_initial(plan),
        start.enables_all(steps),
        start.after_all(steps).enables(step),
        step is Receive,
        all_carry(steps, start.after_all(steps)),
        batches_set_aside(start.after_all(steps)),
    ensures
        all_carry(steps.push(step), start.after_all(steps).after(step)),
{
    let s = start.after_all(steps);
    let t = s.after(step);
    let all = steps.push(step);
    if let ProxyStep::Receive { r, i, packet, data } = step {
        let own = s.held[r][i];
        lemma_steps_keep(start, steps, plan, own);
        lemma_initial_total(start, plan, own);
        lemma_held_occurs(s, r, i);
        lemma_contained_occurs(planned_frames(plan), own);
        lemma_planned_frame(plan, own);
        assert(own.shmem_idx == r);
        assert(s.mem[r].len() == plan.num_frames * plan.frame_size);
        assert forall|q: int, k: int| 0 <= q < t.batch.len() && 0 <= k < t.batch[q].len() implies carries(
            all,
            t.mem,
            #[trigger] t.batch[q][k],
        ) by {
            let p = t.batch[q][k];
            if q == r && k == s.batch[r].len() {
                assert(p == packet);
                assert(packet.payload(t.mem[r]) =~= data);
            } else {
                assert(p == s.batch[q][k]);
                assert(carries(steps, s.mem, s.batch[q][k]));
                lemma_in_use(start, steps, plan, p.frame());
                lemma_receive_keeps_carried(steps, s, plan, step, p.frame());
            }
        }
        assert forall|f: int, k: int|
            0 <= f < t.waiting.len() && 0 <= k < t.waiting[f].pending.len() implies carries(
            all,
            t.mem,
            (#[trigger] t.waiting[f].pending[k])->0,
        ) by {
            let p = s.waiting[f].pending[k]->0;
            assert(carries(steps, s.mem, p));
            lemma_in_use(start, steps, plan, p.frame());
            lemma_receive_keeps_carried(steps, s, plan, step, p.frame());
        }
        assert forall|f: int, k: int| 0 <= f < t.fwd.len() && 0 <= k < t.fwd[f].queued.len() implies carries(
            all,
            t.mem,
            #[trigger] t.fwd[f].queued[k],
        ) by {
            let p = s.fwd[f].queued[k];
            assert(carries(steps, s.mem, p));
            assert(frames_in(s.fwd[f])[k] == p.frame());
            lemma_in_use(start, steps, plan, p.frame());
            lemma_receive_keeps_carried(steps, s, plan, step, p.frame());
        }
        assert forall|f: int, k: int|
            0 <= f < t.fwd.len() && 0 <= k < t.fwd[f].batch.len() && t.fwd[f].sending.len() > 0 implies forwards(
            all,
            t.mem,
            #[trigger] t.fwd[f].batch[k],
        ) by {
            let fwd = s.fwd[f];
            let m = fwd.batch[k];
            assert(forwards(steps, s.mem, m));
            let j = fwd.sending.index_of(m.frame);
            assert(frames_in(fwd)[fwd.queued.len() + j] == m.frame);
            lemma_in_use(start, steps, plan, m.frame);
            lemma_receive_keeps_carried(steps, s, plan, step, m.frame);
        }
    }
}

/// A step that receives nothing moves packets about and leaves what they carry
/// alone.
proof fn lemma_other_step_carries(steps: Seq<ProxyStep>, s: ProxyState, step: ProxyStep)
    requires
        s.waiting.len() == s.fwd.len(),
        s.batch.len() == s.held.len(),
        s.enables(step),
        !(step is Receive),
        all_carry(steps, s),
    ensures
        all_carry(steps.push(step), s.after(step)),
{
    let t = s.after(step);
    let all = steps.push(step);
    assert(all.drop_last() =~= steps);
    assert(forall|x: FrameDesc| #[trigger] last_arrival(all, x) == last_arrival(steps, x));
    assert(forall|p: TritonPacket|
        #[trigger] carries(all, t.mem, p) == carries(steps, s.mem, p));
    assert(forall|m: Outgoing| #[trigger] forwards(all, t.mem, m) == forwards(steps, s.mem, m));
    match step {
        ProxyStep::Send { r, i, f } => {
            let p = s.batch[r][i];
            assert(carries(steps, s.mem, p));
            assert(unstaked(unstaked(p)) == unstaked(p));
            assert(carries(steps, s.mem, unstaked(p)));
            lemma_unbatched_carry(steps, s, r, i);
        },
        ProxyStep::Drop { r, i } => {
            lemma_unbatched_carry(steps, s, r, i);
        },
        ProxyStep::TakeIn { f, duplicate } => {
            assert(carries(steps, s.mem, s.waiting[f].pending[0]->0));
            assert forall|k: int| 0 <= k < t.waiting[f].pending.len() implies carries(
                steps,
                s.mem,
                (#[trigger] t.waiting[f].pending[k])->0,
            ) by {
                assert(t.waiting[f].pending[k] == s.waiting[f].pending[k + 1]);
            }
        },
        ProxyStep::Batch { f, dests } => {
            let fwd = s.fwd[f];
            let n = batch_packets(fwd.queued.len(), dests.len()) as int;
            let taken = fwd.queued.take(n);
            assert forall|k: int| 0 <= k < taken.len() implies carries(
                steps,
                s.mem,
                #[trigger] taken[k],
            ) by {
                assert(taken[k] == fwd.queued[k]);
            }
            lemma_fan_out_forwards(steps, s.mem, taken, dests);
            assert forall|k: int| 0 <= k < t.fwd[f].queued.len() implies carries(
                steps,
                s.mem,
                #[trigger] t.fwd[f].queued[k],
            ) by {
                if fwd.queued.len() > 0 {
                    assert(t.fwd[f].queued[k] == fwd.queued[k + n]);
                }
            }
        },
        _ => {},
    }
}

proof fn lemma_unbatched_carry(steps: Seq<ProxyStep>, s: ProxyState, r: int, i: int)
    requires
        0 <= r < s.batch.len(),
        0 <= i < s.batch[r].len(),
        all_carry(steps, s),
    ensures
        forall|k: int|
            0 <= k < s.batch[r].remove(i).len() ==> carries(
                steps,
                s.mem,
                #[trigger] s.batch[r].remove(i)[k],
            ),
{
    assert forall|k: int| 0 <= k < s.batch[r].remove(i).len() implies carries(
        steps,
        s.mem,
        #[trigger] s.batch[r].remove(i)[k],
    ) by {
        assert(s.batch[r].remove(i)[k] == s.batch[r][if k < i {
            k
        } else {
            k + 1
        }]);
    }
}

/// Any step leaves the frames of a batch that is being sent aside.
proof fn lemma_batches_stay_aside(s: ProxyState, step: ProxyStep)
    requires
        s.waiting.len() == s.fwd.len(),
        s.enables(step),
        batches_set_aside(s),
    ensures
        batches_set_aside(s.after(step)),
{
    let t = s.after(step);
    if let ProxyStep::Batch { f, dests } = step {
        let fwd = s.fwd[f];
        let n = batch_packets(fwd.queued.len(), dests.len()) as int;
        let taken = fwd.queued.take(n);
        lemma_fan_out_frames(taken, dests);
        assert forall|k: int|
            0 <= k < t.fwd[f].batch.len() && t.fwd[f].sending.len() > 0 implies t.fwd[f].sending.contains(
            (#[trigger] t.fwd[f].batch[k]).frame,
        ) by {
            if fwd.queued.len() > 0 {
                let j = frames_of(taken).index_of(t.fwd[f].batch[k].frame);
                assert(t.fwd[f].sending[fwd.sending.len() + j] == t.fwd[f].batch[k].frame);
            } else {
                assert(t.fwd[f] == fwd);
                assert(fwd.sending.contains(fwd.batch[k].frame));
            }
        }
    }
}

proof fn lemma_fan_out_frames(packets: Seq<TritonPacket>, dests: Seq<SocketAddress>)
    ensures
        forall|k: int|
            0 <= k < fan_out(packets, dests).len() ==> frames_of(packets).contains(
                (#[trigger] fan_out(packets, dests)[k]).frame,
            ),
    decreases packets.len(),
{
    if packets.len() > 0 {
        let rest = packets.drop_last();
        let before = fan_out(rest, dests);
        let now = fan_out(packets, dests);
        lemma_fan_out_frames(rest, dests);
        assert forall|k: int| 0 <= k < now.len() implies frames_of(packets).contains(
            (#[trigger] now[k]).frame,
        ) by {
            if k < before.len() {
                assert(now[k] == before[k]);
                let i = frames_of(rest).index_of(before[k].frame);
                assert(frames_of(packets)[i] == frames_of(rest)[i]);
            } else {
                assert(frames_of(packets)[packets.len() - 1] == now[k].frame);
            }
        }
    }
}

proof fn lemma_all_carry(start: ProxyState, steps: Seq<ProxyStep>, plan: PoolPlan)
    requires
        plan.wf(),
        start.is_initial(plan),
        start.enables_all(steps),
    ensures
        all_carry(steps, start.after_all(steps)),
        batches_set_aside(start.after_all(steps)),
    decreases steps.len(),
{
    if steps.len() == 0 {
        assert forall|f: int| 0 <= f < start.fwd.len() implies (#[trigger] start.fwd[f]).queued.len()
            == 0 by {}
    } else {
        let before = steps.drop_last();
        let s = start.after_all(before);
        let step = steps.last();
        lemma_all_carry(start, before, plan);
        lemma_steps_keep(start, before, plan, FrameDesc { ptr: 0, frame_size: 0, shmem_idx: 0 });
        assert(before.push(step) =~= steps);
        if step is Receive {
            lemma_receive_carries(start, before, plan, step);
        } else {
            lemma_other_step_carries(before, s, step);
        }
        lemma_batches_stay_aside(s, step);
    }
}

/// However the tiles interleave, what is sent is what was received: a message of a
/// batch that is being sent is the message of the packet that was received into its
/// frame last, and the bytes that its region holds for it are those that were
/// received. Until then every packet, wherever it is, keeps the bytes that were
/// received for it.
pub proof fn law_what_was_received_is_sent(
    start: ProxyState,
    steps: Seq<ProxyStep>,
    plan: PoolPlan,
)
    requires
        plan.wf(),
        start.is_initial(plan),
        start.enables_all(steps),
    ensures
        all_carry(steps, start.after_all(steps)),
{
    lemma_all_carry(start, steps, plan);
}

} // verus!
