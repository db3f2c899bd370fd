//! What holds of a forwarder over many steps.

use vstd::prelude::*;

use crate::addr::SocketAddress;
use crate::fwd_tile::{batch_packets, fan_out, outgoing, FwdState, Outgoing, UIO_MAXIOV};
use crate::mem::{FrameBufMut, FrameDesc};
use crate::packet::TritonPacket;
use crate::pool::{frame_admissible, frames_of, packet_admissible};
use crate::recv_mmsg::{is_received, unstaked, ReceivedMsg};

verus! {

/// The messages of packets are those of the first few and then those of the rest.
proof fn lemma_fan_out_splits(packets: Seq<TritonPacket>, n: int, dests: Seq<SocketAddress>)
    requires
        0 <= n <= packets.len(),
    ensures
        fan_out(packets, dests) == fan_out(packets.take(n), dests) + fan_out(
            packets.skip(n),
            dests,
        ),
    decreases packets.len() - n,
{
    if n == packets.len() {
        assert(packets.take(n) =~= packets);
        assert(fan_out(packets.skip(n), dests) =~= seq![]);
    } else {
        let last = dests.map_values(|dest: SocketAddress| outgoing(packets.last(), dest));
        let rest = packets.drop_last();
        lemma_fan_out_splits(rest, n, dests);
        assert(rest.take(n) =~= packets.take(n));
        assert(packets.skip(n).drop_last() =~= rest.skip(n));
        assert(packets.skip(n).last() == packets.last());
        assert(fan_out(packets, dests) =~= fan_out(packets.take(n), dests) + (fan_out(
            rest.skip(n),
            dests,
        ) + last));
    }
}

/// Each packet has one message for each destination, in the order of the
/// destinations, behind the messages of the packets before it.
pub proof fn law_fan_out_in_order(
    packets: Seq<TritonPacket>,
    dests: Seq<SocketAddress>,
    i: int,
    j: int,
)
    requires
        0 <= i < packets.len(),
        0 <= j < dests.len(),
    ensures
        fan_out(packets, dests).len() == packets.len() * dests.len(),
        0 <= i * dests.len() + j < packets.len() * dests.len(),
        fan_out(packets, dests)[i * dests.len() + j] == outgoing(packets[i], dests[j]),
    decreases packets.len(),
{
    lemma_fan_out_len(packets, dests);
    let rest = packets.drop_last();
    let d = dests.len() as int;
    let n = packets.len() as int;
    lemma_fan_out_len(rest, dests);
    assert((n - 1) * d + d == n * d) by (nonlinear_arith);
    assert(0 <= i * d <= (n - 1) * d) by (nonlinear_arith)
        requires
            0 <= i <= n - 1,
            0 <= d,
    ;
    if i < n - 1 {
        law_fan_out_in_order(rest, dests, i, j);
    }
}

proof fn lemma_fan_out_len(packets: Seq<TritonPacket>, dests: Seq<SocketAddress>)
    ensures
        fan_out(packets, dests).len() == packets.len() * dests.len(),
    decreases packets.len(),
{
    let n = packets.len() as int;
    let d = dests.len() as int;
    if n > 0 {
        lemma_fan_out_len(packets.drop_last(), dests);
        assert((n - 1) * d + d == n * d) by (nonlinear_arith);
    }
}

/// A batch that is not empty takes at least one packet from the queue.
pub proof fn lemma_batch_shortens_queue(state: FwdState, dests: Seq<SocketAddress>)
    requires
        state.queued.len() > 0,
        state.start_batch(dests).batch.len() > 0,
    ensures
        state.start_batch(dests).queued.len() < state.queued.len(),
{
    let n = batch_packets(state.queued.len(), dests.len());
    if n == 0 {
        assert(state.queued.take(0) =~= seq![]);
    }
}

/// What is sent when batches are built and sent until nothing is queued.
/// `outcomes` tells how the sending of each batch ends, from the `round`-th on.
pub open spec fn sent_in_rounds(
    state: FwdState,
    dests: Seq<SocketAddress>,
    outcomes: spec_fn(nat) -> Result<u64, usize>,
    round: nat,
) -> Seq<Outgoing>
    decreases state.queued.len(),
{
    let next = state.start_batch(dests);
    if state.queued.len() == 0 || next.batch.len() == 0 {
        seq![]
    } else {
        proof {
            lemma_batch_shortens_queue(state, dests);
        }
        next.batch + sent_in_rounds(
            next.finish_batch(outcomes(round)),
            dests,
            outcomes,
            round + 1,
        )
    }
}

/// The forwarder after batches were built and sent until nothing is queued.
pub open spec fn after_rounds(
    state: FwdState,
    dests: Seq<SocketAddress>,
    outcomes: spec_fn(nat) -> Result<u64, usize>,
    round: nat,
) -> FwdState
    decreases state.queued.len(),
{
    let next = state.start_batch(dests);
    if state.queued.len() == 0 || next.batch.len() == 0 {
        next
    } else {
        proof {
            lemma_batch_shortens_queue(state, dests);
        }
        after_rounds(next.finish_batch(outcomes(round)), dests, outcomes, round + 1)
    }
}

/// However many batches it takes, and however their sending ends, every queued
/// packet is sent to every destination exactly once, in the order in which the
/// packets were queued, and every frame can then be given back.
pub proof fn law_every_packet_to_every_destination(
    state: FwdState,
    dests: Seq<SocketAddress>,
    outcomes: spec_fn(nat) -> Result<u64, usize>,
    round: nat,
)
    requires
        dests.len() <= UIO_MAXIOV,
        state.sending.len() == 0,
    ensures
        sent_in_rounds(state, dests, outcomes, round) == fan_out(state.queued, dests),
        after_rounds(state, dests, outcomes, round).queued == Seq::<TritonPacket>::empty(),
        after_rounds(state, dests, outcomes, round).sending == Seq::<FrameDesc>::empty(),
        after_rounds(state, dests, outcomes, round).recycled == state.recycled + frames_of(
            state.queued,
        ),
    decreases state.queued.len(),
{
    let next = state.start_batch(dests);
    let n = batch_packets(state.queued.len(), dests.len()) as int;
    assert(state.sending =~= seq![]);
    if state.queued.len() == 0 {
        assert(fan_out(state.queued, dests) =~= seq![]);
        assert(state.recycled + frames_of(state.queued) =~= state.recycled);
        assert(state.queued =~= seq![]);
    } else if next.batch.len() == 0 {
        let d = dests.len() as int;
        lemma_fan_out_len(state.queued.take(n), dests);
        if d > 0 {
            assert(UIO_MAXIOV as int / d >= 1) by (nonlinear_arith)
                requires
                    0 < d <= UIO_MAXIOV,
            ;
            assert(n * d > 0) by (nonlinear_arith)
                requires
                    n > 0,
                    d > 0,
            ;
        }
        assert(d == 0);
        lemma_fan_out_len(state.queued, dests);
        assert(state.queued.len() * dests.len() == 0) by (nonlinear_arith)
            requires
                dests.len() == 0,
        ;
        assert(fan_out(state.queued, dests) =~= seq![]);
        assert(state.queued.take(n) =~= state.queued);
        assert(next.queued =~= seq![]);
    } else {
        lemma_batch_shortens_queue(state, dests);
        let done = next.finish_batch(outcomes(round));
        law_every_packet_to_every_destination(done, dests, outcomes, round + 1);
        lemma_fan_out_splits(state.queued, n, dests);
        assert(done.recycled =~= state.recycled + frames_of(state.queued.take(n)));
        assert(state.recycled + frames_of(state.queued.take(n)) + frames_of(state.queued.skip(n))
            =~= state.recycled + frames_of(state.queued));
    }
}

/// What a forwarder does between the building of a batch and the end of its
/// sending.
pub enum FwdStep {
    /// A packet comes in that is a duplicate, or is not.
    TakeIn { packet: TritonPacket, duplicate: bool },
    /// A batch is built.
    StartBatch { dests: Seq<SocketAddress> },
    /// The frame that was done with last is given back.
    GiveBack,
}

/// The forwarder after `steps`, none of which ends the sending of a batch.
pub open spec fn after_steps(state: FwdState, steps: Seq<FwdStep>) -> FwdState
    decreases steps.len(),
{
    if steps.len() == 0 {
        state
    } else {
        let before = after_steps(state, steps.drop_last());
        match steps.last() {
            FwdStep::TakeIn { packet, duplicate } => before.take_in(packet, duplicate),
            FwdStep::StartBatch { dests } => before.start_batch(dests),
            FwdStep::GiveBack => if before.recycled.len() > 0 {
                FwdState { recycled: before.recycled.drop_last(), ..before }
            } else {
                before
            },
        }
    }
}

/// No frame is given back before the sending of its batch ended: building a batch
/// that has messages sets the frames of its packets aside and adds none to those
/// that are given back; whatever the forwarder does then, they stay aside until
/// the sending ends; and then they are given back behind those from before.
pub proof fn law_frames_wait_for_their_batch(
    state: FwdState,
    dests: Seq<SocketAddress>,
    steps: Seq<FwdStep>,
    outcome: Result<u64, usize>,
)
    requires
        state.start_batch(dests).batch.len() > 0,
        state.queued.len() > 0,
    ensures
        ({
            let next = state.start_batch(dests);
            let n = batch_packets(state.queued.len(), dests.len()) as int;
            let later = after_steps(next, steps);
            &&& next.recycled == state.recycled
            &&& next.batch == fan_out(state.queued.take(n), dests)
            &&& next.sending == state.sending + frames_of(state.queued.take(n))
            &&& next.sending.is_prefix_of(later.sending)
            &&& later.finish_batch(outcome).recycled == later.recycled + later.sending
        }),
    decreases steps.len(),
{
    if steps.len() > 0 {
        law_frames_wait_for_their_batch(state, dests, steps.drop_last(), outcome);
    }
}

/// What is sent of a packet is its payload, as long as its frame is left alone.
pub proof fn law_payload_is_sent(packet: TritonPacket, dest: SocketAddress, mem: Seq<u8>)
    requires
        packet.wf(),
        packet.frame().fits(mem.len() as int),
    ensures
        outgoing(packet, dest).bytes(mem) =~= packet.payload(mem),
{
}

/// What is sent of a received packet is what was received: as long as its frame
/// is left alone, from `mem`, where it was received, to `later`, where it is sent.
pub proof fn law_received_bytes_are_sent(
    packet: TritonPacket,
    buf: FrameBufMut,
    msg: ReceivedMsg,
    dest: SocketAddress,
    mem: Seq<u8>,
    later: Seq<u8>,
)
    requires
        msg.data@.len() <= buf.spec_desc().frame_size,
        buf.spec_desc().fits(mem.len() as int),
        later.len() == mem.len(),
        forall|a: int|
            buf.spec_desc().ptr <= a < buf.spec_desc().ptr + buf.spec_desc().frame_size ==>
                #[trigger] later[a] == mem[a],
        is_received(packet, buf, msg),
        packet.payload(mem) == msg.data@,
    ensures
        outgoing(unstaked(packet), dest).bytes(later) =~= msg.data@,
        outgoing(unstaked(packet), dest).dest == dest,
{
    assert forall|i: int| 0 <= i < msg.data@.len() implies outgoing(unstaked(packet), dest).bytes(
        later,
    )[i] == #[trigger] msg.data@[i] by {
        assert(packet.payload(mem)[i] == mem[buf.spec_desc().ptr + i]);
    }
}

/// A payload that came to a filter.
pub struct Arrival {
    pub payload: Seq<u8>,
    /// Whether it was taken for a duplicate.
    pub duplicate: bool,
    /// What the filter took for duplicates before.
    pub before: Set<Seq<u8>>,
    /// What the filter takes for duplicates afterwards.
    pub after: Set<Seq<u8>>,
}

/// Each arrival was taken in as [`FwdTile::accept`](crate::fwd_tile::FwdTile::accept)
/// says, and the filter was left alone in between.
pub open spec fn filtered(arrivals: Seq<Arrival>) -> bool {
    &&& forall|i: int|
        0 <= i < arrivals.len() ==> {
            let a = #[trigger] arrivals[i];
            &&& a.duplicate == a.before.contains(a.payload)
            &&& a.before.insert(a.payload).subset_of(a.after)
        }
    &&& forall|i: int, j: int|
        0 <= i < arrivals.len() && j == i + 1 && j < arrivals.len() ==> (
        #[trigger] arrivals[i]).after == (#[trigger] arrivals[j]).before
}

proof fn lemma_arrivals_are_seen(arrivals: Seq<Arrival>, i: int, j: int)
    requires
        filtered(arrivals),
        0 <= i < j < arrivals.len(),
    ensures
        arrivals[j].before.contains(arrivals[i].payload),
    decreases j - i,
{
    assert(arrivals[j - 1].after == arrivals[j].before);
    if i < j - 1 {
        lemma_arrivals_are_seen(arrivals, i, j - 1);
        assert(arrivals[j - 1].before.insert(arrivals[j - 1].payload).contains(
            arrivals[i].payload,
        ));
    } else {
        assert(arrivals[i].before.insert(arrivals[i].payload).contains(arrivals[i].payload));
    }
}

/// As long as the filter is not reset, no payload is queued twice: of two
/// arrivals with the same payload the later one is a duplicate. At a fresh filter
/// the first arrival is none.
pub proof fn law_no_payload_is_queued_twice(arrivals: Seq<Arrival>, i: int, j: int)
    requires
        filtered(arrivals),
        0 <= i < j < arrivals.len(),
    ensures
        arrivals[i].payload == arrivals[j].payload ==> arrivals[j].duplicate,
        arrivals[0].before == Set::<Seq<u8>>::empty() ==> !arrivals[0].duplicate,
{
    lemma_arrivals_are_seen(arrivals, i, j);
}

proof fn lemma_messages_admissible(
    packets: Seq<TritonPacket>,
    dests: Seq<SocketAddress>,
    sizes: Seq<nat>,
)
    requires
        forall|i: int|
            0 <= i < packets.len() ==> packet_admissible(#[trigger] packets[i], sizes),
    ensures
        forall|i: int|
            0 <= i < fan_out(packets, dests).len() ==> (#[trigger] fan_out(
                packets,
                dests,
            )[i]).admissible(sizes),
    decreases packets.len(),
{
    if packets.len() > 0 {
        let rest = packets.drop_last();
        let before = fan_out(rest, dests);
        lemma_messages_admissible(rest, dests, sizes);
        assert(packet_admissible(packets.last(), sizes));
        assert forall|i: int| 0 <= i < fan_out(packets, dests).len() implies (
        #[trigger] fan_out(packets, dests)[i]).admissible(sizes) by {
            if i < before.len() {
                assert(fan_out(packets, dests)[i] == before[i]);
            } else {
                assert(fan_out(packets, dests)[i] == outgoing(
                    packets.last(),
                    dests[i - before.len()],
                ));
            }
        }
    }
}

/// Whatever a forwarder does with admissible packets, its packets, messages and
/// frames stay within the regions.
pub proof fn law_forwarder_stays_admissible(
    state: FwdState,
    sizes: Seq<nat>,
    packet: TritonPacket,
    duplicate: bool,
    dests: Seq<SocketAddress>,
    outcome: Result<u64, usize>,
)
    requires
        state.admissible(sizes),
        packet_admissible(packet, sizes),
    ensures
        state.take_in(packet, duplicate).admissible(sizes),
        state.start_batch(dests).admissible(sizes),
        state.finish_batch(outcome).admissible(sizes),
{
    let n = batch_packets(state.queued.len(), dests.len()) as int;
    lemma_batch_takes_queued(state.queued.len(), dests.len());
    lemma_messages_admissible(state.queued.take(n), dests, sizes);
    let next = state.start_batch(dests);
    let frames = frames_of(state.queued.take(n));
    assert forall|i: int| 0 <= i < frames.len() implies frame_admissible(
        #[trigger] frames[i],
        sizes,
    ) by {
        assert(packet_admissible(state.queued[i], sizes));
    }
    assert forall|i: int| 0 <= i < next.recycled.len() implies frame_admissible(
        #[trigger] next.recycled[i],
        sizes,
    ) by {
        if i >= state.recycled.len() {
            assert(frame_admissible(frames[i - state.recycled.len()], sizes));
        }
    }
    assert forall|i: int| 0 <= i < next.sending.len() implies frame_admissible(
        #[trigger] next.sending[i],
        sizes,
    ) by {
        if i >= state.sending.len() {
            assert(frame_admissible(frames[i - state.sending.len()], sizes));
        }
    }
}

proof fn lemma_batch_takes_queued(queued: nat, dests: nat)
    ensures
        batch_packets(queued, dests) <= queued,
{
}

/// A packet that is no duplicate is queued behind the others, whatever its size and
/// wherever it came from, and nothing else changes. The frame of a duplicate is given
/// back, and the duplicate is counted; nothing is queued.
pub proof fn law_only_duplicates_are_dropped(state: FwdState, packet: TritonPacket)
    ensures
        ({
            let kept = state.take_in(packet, false);
            &&& kept.queued.len() == state.queued.len() + 1
            &&& kept.queued.take(state.queued.len() as int) =~= state.queued
            &&& kept.queued[state.queued.len() as int] == packet
            &&& kept.recycled == state.recycled
            &&& kept.sending == state.sending
            &&& kept.batch == state.batch
            &&& kept.stats == state.stats
        }),
        ({
            let dropped = state.take_in(packet, true);
            &&& dropped.queued == state.queued
            &&& dropped.recycled.len() == state.recycled.len() + 1
            &&& dropped.recycled.take(state.recycled.len() as int) =~= state.recycled
            &&& dropped.recycled[state.recycled.len() as int] == packet.buffer.spec_desc()
            &&& dropped.sending == state.sending
            &&& dropped.batch == state.batch
            &&& dropped.stats.duplicate == if state.stats.duplicate == u64::MAX {
                0
            } else {
                state.stats.duplicate + 1
            }
            &&& dropped.stats.send_batch_count == state.stats.send_batch_count
            &&& dropped.stats.send_batch_size_sum == state.stats.send_batch_size_sum
            &&& dropped.stats.batch_send_time_spent == state.stats.batch_send_time_spent
        }),
{
}

/// A message sends the bytes of its packet, from the packet's frame, to its destination:
/// as many as the packet has, from the first on.
pub proof fn law_message_is_the_packet(
    packet: TritonPacket,
    dest: SocketAddress,
    mem: Seq<u8>,
    i: int,
)
    requires
        0 <= packet.buffer.start(),
        packet.buffer.start() + packet.meta.size <= packet.buffer.end() <= mem.len(),
        0 <= i < packet.meta.size,
    ensures
        outgoing(packet, dest).dest == dest,
        outgoing(packet, dest).frame == packet.buffer.spec_desc(),
        outgoing(packet, dest).start == packet.buffer.start(),
        outgoing(packet, dest).end == packet.buffer.start() + packet.meta.size,
        outgoing(packet, dest).bytes(mem).len() == packet.meta.size,
        outgoing(packet, dest).bytes(mem)[i] == mem[packet.buffer.start() + i],
        packet.payload(mem).len() == packet.meta.size,
        packet.payload(mem)[i] == mem[packet.buffer.start() + i],
{
}

/// `n` packets are as many of `queued` as can each be sent to `dests` destinations with
/// 1024 messages.
spec fn is_largest_batch(n: int, queued: int, dests: int) -> bool {
    &&& 0 <= n <= queued
    &&& n * dests <= 1024
    &&& n == queued || (n + 1) * dests > 1024
}

proof fn lemma_batch_is_largest(queued: nat, dests: nat)
    requires
        dests <= 1024,
    ensures
        is_largest_batch(batch_packets(queued, dests) as int, queued as int, dests as int),
{
    let n = batch_packets(queued, dests) as int;
    let d = dests as int;
    if d > 0 {
        vstd::arithmetic::div_mod::lemma_fundamental_div_mod(1024, d);
        let q = 1024int / d;
        assert(d * q == q * d) by (nonlinear_arith);
        assert((q + 1) * d == q * d + d) by (nonlinear_arith);
        if n < q {
            assert(n * d <= q * d) by (nonlinear_arith)
                requires
                    n < q,
                    d > 0,
            ;
        }
    } else {
        assert(n * d == 0) by (nonlinear_arith)
            requires
                d == 0,
        ;
    }
}

/// `message` sends all bytes of `packet`, from its frame, to `dest`.
pub open spec fn is_message_of(
    message: Outgoing,
    packet: TritonPacket,
    dest: SocketAddress,
) -> bool {
    &&& message.dest == dest
    &&& message.frame == packet.buffer.spec_desc()
    &&& message.start == packet.buffer.start()
    &&& message.end == packet.buffer.start() + packet.meta.size
}

/// The message for the `j`-th of `d` destinations among those of the `i`-th packet.
pub open spec fn message_at(batch: Seq<Outgoing>, d: int, i: int, j: int) -> Outgoing {
    batch[i * d + j]
}

/// `batch` has one message for each of `packets` and each of `dests`, packet by packet,
/// and no other.
pub open spec fn sends_each_to_all(
    batch: Seq<Outgoing>,
    packets: Seq<TritonPacket>,
    dests: Seq<SocketAddress>,
) -> bool {
    &&& batch.len() == packets.len() * dests.len()
    &&& forall|i: int, j: int|
        0 <= i < packets.len() && 0 <= j < dests.len() ==> is_message_of(
            #[trigger] message_at(batch, dests.len() as int, i, j),
            packets[i],
            dests[j],
        )
}

proof fn lemma_fan_out_sends_each(packets: Seq<TritonPacket>, dests: Seq<SocketAddress>)
    ensures
        sends_each_to_all(fan_out(packets, dests), packets, dests),
{
    lemma_fan_out_len(packets, dests);
    assert forall|i: int, j: int|
        0 <= i < packets.len() && 0 <= j < dests.len() implies is_message_of(
        #[trigger] message_at(fan_out(packets, dests), dests.len() as int, i, j),
        packets[i],
        dests[j],
    ) by {
        law_fan_out_in_order(packets, dests, i, j);
    }
}

/// The messages of some packets and those of more behind them.
proof fn lemma_sends_join(
    a: Seq<Outgoing>,
    first: Seq<TritonPacket>,
    b: Seq<Outgoing>,
    more: Seq<TritonPacket>,
    dests: Seq<SocketAddress>,
)
    requires
        sends_each_to_all(a, first, dests),
        sends_each_to_all(b, more, dests),
    ensures
        sends_each_to_all(a + b, first + more, dests),
{
    let d = dests.len() as int;
    let m = first.len() as int;
    let k = more.len() as int;
    assert((m + k) * d == m * d + k * d) by (nonlinear_arith);
    assert forall|i: int, j: int|
        0 <= i < m + k && 0 <= j < d implies is_message_of(
        #[trigger] message_at(a + b, d, i, j),
        (first + more)[i],
        dests[j],
    ) by {
        if i < m {
            assert(0 <= i * d && i * d + d <= m * d) by (nonlinear_arith)
                requires
                    0 <= i < m,
                    d >= 0,
            ;
            assert(is_message_of(message_at(a, d, i, j), first[i], dests[j]));
        } else {
            assert(i * d == m * d + (i - m) * d) by (nonlinear_arith);
            assert(0 <= (i - m) * d && (i - m) * d + d <= k * d) by (nonlinear_arith)
                requires
                    m <= i < m + k,
                    d >= 0,
            ;
            assert((a + b)[i * d + j] == b[(i - m) * d + j]);
            assert(is_message_of(message_at(b, d, i - m, j), more[i - m], dests[j]));
        }
    }
}

/// A batch takes the oldest packets, as many as can each be sent to every destination
/// with 1024 messages, and leaves the others queued in their order. It has a message for
/// each of these packets and each destination, packet by packet.
pub proof fn law_batch_sends_the_oldest_packets(state: FwdState, dests: Seq<SocketAddress>)
    requires
        dests.len() <= 1024,
        state.queued.len() > 0,
    ensures
        ({
            let next = state.start_batch(dests);
            let n = state.queued.len() - next.queued.len();
            &&& 0 <= n <= state.queued.len()
            &&& n * dests.len() <= 1024
            &&& n == state.queued.len() || (n + 1) * dests.len() > 1024
            &&& next.queued =~= state.queued.skip(n)
            &&& sends_each_to_all(next.batch, state.queued.take(n), dests)
            &&& next.stats == state.stats
        }),
{
    let n = batch_packets(state.queued.len(), dests.len()) as int;
    lemma_batch_is_largest(state.queued.len(), dests.len());
    lemma_fan_out_sends_each(state.queued.take(n), dests);
}

/// The frames of the packets that a batch takes wait until its sending ended, or are
/// given back at once where there is nothing to be sent. No frame of another packet is
/// touched. With no packet queued nothing changes.
pub proof fn law_batch_keeps_its_frames(state: FwdState, dests: Seq<SocketAddress>)
    requires
        dests.len() <= 1024,
    ensures
        state.queued.len() == 0 ==> state.start_batch(dests) == state,
        ({
            let next = state.start_batch(dests);
            let n = state.queued.len() - next.queued.len();
            let taken = Seq::new(n as nat, |i: int| state.queued[i].buffer.spec_desc());
            &&& dests.len() > 0 ==> {
                &&& next.sending =~= state.sending + taken
                &&& next.recycled == state.recycled
            }
            &&& dests.len() == 0 ==> {
                &&& next.sending == state.sending
                &&& next.recycled =~= state.recycled + taken
                &&& n == state.queued.len()
            }
        }),
{
    let next = state.start_batch(dests);
    let n = batch_packets(state.queued.len(), dests.len()) as int;
    let d = dests.len() as int;
    lemma_batch_is_largest(state.queued.len(), dests.len());
    lemma_fan_out_len(state.queued.take(n), dests);
    let taken = Seq::new(
        (state.queued.len() - next.queued.len()) as nat,
        |i: int| state.queued[i].buffer.spec_desc(),
    );
    if state.queued.len() > 0 {
        assert(frames_of(state.queued.take(n)) =~= taken);
        if d > 0 {
            assert(n > 0) by {
                if n == 0 {
                    assert((n + 1) * d == d) by (nonlinear_arith)
                        requires
                            n == 0,
                    ;
                }
            }
            assert(n * d > 0) by (nonlinear_arith)
                requires
                    n > 0,
                    d > 0,
            ;
        } else {
            assert(n * d == 0) by (nonlinear_arith)
                requires
                    d == 0,
            ;
        }
    } else {
        assert(state.sending + taken =~= state.sending);
        assert(state.recycled + taken =~= state.recycled);
    }
}

/// When the sending of a batch ended, well or not, all frames that waited for it are
/// given back behind the others. Only a batch that was sent well is counted, with its
/// messages and its time. What is queued stays so.
pub proof fn law_sent_frames_are_given_back(state: FwdState, micros: u64, num_failed: usize)
    ensures
        ({
            let sent = state.finish_batch(Ok(micros));
            let failed = state.finish_batch(Err(num_failed));
            &&& sent.sending.len() == 0
            &&& sent.recycled =~= state.recycled + state.sending
            &&& sent.queued == state.queued
            &&& sent.batch == state.batch
            &&& sent.stats.duplicate == state.stats.duplicate
            &&& sent.stats.send_batch_count as int == (state.stats.send_batch_count + 1)
                % 0x1_0000_0000_0000_0000
            &&& sent.stats.send_batch_size_sum as int == (state.stats.send_batch_size_sum
                + state.batch.len() as u64) % 0x1_0000_0000_0000_0000
            &&& sent.stats.batch_send_time_spent as int == (state.stats.batch_send_time_spent
                + micros) % 0x1_0000_0000_0000_0000
            &&& failed.sending.len() == 0
            &&& failed.recycled =~= state.recycled + state.sending
            &&& failed.queued == state.queued
            &&& failed.batch == state.batch
            &&& failed.stats == state.stats
        }),
{
}

/// A forwarder is idle exactly if it holds nothing at all.
pub proof fn law_idle_holds_nothing(state: FwdState)
    ensures
        state.is_idle() <==> state.queued.len() + state.batch.len() + state.sending.len()
            + state.recycled.len() == 0,
{
}

/// What a forwarder does over its life.
pub enum FwdEvent {
    /// A packet comes in that is a duplicate, or is not.
    TakeIn { packet: TritonPacket, duplicate: bool },
    /// A batch is built, and its sending ends.
    Send { outcome: Result<u64, usize> },
    /// The frame that was done with last is given back.
    GiveBack,
}

/// The forwarder after `events`, with `dests` to send to.
pub open spec fn after_events(
    state: FwdState,
    dests: Seq<SocketAddress>,
    events: Seq<FwdEvent>,
) -> FwdState
    decreases events.len(),
{
    if events.len() == 0 {
        state
    } else {
        let before = after_events(state, dests, events.drop_last());
        match events.last() {
            FwdEvent::TakeIn { packet, duplicate } => before.take_in(packet, duplicate),
            FwdEvent::Send { outcome } => before.start_batch(dests).finish_batch(outcome),
            FwdEvent::GiveBack => FwdState {
                recycled: if before.recycled.len() > 0 {
                    before.recycled.drop_last()
                } else {
                    before.recycled
                },
                ..before
            },
        }
    }
}

/// The messages that were sent in `events`.
pub open spec fn sent_in_events(
    state: FwdState,
    dests: Seq<SocketAddress>,
    events: Seq<FwdEvent>,
) -> Seq<Outgoing>
    decreases events.len(),
{
    if events.len() == 0 {
        seq![]
    } else {
        let before = after_events(state, dests, events.drop_last());
        let sent = sent_in_events(state, dests, events.drop_last());
        match events.last() {
            FwdEvent::Send { outcome } => if before.queued.len() > 0 {
                sent + before.start_batch(dests).batch
            } else {
                sent
            },
            _ => sent,
        }
    }
}

/// The packets that came in and were no duplicates, from first to last.
pub open spec fn new_arrivals(events: Seq<FwdEvent>) -> Seq<TritonPacket>
    decreases events.len(),
{
    if events.len() == 0 {
        seq![]
    } else {
        match events.last() {
            FwdEvent::TakeIn { packet, duplicate } => if duplicate {
                new_arrivals(events.drop_last())
            } else {
                new_arrivals(events.drop_last()).push(packet)
            },
            _ => new_arrivals(events.drop_last()),
        }
    }
}

/// Whatever a forwarder does, every packet that came in and was no duplicate is either
/// still queued, or was sent to every destination, once and in the order in which the
/// packets came; and nothing else was sent. The frames of packets that were sent no
/// longer wait.
pub proof fn law_every_new_packet_is_sent_or_queued(
    state: FwdState,
    dests: Seq<SocketAddress>,
    events: Seq<FwdEvent>,
)
    requires
        dests.len() <= 1024,
        state.queued.len() == 0,
        state.sending.len() == 0,
    ensures
        ({
            let now = after_events(state, dests, events);
            let sent = sent_in_events(state, dests, events);
            let new = new_arrivals(events);
            let n = new.len() - now.queued.len();
            &&& 0 <= n <= new.len()
            &&& now.queued =~= new.skip(n)
            &&& sends_each_to_all(sent, new.take(n), dests)
            &&& now.sending.len() == 0
        }),
    decreases events.len(),
{
    let now = after_events(state, dests, events);
    let sent = sent_in_events(state, dests, events);
    let new = new_arrivals(events);
    let n = new.len() - now.queued.len();
    if events.len() == 0 {
        assert(now.queued =~= new.skip(0));
        assert(new.take(0) =~= seq![]);
        assert(0 * dests.len() == 0);
    } else {
        let before = after_events(state, dests, events.drop_last());
        let sent_before = sent_in_events(state, dests, events.drop_last());
        let new_before = new_arrivals(events.drop_last());
        let m = new_before.len() - before.queued.len();
        law_every_new_packet_is_sent_or_queued(state, dests, events.drop_last());
        match events.last() {
            FwdEvent::TakeIn { packet, duplicate } => {
                law_only_duplicates_are_dropped(before, packet);
                assert(now.queued =~= new.skip(n));
                assert(new.take(n) =~= new_before.take(m));
            },
            FwdEvent::Send { outcome } => {
                let built = before.start_batch(dests);
                law_batch_keeps_its_frames(before, dests);
                if before.queued.len() > 0 {
                    law_batch_sends_the_oldest_packets(before, dests);
                    let k = before.queued.len() - built.queued.len();
                    assert(now.queued =~= new.skip(n));
                    assert(new.take(n) =~= new_before.take(m) + before.queued.take(k));
                    lemma_sends_join(
                        sent_before,
                        new_before.take(m),
                        built.batch,
                        before.queued.take(k),
                        dests,
                    );
                }
            },
            FwdEvent::GiveBack => {},
        }
    }
}

} // verus!
