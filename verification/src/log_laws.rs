//! What the logs of handles tell of the rings they belong to.

use vstd::prelude::*;

use crate::fwd_tile::given_back;
use crate::mem::FrameDesc;
use crate::packet::TritonPacket;
use crate::pool_laws::{
    lemma_nothing_occurs, lemma_occurs_concat, lemma_occurs_one, lemma_update_part, occurs,
    occurs_in_all, published, ProxyState, ProxyStep,
};
use crate::recv_mmsg::{routed, unstaked};
use crate::recv_tile::packets_for;
use crate::ring::{messages, ready_prefix, state_after_miss, RecvPhase, RingState};
use crate::step_laws::{
    hand_on_steps, law_giving_back_is_its_steps, law_handing_on_is_its_steps, recycle_steps,
};
use crate::triton_forwarder::PoolPlan;

verus! {

/// What was sent is what was received and what is held: each value occurs as often
/// in the one as in the other.
pub open spec fn accounts<T>(sent: Seq<Seq<T>>, received: Seq<T>, held: Seq<T>) -> bool {
    forall|x: T| #[trigger] occurs_in_all(sent, x) == occurs(received, x) + occurs(held, x)
}

/// `part` is what is left of `whole` when some of its values are left out.
pub open spec fn is_subsequence<T>(part: Seq<T>, whole: Seq<T>) -> bool
    decreases whole.len(),
{
    ||| part.len() == 0
    ||| {
        &&& whole.len() > 0
        &&& {
            ||| part.last() == whole.last() && is_subsequence(part.drop_last(), whole.drop_last())
            ||| is_subsequence(part, whole.drop_last())
        }
    }
}

/// A ring that is shared, and what its logs hold.
pub struct LoggedRing<T> {
    pub ring: RingState<T>,
    /// For each producer, what it sent.
    pub sent: Seq<Seq<T>>,
    /// What the consumer received.
    pub received: Seq<T>,
}

/// One call of a method of a log of the ring.
pub enum LogStep<T> {
    /// [`SendLog::fork`](crate::ring_log::SendLog::fork): there is one more producer.
    Fork,
    /// [`SendLog::send`](crate::ring_log::SendLog::send) by producer `p`.
    Send { p: int, value: T },
    /// [`RecvLog::take_ready`](crate::ring_log::RecvLog::take_ready) of `n` messages;
    /// where `n` is 1, also [`RecvLog::try_recv`](crate::ring_log::RecvLog::try_recv)
    /// and [`RecvLog::recv_step`](crate::ring_log::RecvLog::recv_step).
    Take { n: int },
    /// [`RecvLog::recv_step`](crate::ring_log::RecvLog::recv_step) in this phase, which
    /// found no message.
    Miss { phase: RecvPhase },
}

impl<T> LoggedRing<T> {
    /// The ring is shared anew, as by
    /// [`SharedRing::share`](crate::ring_log::SharedRing::share).
    pub open spec fn is_shared_anew(self) -> bool {
        &&& self.sent =~= seq![messages(self.ring.pending)]
        &&& self.received =~= seq![]
    }

    /// Whether `step` can be taken now.
    pub open spec fn enables(self, step: LogStep<T>) -> bool {
        match step {
            LogStep::Fork => true,
            LogStep::Send { p, value } => 0 <= p < self.sent.len(),
            LogStep::Take { n } => 0 <= n <= ready_prefix(self.ring.pending),
            LogStep::Miss { phase } => !self.ring.is_deliverable(),
        }
    }

    /// The ring and its logs after `step`.
    pub open spec fn after(self, step: LogStep<T>) -> LoggedRing<T> {
        match step {
            LogStep::Fork => LoggedRing { sent: self.sent.push(seq![]), ..self },
            LogStep::Send { p, value } => if self.ring.is_full() {
                self
            } else {
                LoggedRing {
                    ring: self.ring.send(value),
                    sent: self.sent.update(p, self.sent[p].push(value)),
                    ..self
                }
            },
            LogStep::Take { n } => LoggedRing {
                ring: RingState { pending: self.ring.pending.skip(n), ..self.ring },
                received: self.received + messages(self.ring.pending.take(n)),
                ..self
            },
            LogStep::Miss { phase } => LoggedRing {
                ring: state_after_miss(self.ring, phase),
                ..self
            },
        }
    }

    /// The ring and its logs after all of `steps`.
    pub open spec fn after_all(self, steps: Seq<LogStep<T>>) -> LoggedRing<T>
        decreases steps.len(),
    {
        if steps.len() == 0 {
            self
        } else {
            self.after_all(steps.drop_last()).after(steps.last())
        }
    }

    /// Whether all of `steps` can be taken in that order.
    pub open spec fn enables_all(self, steps: Seq<LogStep<T>>) -> bool
        decreases steps.len(),
    {
        steps.len() == 0 || (self.enables_all(steps.drop_last()) && self.after_all(
            steps.drop_last(),
        ).enables(steps.last()))
    }

    /// All messages in their order: what was received, and what the ring holds.
    pub open spec fn flow(self) -> Seq<T> {
        self.received + messages(self.ring.pending)
    }

    /// The logs tell all messages, and each log tells them in their order.
    spec fn in_order(self) -> bool {
        &&& forall|x: T| #[trigger] occurs_in_all(self.sent, x) == occurs(self.flow(), x)
        &&& forall|p: int|
            0 <= p < self.sent.len() ==> is_subsequence(#[trigger] self.sent[p], self.flow())
    }
}

/// The messages are those at the front and those behind them.
proof fn lemma_messages_split<T>(pending: Seq<Option<T>>, n: int)
    requires
        0 <= n <= pending.len(),
    ensures
        messages(pending) == messages(pending.take(n)) + messages(pending.skip(n)),
    decreases pending.len(),
{
    if n == pending.len() {
        assert(pending.take(n) =~= pending);
        assert(messages(pending) =~= messages(pending) + messages(pending.skip(n)));
    } else {
        lemma_messages_split(pending.drop_last(), n);
        assert(pending.drop_last().take(n) =~= pending.take(n));
        assert(pending.drop_last().skip(n) =~= pending.skip(n).drop_last());
        assert(pending.skip(n).last() == pending.last());
        assert(messages(pending) =~= messages(pending.take(n)) + messages(pending.skip(n)));
    }
}

proof fn lemma_occurs_push<T>(values: Seq<T>, value: T, x: T)
    ensures
        occurs(values.push(value), x) == occurs(values, x) + occurs(seq![value], x),
{
    assert(values.push(value) =~= values + seq![value]);
    lemma_occurs_concat(values, seq![value], x);
}

/// A part of a sequence is a part of itself.
proof fn lemma_whole_is_subsequence<T>(values: Seq<T>)
    ensures
        is_subsequence(values, values),
    decreases values.len(),
{
    if values.len() > 0 {
        lemma_whole_is_subsequence(values.drop_last());
    }
}

proof fn lemma_subsequence_push<T>(part: Seq<T>, whole: Seq<T>, value: T)
    requires
        is_subsequence(part, whole),
    ensures
        is_subsequence(part, whole.push(value)),
        is_subsequence(part.push(value), whole.push(value)),
{
    assert(whole.push(value).drop_last() =~= whole);
    assert(part.push(value).drop_last() =~= part);
}

proof fn lemma_log_step_keeps<T>(s: LoggedRing<T>, step: LogStep<T>)
    requires
        s.in_order(),
        s.enables(step),
    ensures
        s.after(step).in_order(),
{
    let t = s.after(step);
    match step {
        LogStep::Fork => {
            assert(t.sent.drop_last() =~= s.sent);
            assert forall|x: T| #[trigger] occurs_in_all(t.sent, x) == occurs(t.flow(), x) by {
                lemma_occurs_one(x, x);
                assert(occurs_in_all(s.sent, x) == occurs(s.flow(), x));
            }
        },
        LogStep::Send { p, value } => {
            if !s.ring.is_full() {
                let pending = s.ring.pending;
                assert(pending.push(Some(value)).drop_last() =~= pending);
                assert(t.flow() =~= s.flow().push(value));
                assert forall|x: T| #[trigger] occurs_in_all(t.sent, x) == occurs(t.flow(), x) by {
                    assert(occurs_in_all(s.sent, x) == occurs(s.flow(), x));
                    lemma_update_part(s.sent, p, s.sent[p].push(value), x);
                    lemma_occurs_push(s.sent[p], value, x);
                    lemma_occurs_push(s.flow(), value, x);
                }
                assert forall|q: int| 0 <= q < t.sent.len() implies is_subsequence(
                    #[trigger] t.sent[q],
                    t.flow(),
                ) by {
                    assert(is_subsequence(s.sent[q], s.flow()));
                    lemma_subsequence_push(s.sent[q], s.flow(), value);
                }
            }
        },
        LogStep::Take { n } => {
            crate::ring::lemma_ready_prefix(s.ring.pending);
            lemma_messages_split(s.ring.pending, n);
            assert(t.flow() =~= s.flow());
        },
        LogStep::Miss { phase } => {},
    }
}

proof fn lemma_log_steps_keep<T>(start: LoggedRing<T>, steps: Seq<LogStep<T>>)
    requires
        start.is_shared_anew(),
        start.enables_all(steps),
    ensures
        start.after_all(steps).in_order(),
    decreases steps.len(),
{
    if steps.len() == 0 {
        let held = messages(start.ring.pending);
        assert(start.flow() =~= held);
        lemma_whole_is_subsequence(held);
        assert(start.sent.drop_last() =~= seq![]);
        assert forall|x: T| #[trigger] occurs_in_all(start.sent, x) == occurs(
            start.flow(),
            x,
        ) by {
            assert(occurs_in_all(start.sent.drop_last(), x) == 0);
        }
    } else {
        lemma_log_steps_keep(start, steps.drop_last());
        lemma_log_step_keeps(start.after_all(steps.drop_last()), steps.last());
    }
}

/// However the threads that share a ring interleave, its logs account for it: every
/// message that was sent through any handle was received once, or waits in the ring.
pub proof fn law_logs_account_for_ring<T>(start: LoggedRing<T>, steps: Seq<LogStep<T>>)
    requires
        start.is_shared_anew(),
        start.enables_all(steps),
    ensures
        ({
            let s = start.after_all(steps);
            accounts(s.sent, s.received, messages(s.ring.pending))
        }),
{
    let s = start.after_all(steps);
    lemma_log_steps_keep(start, steps);
    assert forall|x: T| #[trigger] occurs_in_all(s.sent, x) == occurs(s.received, x) + occurs(
        messages(s.ring.pending),
        x,
    ) by {
        lemma_occurs_concat(s.received, messages(s.ring.pending), x);
    }
}

/// However the threads that share a ring interleave, the messages of one producer
/// are received in the order in which it sent them.
pub proof fn law_producers_keep_their_order<T>(start: LoggedRing<T>, steps: Seq<LogStep<T>>, p: int)
    requires
        start.is_shared_anew(),
        start.enables_all(steps),
        0 <= p < start.after_all(steps).sent.len(),
    ensures
        ({
            let s = start.after_all(steps);
            is_subsequence(s.sent[p], s.received + messages(s.ring.pending))
        }),
{
    lemma_log_steps_keep(start, steps);
}

/// What the logs of all handles of the proxy hold. Each ring has a first handle, which
/// is that of index 0 and through which nothing is sent after the ring is shared.
pub struct ProxyLogs {
    /// For each forwarder, what was sent into its ring of packets: behind the first
    /// handle, by each receiver.
    pub sent: Seq<Seq<Seq<TritonPacket>>>,
    /// For each forwarder, what it received from its ring of packets.
    pub taken: Seq<Seq<TritonPacket>>,
    /// For each receiver, what was sent into its ring of free frames: behind the first
    /// handle, by each forwarder.
    pub given: Seq<Seq<Seq<FrameDesc>>>,
    /// For each receiver, what it received from its ring of free frames.
    pub refilled: Seq<Seq<FrameDesc>>,
}

/// What the logs of a ring hold when it is shared among `n` producers.
pub open spec fn first_logs<T>(held: Seq<T>, n: nat) -> Seq<Seq<T>> {
    Seq::new(
        n + 1,
        |p: int|
            if p == 0 {
                held
            } else {
                seq![]
            },
    )
}

impl ProxyLogs {
    /// The rings of the proxy are shared anew.
    pub open spec fn is_initial(self, s: ProxyState) -> bool {
        &&& self.sent == s.waiting.map_values(
            |ring: RingState<TritonPacket>| first_logs(published(ring.pending), s.held.len()),
        )
        &&& self.taken == s.waiting.map_values(|ring: RingState<TritonPacket>| Seq::<TritonPacket>::empty())
        &&& self.given == s.free.map_values(
            |ring: RingState<FrameDesc>| first_logs(published(ring.pending), s.fwd.len()),
        )
        &&& self.refilled == s.free.map_values(|ring: RingState<FrameDesc>| Seq::<FrameDesc>::empty())
    }

    /// The logs after `step`, taken in state `s`.
    pub open spec fn after(self, s: ProxyState, step: ProxyStep) -> ProxyLogs {
        match step {
            ProxyStep::Refill { r, n } => ProxyLogs {
                refilled: self.refilled.update(
                    r,
                    self.refilled[r] + published(s.free[r].pending.take(n)),
                ),
                ..self
            },
            ProxyStep::Send { r, i, f } => ProxyLogs {
                sent: self.sent.update(
                    f,
                    self.sent[f].update(r + 1, self.sent[f][r + 1].push(unstaked(s.batch[r][i]))),
                ),
                ..self
            },
            ProxyStep::TakeIn { f, duplicate } => ProxyLogs {
                taken: self.taken.update(f, self.taken[f].push(s.waiting[f].pending[0]->0)),
                ..self
            },
            ProxyStep::Recycle { f } => {
                let frame = s.fwd[f].recycled.last();
                let idx = frame.shmem_idx as int;
                ProxyLogs {
                    given: self.given.update(
                        idx,
                        self.given[idx].update(f + 1, self.given[idx][f + 1].push(frame)),
                    ),
                    ..self
                }
            },
            _ => self,
        }
    }

    /// The logs after all of `steps`, taken from state `s` on.
    pub open spec fn after_all(self, s: ProxyState, steps: Seq<ProxyStep>) -> ProxyLogs
        decreases steps.len(),
    {
        if steps.len() == 0 {
            self
        } else {
            self.after_all(s, steps.drop_last()).after(
                s.after_all(steps.drop_last()),
                steps.last(),
            )
        }
    }

    /// There is a log for each end of each ring.
    pub open spec fn fits(self, s: ProxyState) -> bool {
        &&& s.free.len() == s.held.len()
        &&& s.batch.len() == s.held.len()
        &&& s.waiting.len() == s.fwd.len()
        &&& self.sent.len() == s.waiting.len()
        &&& self.taken.len() == s.waiting.len()
        &&& self.given.len() == s.free.len()
        &&& self.refilled.len() == s.free.len()
        &&& forall|f: int|
            0 <= f < self.sent.len() ==> (#[trigger] self.sent[f]).len() == s.held.len() + 1
        &&& forall|r: int|
            0 <= r < self.given.len() ==> (#[trigger] self.given[r]).len() == s.fwd.len() + 1
    }

    /// The logs account for all that is in the rings of the proxy.
    pub open spec fn account_for(self, s: ProxyState) -> bool {
        &&& self.fits(s)
        &&& forall|f: int|
            0 <= f < s.waiting.len() ==> accounts(
                self.sent[f],
                self.taken[f],
                published((#[trigger] s.waiting[f]).pending),
            )
        &&& forall|r: int|
            0 <= r < s.free.len() ==> accounts(
                self.given[r],
                self.refilled[r],
                published((#[trigger] s.free[r]).pending),
            )
    }
}

/// What is sent and then held is accounted for.
proof fn lemma_send_accounts<T>(
    sent: Seq<Seq<T>>,
    received: Seq<T>,
    held: Seq<T>,
    p: int,
    value: T,
)
    requires
        accounts(sent, received, held),
        0 <= p < sent.len(),
    ensures
        accounts(sent.update(p, sent[p].push(value)), received, held.push(value)),
{
    assert forall|x: T| #[trigger]
        occurs_in_all(sent.update(p, sent[p].push(value)), x) == occurs(received, x) + occurs(
            held.push(value),
            x,
        ) by {
        assert(occurs_in_all(sent, x) == occurs(received, x) + occurs(held, x));
        lemma_update_part(sent, p, sent[p].push(value), x);
        lemma_occurs_push(sent[p], value, x);
        lemma_occurs_push(held, value, x);
    }
}

/// What was held and then is received is accounted for.
proof fn lemma_take_accounts<T>(
    sent: Seq<Seq<T>>,
    received: Seq<T>,
    taken: Seq<T>,
    left: Seq<T>,
)
    requires
        accounts(sent, received, taken + left),
    ensures
        accounts(sent, received + taken, left),
{
    assert forall|x: T| #[trigger] occurs_in_all(sent, x) == occurs(received + taken, x) + occurs(
        left,
        x,
    ) by {
        lemma_occurs_concat(taken, left, x);
        lemma_occurs_concat(received, taken, x);
    }
}

proof fn lemma_first_logs_account<T>(held: Seq<T>, n: nat)
    ensures
        accounts(first_logs(held, n), seq![], held),
{
    let logs = first_logs(held, n);
    let none = logs.update(0, seq![]);
    assert forall|x: T| #[trigger] occurs_in_all(logs, x) == occurs(seq![], x) + occurs(
        held,
        x,
    ) by {
        lemma_update_part(logs, 0, seq![], x);
        lemma_nothing_occurs(none, x);
        lemma_occurs_one(x, x);
    }
}

proof fn lemma_proxy_step_accounts(logs: ProxyLogs, s: ProxyState, step: ProxyStep)
    requires
        logs.account_for(s),
        s.enables(step),
    ensures
        logs.after(s, step).account_for(s.after(step)),
{
    let t = s.after(step);
    match step {
        ProxyStep::Refill { r, n } => {
            let pending = s.free[r].pending;
            assert(published(pending) =~= published(pending.take(n)) + published(pending.skip(n)));
            lemma_take_accounts(
                logs.given[r],
                logs.refilled[r],
                published(pending.take(n)),
                published(pending.skip(n)),
            );
        },
        ProxyStep::Send { r, i, f } => {
            let packet = unstaked(s.batch[r][i]);
            let pending = s.waiting[f].pending;
            assert(published(pending.push(Some(packet))) =~= published(pending).push(packet));
            lemma_send_accounts(logs.sent[f], logs.taken[f], published(pending), r + 1, packet);
        },
        ProxyStep::TakeIn { f, duplicate } => {
            let pending = s.waiting[f].pending;
            let packet = pending[0]->0;
            assert(published(pending) =~= seq![packet] + published(pending.drop_first()));
            lemma_take_accounts(
                logs.sent[f],
                logs.taken[f],
                seq![packet],
                published(pending.drop_first()),
            );
            assert(logs.taken[f] + seq![packet] =~= logs.taken[f].push(packet));
        },
        ProxyStep::Recycle { f } => {
            let frame = s.fwd[f].recycled.last();
            let idx = frame.shmem_idx as int;
            let pending = s.free[idx].pending;
            assert(published(pending.push(Some(frame))) =~= published(pending).push(frame));
            lemma_send_accounts(
                logs.given[idx],
                logs.refilled[idx],
                published(pending),
                f + 1,
                frame,
            );
        },
        _ => {},
    }
}

/// Whatever steps the proxy takes, the logs of its handles account for all that is in
/// its rings: every packet and every frame that was sent was received once, or waits.
pub proof fn law_logs_account_for_proxy(
    start: ProxyState,
    logs: ProxyLogs,
    steps: Seq<ProxyStep>,
    plan: PoolPlan,
)
    requires
        start.is_initial(plan),
        start.enables_all(steps),
        logs.is_initial(start),
    ensures
        logs.after_all(start, steps).account_for(start.after_all(steps)),
    decreases steps.len(),
{
    if steps.len() == 0 {
        assert forall|f: int| 0 <= f < start.waiting.len() implies accounts(
            logs.sent[f],
            logs.taken[f],
            published((#[trigger] start.waiting[f]).pending),
        ) by {
            lemma_first_logs_account(published(start.waiting[f].pending), start.held.len());
        }
        assert forall|r: int| 0 <= r < start.free.len() implies accounts(
            logs.given[r],
            logs.refilled[r],
            published((#[trigger] start.free[r]).pending),
        ) by {
            lemma_first_logs_account(published(start.free[r].pending), start.fwd.len());
        }
    } else {
        law_logs_account_for_proxy(start, logs, steps.drop_last(), plan);
        lemma_proxy_step_accounts(
            logs.after_all(start, steps.drop_last()),
            start.after_all(steps.drop_last()),
            steps.last(),
        );
    }
}

/// The logs fix what a ring holds: where they account for two contents, these are the
/// same but for their order.
pub proof fn law_logs_fix_what_is_held<T>(
    sent: Seq<Seq<T>>,
    received: Seq<T>,
    a: Seq<T>,
    b: Seq<T>,
)
    requires
        accounts(sent, received, a),
        accounts(sent, received, b),
    ensures
        a.to_multiset() == b.to_multiset(),
{
    assert forall|x: T| a.to_multiset().count(x) == b.to_multiset().count(x) by {
        assert(occurs_in_all(sent, x) == occurs(received, x) + occurs(a, x));
        assert(occurs_in_all(sent, x) == occurs(received, x) + occurs(b, x));
    }
    assert(a.to_multiset() =~= b.to_multiset());
}

/// A ring of packets holds what the proxy as a whole says it holds, where its handles
/// have the logs that the steps of the proxy give them.
pub proof fn law_packet_ring_holds_what_waits(
    start: ProxyState,
    logs: ProxyLogs,
    steps: Seq<ProxyStep>,
    plan: PoolPlan,
    ring: LoggedRing<TritonPacket>,
    calls: Seq<LogStep<TritonPacket>>,
    f: int,
)
    requires
        start.is_initial(plan),
        start.enables_all(steps),
        logs.is_initial(start),
        ring.is_shared_anew(),
        ring.enables_all(calls),
        0 <= f < start.after_all(steps).waiting.len(),
        ring.after_all(calls).sent == logs.after_all(start, steps).sent[f],
        ring.after_all(calls).received == logs.after_all(start, steps).taken[f],
    ensures
        messages(ring.after_all(calls).ring.pending).to_multiset() == published(
            start.after_all(steps).waiting[f].pending,
        ).to_multiset(),
{
    let s = start.after_all(steps);
    let end = ring.after_all(calls);
    law_logs_account_for_proxy(start, logs, steps, plan);
    law_logs_account_for_ring(ring, calls);
    assert(accounts(end.sent, end.received, published(s.waiting[f].pending)));
    law_logs_fix_what_is_held(
        end.sent,
        end.received,
        messages(end.ring.pending),
        published(s.waiting[f].pending),
    );
}

/// A ring of free frames holds what the proxy as a whole says it holds, where its
/// handles have the logs that the steps of the proxy give them.
pub proof fn law_frame_ring_holds_what_is_free(
    start: ProxyState,
    logs: ProxyLogs,
    steps: Seq<ProxyStep>,
    plan: PoolPlan,
    ring: LoggedRing<FrameDesc>,
    calls: Seq<LogStep<FrameDesc>>,
    r: int,
)
    requires
        start.is_initial(plan),
        start.enables_all(steps),
        logs.is_initial(start),
        ring.is_shared_anew(),
        ring.enables_all(calls),
        0 <= r < start.after_all(steps).free.len(),
        ring.after_all(calls).sent == logs.after_all(start, steps).given[r],
        ring.after_all(calls).received == logs.after_all(start, steps).refilled[r],
    ensures
        messages(ring.after_all(calls).ring.pending).to_multiset() == published(
            start.after_all(steps).free[r].pending,
        ).to_multiset(),
{
    let s = start.after_all(steps);
    let end = ring.after_all(calls);
    law_logs_account_for_proxy(start, logs, steps, plan);
    law_logs_account_for_ring(ring, calls);
    assert(accounts(end.sent, end.received, published(s.free[r].pending)));
    law_logs_fix_what_is_held(
        end.sent,
        end.received,
        messages(end.ring.pending),
        published(s.free[r].pending),
    );
}

/// The steps of a hand-on let the logs grow as
/// [`RecvTile::hand_on`](crate::recv_tile::RecvTile::hand_on) says: of each ring that
/// of the receiver, by the packets that go to it.
pub proof fn law_handing_on_grows_the_logs(
    s: ProxyState,
    logs: ProxyLogs,
    r: int,
    packets: Seq<TritonPacket>,
    rest: Seq<TritonPacket>,
    dests: Seq<Option<usize>>,
)
    requires
        logs.fits(s),
        0 <= r < s.held.len(),
        s.batch[r] == packets + rest,
        dests.len() == packets.len(),
        forall|i: int|
            0 <= i < dests.len() ==> (#[trigger] dests[i] matches Some(dest) ==> dest
                < s.waiting.len()),
    ensures
        ({
            let after = logs.after_all(s, hand_on_steps(r, dests));
            &&& after.taken == logs.taken
            &&& after.given == logs.given
            &&& after.refilled == logs.refilled
            &&& after.sent.len() == logs.sent.len()
            &&& forall|f: int|
                0 <= f < s.waiting.len() ==> #[trigger] after.sent[f] == logs.sent[f].update(
                    r + 1,
                    logs.sent[f][r + 1] + packets_for(routed(packets, dests), f),
                )
        }),
    decreases packets.len(),
{
    let steps = hand_on_steps(r, dests);
    let plan = routed(packets, dests);
    let after = logs.after_all(s, steps);
    if packets.len() == 0 {
        assert forall|f: int| 0 <= f < s.waiting.len() implies #[trigger] after.sent[f]
            == logs.sent[f].update(r + 1, logs.sent[f][r + 1] + packets_for(plan, f)) by {
            assert(logs.sent[f][r + 1] + packets_for(plan, f) =~= logs.sent[f][r + 1]);
            assert(logs.sent[f] =~= logs.sent[f].update(r + 1, logs.sent[f][r + 1]));
        }
    } else {
        let front = packets.drop_last();
        let front_dests = dests.drop_last();
        let last = packets[packets.len() - 1];
        let behind = seq![last] + rest;
        let front_plan = routed(front, front_dests);
        assert(packets + rest =~= front + behind);
        assert forall|i: int| 0 <= i < front_dests.len() implies (#[trigger] front_dests[i]
            matches Some(dest) ==> dest < s.waiting.len()) by {
            assert(front_dests[i] == dests[i]);
        }
        law_handing_on_grows_the_logs(s, logs, r, front, behind, front_dests);
        law_handing_on_is_its_steps(s, r, front, behind, front_dests);
        assert(steps.drop_last() =~= hand_on_steps(r, front_dests));
        let t = s.after_all(steps.drop_last());
        let before = logs.after_all(s, steps.drop_last());
        assert(t.batch[r][0] == last);
        assert(after == before.after(t, steps.last()));
        assert forall|f: int| 0 <= f < s.waiting.len() implies #[trigger] after.sent[f]
            == logs.sent[f].update(r + 1, logs.sent[f][r + 1] + packets_for(plan, f)) by {
            assert(before.sent[f] == logs.sent[f].update(
                r + 1,
                logs.sent[f][r + 1] + packets_for(front_plan, f),
            ));
            if dests.last() is Some {
                assert(plan.drop_last() =~= front_plan);
            }
            assert(after.sent[f] =~= logs.sent[f].update(
                r + 1,
                logs.sent[f][r + 1] + packets_for(plan, f),
            ));
        }
    }
}

/// The steps of giving frames back let the logs grow as
/// [`FwdTile::recycle`](crate::fwd_tile::FwdTile::recycle) says: of each ring that of
/// the forwarder, by the frames that go back to it.
pub proof fn law_giving_back_grows_the_logs(s: ProxyState, logs: ProxyLogs, f: int, n: nat)
    requires
        logs.fits(s),
        0 <= f < s.fwd.len(),
        n <= s.fwd[f].recycled.len(),
        forall|i: int|
            0 <= i < s.fwd[f].recycled.len() ==> (#[trigger] s.fwd[f].recycled[i]).shmem_idx
                < s.held.len(),
    ensures
        ({
            let after = logs.after_all(s, recycle_steps(f, n));
            let left = s.fwd[f].recycled.len() - n;
            &&& after.sent == logs.sent
            &&& after.taken == logs.taken
            &&& after.refilled == logs.refilled
            &&& after.given.len() == logs.given.len()
            &&& forall|r: int|
                0 <= r < s.free.len() ==> #[trigger] after.given[r] == logs.given[r].update(
                    f + 1,
                    logs.given[r][f + 1] + given_back(s.fwd[f].recycled.skip(left), r),
                )
        }),
    decreases n,
{
    let steps = recycle_steps(f, n);
    let all = s.fwd[f].recycled;
    let left = all.len() - n;
    let after = logs.after_all(s, steps);
    if n == 0 {
        assert(all.skip(left) =~= seq![]);
        assert forall|r: int| 0 <= r < s.free.len() implies #[trigger] after.given[r]
            == logs.given[r].update(f + 1, logs.given[r][f + 1] + given_back(all.skip(left), r)) by {
            assert(logs.given[r][f + 1] + given_back(all.skip(left), r) =~= logs.given[r][f + 1]);
            assert(logs.given[r] =~= logs.given[r].update(f + 1, logs.given[r][f + 1]));
        }
    } else {
        law_giving_back_grows_the_logs(s, logs, f, (n - 1) as nat);
        law_giving_back_is_its_steps(s, f, (n - 1) as nat);
        assert(steps.drop_last() =~= recycle_steps(f, (n - 1) as nat));
        let t = s.after_all(steps.drop_last());
        let before = logs.after_all(s, steps.drop_last());
        assert(t.fwd[f].recycled.last() == all[left]);
        assert(after == before.after(t, steps.last()));
        assert(all.skip(left).drop_first() =~= all.skip(left + 1));
        assert forall|r: int| 0 <= r < s.free.len() implies #[trigger] after.given[r]
            == logs.given[r].update(f + 1, logs.given[r][f + 1] + given_back(all.skip(left), r)) by {
            assert(before.given[r] == logs.given[r].update(
                f + 1,
                logs.given[r][f + 1] + given_back(all.skip(left + 1), r),
            ));
            assert(after.given[r] =~= logs.given[r].update(
                f + 1,
                logs.given[r][f + 1] + given_back(all.skip(left), r),
            ));
        }
    }
}

} // verus!
