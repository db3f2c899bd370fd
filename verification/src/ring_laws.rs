//! What holds of a ring however its producers and its consumer interleave.
//!
//! A [`Session`] is a ring together with what its threads have done so far.
//! Every step of a session is one call of a method of
//! [`RingInner`](crate::ring::RingInner), in the terms of that method's
//! contract.

use vstd::prelude::*;

use crate::ring::{
    initial_recv_phase, messages, phase_after_miss, state_after_miss, steps_left, RecvPhase, RingState,
};

verus! {

/// What the consumer is doing.
pub enum Consumer {
    /// It is about to poll in this phase.
    Awake(RecvPhase),
    /// It sleeps until a producer wakes it.
    Asleep,
}

/// A ring and its history.
pub struct Session<T> {
    pub ring: RingState<T>,
    /// The message of every ticket ever handed out, `None` until it is published.
    pub log: Seq<Option<T>>,
    /// The messages that the consumer has taken, in the order in which it did.
    pub delivered: Seq<T>,
    /// How many producers have published and not signalled yet.
    pub unsignalled: nat,
    pub consumer: Consumer,
}

/// One step of a thread.
pub enum Step<T> {
    /// A producer reserves a ticket.
    Reserve,
    /// A producer publishes a message under the `i`-th oldest ticket.
    Publish(int, T),
    /// A producer signals its message.
    Signal,
    /// The consumer polls.
    Poll,
    /// The consumer wakes up without having been woken.
    SpuriousWake,
}

impl<T> Session<T> {
    /// A fresh ring, and a consumer that starts to receive.
    pub open spec fn is_initial(self) -> bool {
        &&& self.ring.pending =~= Seq::empty()
        &&& self.ring.wake_requested
        &&& self.log =~= Seq::empty()
        &&& self.delivered =~= Seq::empty()
        &&& self.unsignalled == 0
        &&& self.consumer == Consumer::Awake(initial_recv_phase())
    }

    /// Whether a thread can take `step` now.
    pub open spec fn enables(self, step: Step<T>) -> bool {
        match step {
            Step::Reserve => !self.ring.is_full(),
            Step::Publish(i, v) => 0 <= i < self.ring.pending.len() && self.ring.pending[i] is None,
            Step::Signal => self.unsignalled > 0,
            Step::Poll => self.consumer is Awake,
            Step::SpuriousWake => self.consumer is Asleep,
        }
    }

    /// The session after `step`.
    pub open spec fn after(self, step: Step<T>) -> Session<T> {
        match step {
            Step::Reserve => Session {
                ring: self.ring.reserve(),
                log: self.log.push(None),
                ..self
            },
            Step::Publish(i, v) => Session {
                ring: self.ring.publish(i, v),
                log: self.log.update(self.delivered.len() + i, Some(v)),
                unsignalled: self.unsignalled + 1,
                ..self
            },
            Step::Signal => Session {
                ring: self.ring.signal(),
                unsignalled: (self.unsignalled - 1) as nat,
                consumer: if self.ring.wake_requested && self.consumer is Asleep {
                    Consumer::Awake(RecvPhase::Polling)
                } else {
                    self.consumer
                },
                ..self
            },
            Step::Poll => self.after_poll(self.consumer->Awake_0),
            Step::SpuriousWake => Session {
                consumer: Consumer::Awake(RecvPhase::Polling),
                ..self
            },
        }
    }

    /// The session after a poll in `phase`.
    pub open spec fn after_poll(self, phase: RecvPhase) -> Session<T> {
        if self.ring.is_deliverable() {
            Session {
                ring: self.ring.deliver(),
                delivered: self.delivered.push(self.ring.pending[0]->0),
                consumer: Consumer::Awake(initial_recv_phase()),
                ..self
            }
        } else {
            Session {
                ring: state_after_miss(self.ring, phase),
                consumer: match phase_after_miss(phase) {
                    Some(next) => Consumer::Awake(next),
                    None => if self.ring.wake_requested {
                        Consumer::Asleep
                    } else {
                        Consumer::Awake(RecvPhase::Polling)
                    },
                },
                ..self
            }
        }
    }

    /// The session after all of `steps`.
    pub open spec fn after_all(self, steps: Seq<Step<T>>) -> Session<T>
        decreases steps.len(),
    {
        if steps.len() == 0 {
            self
        } else {
            self.after_all(steps.drop_last()).after(steps.last())
        }
    }

    /// Whether threads can take all of `steps` in that order.
    pub open spec fn enables_all(self, steps: Seq<Step<T>>) -> bool
        decreases steps.len(),
    {
        steps.len() == 0 || (self.enables_all(steps.drop_last()) && self.after_all(
            steps.drop_last(),
        ).enables(steps.last()))
    }

    /// The ring holds exactly the undelivered end of the log, and what was
    /// delivered is its beginning.
    pub open spec fn in_ticket_order(self) -> bool {
        &&& self.log.len() == self.delivered.len() + self.ring.pending.len()
        &&& self.ring.pending =~= self.log.skip(self.delivered.len() as int)
        &&& forall|i: int|
            0 <= i < self.delivered.len() ==> #[trigger] self.log[i] == Some(self.delivered[i])
    }

    /// A consumer sleeps only while it can count on being woken: the wake flag
    /// is set, and if a message waits, its producer has yet to signal.
    pub open spec fn sleeps_safely(self) -> bool {
        self.consumer is Asleep ==> {
            &&& self.ring.wake_requested
            &&& self.ring.is_deliverable() ==> self.unsignalled > 0
        }
    }
}

/// One step keeps what all sessions have in common.
proof fn lemma_step_keeps<T>(s: Session<T>, step: Step<T>)
    requires
        s.in_ticket_order(),
        s.sleeps_safely(),
        s.ring.pending.len() <= s.ring.capacity,
        s.enables(step),
    ensures
        s.after(step).in_ticket_order(),
        s.after(step).sleeps_safely(),
        s.after(step).ring.pending.len() <= s.after(step).ring.capacity,
        s.after(step).ring.capacity == s.ring.capacity,
{
    let t = s.after(step);
    match step {
        Step::Reserve => {
            assert(t.ring.pending =~= t.log.skip(t.delivered.len() as int));
        },
        Step::Publish(i, v) => {
            assert(t.ring.pending =~= t.log.skip(t.delivered.len() as int));
        },
        Step::Signal => {},
        Step::Poll => {
            if s.ring.is_deliverable() {
                let n = s.delivered.len() as int;
                assert(s.ring.pending[0] == s.log[n]);
                assert(t.ring.pending =~= t.log.skip(t.delivered.len() as int));
                assert forall|i: int| 0 <= i < t.delivered.len() implies #[trigger] t.log[i]
                    == Some(t.delivered[i]) by {
                    if i < n {
                        assert(s.log[i] == Some(s.delivered[i]));
                    }
                }
            }
        },
        Step::SpuriousWake => {},
    }
}

proof fn lemma_steps_keep<T>(s: Session<T>, steps: Seq<Step<T>>)
    requires
        s.is_initial(),
        s.enables_all(steps),
    ensures
        s.after_all(steps).in_ticket_order(),
        s.after_all(steps).sleeps_safely(),
        s.after_all(steps).ring.pending.len() <= s.after_all(steps).ring.capacity,
        s.after_all(steps).ring.capacity == s.ring.capacity,
    decreases steps.len(),
{
    if steps.len() == 0 {
        assert(s.ring.pending =~= s.log.skip(0));
    } else {
        lemma_steps_keep(s, steps.drop_last());
        lemma_step_keeps(s.after_all(steps.drop_last()), steps.last());
    }
}

/// However producers and the consumer interleave, messages are delivered in the
/// order of their tickets, each once, and none is lost: what was delivered is
/// the beginning of the log, and the ring holds the rest of it. The ring never
/// holds more than its capacity.
pub proof fn law_delivery_in_ticket_order<T>(start: Session<T>, steps: Seq<Step<T>>)
    requires
        start.is_initial(),
        start.enables_all(steps),
    ensures
        ({
            let s = start.after_all(steps);
            &&& s.log.len() == s.delivered.len() + s.ring.pending.len()
            &&& forall|i: int|
                0 <= i < s.delivered.len() ==> #[trigger] s.log[i] == Some(s.delivered[i])
            &&& forall|i: int|
                0 <= i < s.ring.pending.len() ==> #[trigger] s.ring.pending[i]
                    == s.log[s.delivered.len() + i]
            &&& s.ring.pending.len() <= start.ring.capacity
        }),
{
    lemma_steps_keep(start, steps);
}

/// However producers and the consumer interleave, no wake-up is lost: a
/// consumer that sleeps while a message waits for it is woken by the next
/// signal, and a producer that has yet to signal exists.
pub proof fn law_no_lost_wakeup<T>(start: Session<T>, steps: Seq<Step<T>>)
    requires
        start.is_initial(),
        start.enables_all(steps),
    ensures
        ({
            let s = start.after_all(steps);
            s.consumer is Asleep && s.ring.is_deliverable() ==> {
                &&& s.enables(Step::Signal)
                &&& s.after(Step::Signal).consumer == Consumer::Awake(RecvPhase::Polling)
            }
        }),
{
    lemma_steps_keep(start, steps);
}

/// Reserving a ticket, publishing under it and signalling, with no other step in
/// between, is one send.
pub proof fn law_send_is_three_steps<T>(ring: RingState<T>, value: T)
    ensures
        ring.reserve().publish(ring.pending.len() as int, value).signal() == ring.send(value),
{
    assert(ring.reserve().publish(ring.pending.len() as int, value).signal() =~= ring.send(value));
}

/// A message sent into an empty ring is the next one taken, and then the ring is
/// empty again.
pub proof fn law_sent_into_empty_ring_is_next<T>(ring: RingState<T>, value: T)
    requires
        ring.pending =~= Seq::empty(),
        !ring.is_full(),
    ensures
        ring.send(value).is_deliverable(),
        ring.send(value).pending[0] == Some(value),
        ring.send(value).deliver().pending =~= ring.pending,
{
}

/// A message that is sent stands behind all others, and the request to be woken is met.
pub proof fn law_sent_message_stands_last<T>(ring: RingState<T>, value: T)
    ensures
        ({
            let after = ring.send(value);
            let n = ring.pending.len() as int;
            &&& after.pending.len() == n + 1
            &&& after.pending.take(n) =~= ring.pending
            &&& after.pending[n] == Some(value)
            &&& after.capacity == ring.capacity
            &&& !after.wake_requested
        }),
{
}

/// Taking the oldest message leaves the others in their order, and asks for nothing.
pub proof fn law_taking_leaves_the_others<T>(ring: RingState<T>, i: int)
    requires
        ring.pending.len() > 0,
        0 <= i < ring.pending.len() - 1,
    ensures
        ring.deliver().pending.len() == ring.pending.len() - 1,
        ring.deliver().pending[i] == ring.pending[i + 1],
        ring.deliver().capacity == ring.capacity,
        ring.deliver().wake_requested == ring.wake_requested,
{
}

/// A ticket is handed out behind all others, a message is put at its own ticket and
/// nowhere else, and neither touches the request to be woken, which only a signal meets
/// and only the consumer makes.
pub proof fn law_tickets_keep_their_places<T>(ring: RingState<T>, i: int, j: int, value: T)
    requires
        0 <= i < ring.pending.len(),
        0 <= j < ring.pending.len(),
    ensures
        ({
            let n = ring.pending.len() as int;
            let reserved = ring.reserve();
            let published = ring.publish(i, value);
            &&& reserved.pending.len() == n + 1
            &&& reserved.pending[n] is None
            &&& reserved.pending[j] == ring.pending[j]
            &&& reserved.capacity == ring.capacity
            &&& reserved.wake_requested == ring.wake_requested
            &&& published.pending.len() == n
            &&& published.pending[i] == Some(value)
            &&& i != j ==> published.pending[j] == ring.pending[j]
            &&& published.capacity == ring.capacity
            &&& published.wake_requested == ring.wake_requested
            &&& ring.signal().pending == ring.pending
            &&& ring.signal().capacity == ring.capacity
            &&& !ring.signal().wake_requested
            &&& ring.request_wake().pending == ring.pending
            &&& ring.request_wake().capacity == ring.capacity
            &&& ring.request_wake().wake_requested
        }),
{
}

/// The ring after all of `values` were sent into it.
pub open spec fn after_sends<T>(ring: RingState<T>, values: Seq<T>) -> RingState<T>
    decreases values.len(),
{
    if values.len() == 0 {
        ring
    } else {
        after_sends(ring, values.drop_last()).send(values.last())
    }
}

/// An empty ring takes as many messages as its capacity, and then no more; and it gives
/// them out in the order in which they were sent.
pub proof fn law_ring_takes_as_many_as_its_capacity<T>(ring: RingState<T>, values: Seq<T>)
    requires
        ring.pending.len() == 0,
        values.len() <= ring.capacity,
    ensures
        ({
            let after = after_sends(ring, values);
            &&& after.capacity == ring.capacity
            &&& after.is_full() <==> values.len() == ring.capacity
            &&& after.pending =~= values.map_values(|v: T| Some(v))
            &&& after.is_deliverable() <==> values.len() > 0
        }),
    decreases values.len(),
{
    if values.len() > 0 {
        law_ring_takes_as_many_as_its_capacity(ring, values.drop_last());
    }
    assert(after_sends(ring, values).pending =~= values.map_values(|v: T| Some(v)));
}

/// A message can be taken exactly if the oldest ticket has one; a younger one waits for it.
pub proof fn law_oldest_ticket_comes_first<T>(ring: RingState<T>)
    ensures
        ring.pending.len() == 0 ==> !ring.is_deliverable(),
        ring.pending.len() > 0 ==> (ring.is_deliverable() <==> ring.pending[0] is Some),
        ring.is_full() <==> ring.pending.len() >= ring.capacity,
{
}

/// The messages of a ring are those of its tickets that have one, in their order.
pub proof fn law_messages_are_those_that_are_published<T>(pending: Seq<Option<T>>)
    ensures
        messages(pending) == pending.filter(|m: Option<T>| m is Some).map_values(
            |m: Option<T>| m->0,
        ),
    decreases pending.len(),
{
    reveal(Seq::filter);
    if pending.len() > 0 {
        law_messages_are_those_that_are_published(pending.drop_last());
    }
    assert(messages(pending) =~= pending.filter(|m: Option<T>| m is Some).map_values(
        |m: Option<T>| m->0,
    ));
}

/// The phase after so many polls that found nothing, or `None` to sleep.
pub open spec fn after_misses(phase: RecvPhase, n: nat) -> Option<RecvPhase>
    decreases n,
{
    if n == 0 {
        Some(phase)
    } else {
        match after_misses(phase, (n - 1) as nat) {
            Some(p) => phase_after_miss(p),
            None => None,
        }
    }
}

proof fn lemma_spinning(n: u32, k: nat)
    requires
        1 <= n,
        k < n,
    ensures
        after_misses(RecvPhase::Spinning(n), k) == Some(RecvPhase::Spinning((n - k) as u32)),
    decreases k,
{
    if k > 0 {
        lemma_spinning(n, (k - 1) as nat);
    }
}

/// A receiver that finds nothing polls 999 times, then once more, upon which it asks to be
/// woken, and once again; and then it sleeps.
pub proof fn law_receiver_polls_before_it_sleeps(n: nat)
    requires
        n <= 1001,
    ensures
        after_misses(initial_recv_phase(), n) == (if n < 999 {
            Some(RecvPhase::Spinning((999 - n) as u32))
        } else if n == 999 {
            Some(RecvPhase::Polling)
        } else if n == 1000 {
            Some(RecvPhase::Rechecking)
        } else {
            None
        }),
        steps_left(initial_recv_phase()) == 1001,
    decreases n,
{
    if n < 999 {
        lemma_spinning(999, n);
    } else if n == 999 {
        lemma_spinning(999, 998);
    } else {
        law_receiver_polls_before_it_sleeps((n - 1) as nat);
    }
}

/// Each poll that finds nothing leaves one less before the receiver sleeps, and only the
/// one before the last asks to be woken.
pub proof fn law_each_miss_is_one_step<T>(phase: RecvPhase, ring: RingState<T>)
    ensures
        steps_left(phase) == 1 + (match phase_after_miss(phase) {
            Some(next) => steps_left(next) as int,
            None => 0,
        }),
        state_after_miss(ring, phase).pending == ring.pending,
        state_after_miss(ring, phase).capacity == ring.capacity,
        state_after_miss(ring, phase).wake_requested <==> ring.wake_requested || steps_left(phase)
            == 2,
{
}

} // verus!
