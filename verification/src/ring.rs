//! A bounded ring that many producers fill and one consumer empties.
//!
//! [`RingInner`] is the ring itself. A producer first reserves a ticket, which
//! fixes the place of its message in the order of delivery, and later
//! publishes the message under that ticket; the consumer takes the oldest
//! message once it is published. Each method is one atomic step, so any
//! interleaving of producers and the consumer is a sequence of these calls.
//!
//! `ring_log` keeps a record of what goes through a ring, and `ring_handle` holds the
//! handles through which threads share one.

use vstd::prelude::*;

use crate::bits::{
    lemma_largest_power_of_two, lemma_mask_is_mod, lemma_power_of_two_divides_word,
    least_power_of_two_from, next_power_of_two, power_of_two, word,
};
use crate::mem::{try_room, AllocError};

verus! {

/// How many times a receiver polls the ring before it prepares to sleep.
pub const RECV_SPIN_LIMIT: u32 = 999;

/// Tickets `a` and `b` that lie less than `cap` apart use different slots.
proof fn lemma_slots_differ(a: int, b: int, cap: int)
    requires
        cap > 0,
        a <= b < a + cap,
        a % cap == b % cap,
    ensures
        a == b,
{
    vstd::arithmetic::div_mod::lemma_fundamental_div_mod(a, cap);
    vstd::arithmetic::div_mod::lemma_fundamental_div_mod(b, cap);
    let d = b / cap - a / cap;
    assert(b - a == cap * d) by (nonlinear_arith)
        requires
            a == cap * (a / cap) + a % cap,
            b == cap * (b / cap) + b % cap,
            a % cap == b % cap,
            d == b / cap - a / cap,
    ;
    assert(d == 0) by (nonlinear_arith)
        requires
            0 <= cap * d < cap,
            cap > 0,
    ;
}

/// Wrapping a ticket around the word does not change its slot.
proof fn lemma_slot_of_wrapped(x: int, cap: usize)
    requires
        power_of_two(cap as int),
    ensures
        cap > 0,
        (x - word()) % (cap as int) == x % (cap as int),
{
    lemma_power_of_two_divides_word(cap);
    let w = word();
    let c = cap as int;
    vstd::arithmetic::div_mod::lemma_fundamental_div_mod(w, c);
    let q = w / c;
    vstd::arithmetic::div_mod::lemma_mod_multiples_vanish(-q, x, c);
    assert(c * (-q) + x == x - w) by (nonlinear_arith)
        requires
            w == c * q,
    ;
}

/// What a ring holds, seen from outside.
#[verifier::ext_equal]
pub struct RingState<T> {
    /// The undelivered tickets from oldest to newest: the message where it is
    /// published, `None` where the ticket is reserved only.
    pub pending: Seq<Option<T>>,
    /// How many tickets can be outstanding at once.
    pub capacity: nat,
    /// Whether producers have been told to wake the consumer.
    pub wake_requested: bool,
}

impl<T> RingState<T> {
    /// No ticket is left.
    pub open spec fn is_full(self) -> bool {
        self.pending.len() >= self.capacity
    }

    /// The oldest ticket is published.
    pub open spec fn is_deliverable(self) -> bool {
        self.pending.len() > 0 && self.pending[0] is Some
    }

    /// After one more ticket is handed out.
    pub open spec fn reserve(self) -> Self {
        RingState { pending: self.pending.push(None), ..self }
    }

    /// After `value` is published under the `i`-th oldest ticket.
    pub open spec fn publish(self, i: int, value: T) -> Self {
        RingState { pending: self.pending.update(i, Some(value)), ..self }
    }

    /// After a producer announced its message.
    pub open spec fn signal(self) -> Self {
        RingState { wake_requested: false, ..self }
    }

    /// After the consumer asked to be woken.
    pub open spec fn request_wake(self) -> Self {
        RingState { wake_requested: true, ..self }
    }

    /// After a whole send of `value`.
    pub open spec fn send(self, value: T) -> Self {
        RingState {
            pending: self.pending.push(Some(value)),
            wake_requested: false,
            ..self
        }
    }

    /// After the oldest message was taken.
    pub open spec fn deliver(self) -> Self {
        RingState { pending: self.pending.drop_first(), ..self }
    }
}

/// The published messages among `pending`, in their order.
pub open spec fn messages<T>(pending: Seq<Option<T>>) -> Seq<T>
    decreases pending.len(),
{
    if pending.len() == 0 {
        seq![]
    } else {
        match pending.last() {
            Some(value) => messages(pending.drop_last()).push(value),
            None => messages(pending.drop_last()),
        }
    }
}

/// If every message is published, the published ones are all of them.
pub proof fn lemma_all_published<T>(pending: Seq<Option<T>>, values: Seq<T>)
    requires
        pending.len() == values.len(),
        forall|i: int| 0 <= i < values.len() ==> #[trigger] pending[i] == Some(values[i]),
    ensures
        messages(pending) == values,
    decreases values.len(),
{
    if values.len() > 0 {
        lemma_all_published(pending.drop_last(), values.drop_last());
        assert(messages(pending) =~= values);
    } else {
        assert(values =~= seq![]);
    }
}

/// How many of the oldest messages are published without a gap.
pub open spec fn ready_prefix<T>(pending: Seq<Option<T>>) -> nat
    decreases pending.len(),
{
    if pending.len() == 0 || pending[0] is None {
        0
    } else {
        1 + ready_prefix(pending.drop_first())
    }
}

/// Behind the published messages at the front comes one that is not, or none.
pub proof fn lemma_ready_prefix<T>(pending: Seq<Option<T>>)
    ensures
        ready_prefix(pending) <= pending.len(),
        forall|i: int| 0 <= i < ready_prefix(pending) ==> (#[trigger] pending[i]) is Some,
        ready_prefix(pending) < pending.len() ==> pending[ready_prefix(pending) as int] is None,
    decreases pending.len(),
{
    if pending.len() > 0 && pending[0] is Some {
        lemma_ready_prefix(pending.drop_first());
        assert forall|i: int| 0 <= i < ready_prefix(pending) implies (
        #[trigger] pending[i]) is Some by {
            if i > 0 {
                assert(pending.drop_first()[i - 1] is Some);
            }
        }
    }
}

/// The ring itself.
///
/// `head` and `tail` are tickets: `head` is the next one to hand out, `tail`
/// the oldest one still occupied. A slot is ready when it holds a message.
pub struct RingInner<T> {
    buf: Vec<Option<T>>,
    capacity: usize,
    mask: usize,
    head: usize,
    tail: usize,
    futex_flag: i32,
}

/// What a receiver does next.
#[derive(Debug, Clone, Copy, PartialEq, Eq, Structural)]
pub enum RecvPhase {
    /// Poll again without preparing to sleep, at most this many more times.
    Spinning(u32),
    /// Poll, and prepare to sleep when there is nothing.
    Polling,
    /// Poll once more now that producers have been told to wake the receiver.
    Rechecking,
}

/// The outcome of one step of a receiver.
#[derive(Debug)]
pub enum RecvStep<T> {
    /// A message arrived.
    Received(T),
    /// Nothing yet: take another step in this phase.
    Again(RecvPhase),
    /// Sleep while the wake flag is down, then go on in phase `Polling`.
    Sleep,
}

/// The phase in which a receiver starts.
pub open spec fn initial_recv_phase() -> RecvPhase {
    RecvPhase::Spinning(RECV_SPIN_LIMIT)
}

/// The phase after a poll that found nothing, or `None` to sleep.
pub open spec fn phase_after_miss(phase: RecvPhase) -> Option<RecvPhase> {
    match phase {
        RecvPhase::Spinning(n) => Some(
            if n <= 1 {
                RecvPhase::Polling
            } else {
                RecvPhase::Spinning((n - 1) as u32)
            },
        ),
        RecvPhase::Polling => Some(RecvPhase::Rechecking),
        RecvPhase::Rechecking => None,
    }
}

/// The ring after a poll that found nothing.
pub open spec fn state_after_miss<T>(ring: RingState<T>, phase: RecvPhase) -> RingState<T> {
    if phase == RecvPhase::Polling {
        ring.request_wake()
    } else {
        ring
    }
}

/// How many times a receiver that receives nothing asks before it sleeps.
pub open spec fn steps_left(phase: RecvPhase) -> nat {
    match phase {
        RecvPhase::Spinning(n) => if n <= 1 {
            3
        } else {
            (n + 2) as nat
        },
        RecvPhase::Polling => 2,
        RecvPhase::Rechecking => 1,
    }
}

impl<T> View for RingInner<T> {
    type V = RingState<T>;

    closed spec fn view(&self) -> RingState<T> {
        RingState {
            pending: Seq::new(self.occupied() as nat, |i: int| self.buf@[self.slot(i)]),
            capacity: self.capacity as nat,
            wake_requested: self.futex_flag == 0,
        }
    }
}

impl<T> RingInner<T> {
    /// How many tickets are reserved and not yet delivered.
    closed spec fn occupied(&self) -> int {
        if self.head >= self.tail {
            self.head - self.tail
        } else {
            self.head - self.tail + word()
        }
    }

    /// The slot of the `i`-th oldest ticket.
    closed spec fn slot(&self, i: int) -> int {
        (self.tail + i) % (self.capacity as int)
    }

    /// The next ticket to be handed out.
    pub closed spec fn next_ticket(&self) -> usize {
        self.head
    }

    /// The place of `ticket` among the undelivered ones.
    pub closed spec fn position(&self, ticket: usize) -> int {
        if ticket >= self.tail {
            ticket - self.tail
        } else {
            ticket - self.tail + word()
        }
    }

    /// `ticket` has been reserved and its message is not published yet.
    pub open spec fn is_reserved(&self, ticket: usize) -> bool {
        &&& self.position(ticket) < self@.pending.len()
        &&& self@.pending[self.position(ticket)] is None
    }

    /// The ring's invariant.
    pub closed spec fn wf(&self) -> bool {
        &&& power_of_two(self.capacity as int)
        &&& self.buf@.len() == self.capacity
        &&& self.mask == self.capacity - 1
        &&& self.occupied() <= self.capacity
        &&& forall|i: int|
            self.occupied() <= i < self.capacity ==> (#[trigger] self.buf@[self.slot(i)]) is None
    }

    /// What the invariant says of the public views.
    pub proof fn lemma_wf(&self)
        requires
            self.wf(),
        ensures
            power_of_two(self@.capacity as int),
            0 < self@.capacity <= word() / 2,
            self@.pending.len() <= self@.capacity,
            self@.pending.len() < self@.capacity ==> self.position(self.next_ticket())
                == self@.pending.len(),
            forall|t: usize| #[trigger] self.position(t) >= 0,
    {
        lemma_largest_power_of_two();
        lemma_power_of_two_divides_word(self.capacity);
    }

    /// An empty ring for at least `capacity` messages in the room that was had
    /// for its slots: the capacity is rounded up to a power of two. Fails when
    /// the room could not be had, and only then.
    pub fn in_room(room: Result<Vec<Option<T>>, AllocError>, capacity: usize) -> (r: Result<
        Self,
        AllocError,
    >)
        requires
            capacity <= word() / 2,
        ensures
            r is Ok <==> room is Ok,
            r matches Ok(ring) ==> {
                &&& ring.wf()
                &&& ring@.pending =~= Seq::<Option<T>>::empty()
                &&& least_power_of_two_from(capacity as int, ring@.capacity as int)
                &&& ring@.wake_requested
                &&& ring.next_ticket() == 0
            },
    {
        let capacity: usize = next_power_of_two(capacity);
        let mut buf: Vec<Option<T>> = match room {
            Ok(room) => room,
            Err(e) => {
                return Err(e);
            },
        };
        buf.clear();
        let mut i: usize = 0;
        while i < capacity
            invariant
                i <= capacity,
                buf@.len() == i,
                forall|j: int| 0 <= j < i ==> (#[trigger] buf@[j]) is None,
            decreases capacity - i,
        {
            buf.push(None);
            i += 1;
        }
        proof {
            lemma_power_of_two_divides_word(capacity);
        }
        Ok(RingInner { buf, capacity, mask: capacity - 1, head: 0, tail: 0, futex_flag: 0 })
    }

    /// An empty ring for at least `capacity` messages: the capacity is rounded
    /// up to a power of two. Fails when the memory for the slots cannot be had.
    ///
    /// Whether it can depends on the machine; [`in_room`](Self::in_room) states
    /// what comes of either.
    pub fn new(capacity: usize) -> (r: Result<Self, AllocError>)
        requires
            capacity <= word() / 2,
        ensures
            r matches Ok(ring) ==> {
                &&& ring.wf()
                &&& ring@.pending =~= Seq::<Option<T>>::empty()
                &&& least_power_of_two_from(capacity as int, ring@.capacity as int)
                &&& ring@.wake_requested
                &&& ring.next_ticket() == 0
            },
    {
        Self::in_room(try_room(next_power_of_two(capacity)), capacity)
    }

    /// The capacity of the ring.
    pub fn capacity(&self) -> (c: usize)
        ensures
            c == self@.capacity,
    {
        self.capacity
    }

    /// How many tickets are reserved and not yet delivered.
    pub fn len(&self) -> (n: usize)
        requires
            self.wf(),
        ensures
            n == self@.pending.len(),
    {
        self.head.wrapping_sub(self.tail)
    }

    /// Reserves the next ticket, unless the ring is full.
    pub fn reserve(&mut self) -> (r: Option<usize>)
        requires
            old(self).wf(),
        ensures
            final(self).wf(),
            r is None <==> old(self)@.is_full(),
            r is None ==> *final(self) == *old(self),
            r matches Some(ticket) ==> {
                &&& ticket == old(self).next_ticket()
                &&& final(self)@ == old(self)@.reserve()
                &&& final(self).position(ticket) == old(self)@.pending.len()
                &&& final(self).is_reserved(ticket)
                &&& forall|t: usize| #[trigger]
                    final(self).position(t) == old(self).position(t)
            },
    {
        let head = self.head;
        let tail = self.tail;
        if head.wrapping_sub(tail) >= self.capacity {
            return None;
        }
        proof {
            lemma_largest_power_of_two();
        }
        self.head = head.wrapping_add(1);
        assert(self.occupied() == old(self).occupied() + 1);
        assert(forall|i: int| #[trigger] self.slot(i) == old(self).slot(i));
        assert(self.buf@[self.slot(old(self).occupied())] is None);
        assert(self@ =~= old(self)@.reserve());
        Some(head)
    }

    /// Publishes `value` under a reserved ticket.
    pub fn publish(&mut self, ticket: usize, value: T)
        requires
            old(self).wf(),
            old(self).is_reserved(ticket),
        ensures
            final(self).wf(),
            final(self)@ == old(self)@.publish(old(self).position(ticket), value),
            final(self).next_ticket() == old(self).next_ticket(),
            forall|t: usize| #[trigger] final(self).position(t) == old(self).position(t),
    {
        let idx: usize = ticket & self.mask;
        let ghost pos = self.position(ticket);
        proof {
            lemma_mask_is_mod(ticket, self.capacity);
            lemma_slot_of_wrapped(self.tail + pos, self.capacity);
            assert(idx == self.slot(pos));
            assert forall|i: int| 0 <= i < self.capacity && i != pos implies self.slot(i) != idx by {
                if self.slot(i) == idx {
                    if i < pos {
                        lemma_slots_differ(self.tail + i, self.tail + pos, self.capacity as int);
                    } else {
                        lemma_slots_differ(self.tail + pos, self.tail + i, self.capacity as int);
                    }
                }
            }
            assert forall|i: int| 0 <= i < self.capacity implies 0 <= #[trigger] self.slot(i)
                < self.capacity by {
                vstd::arithmetic::div_mod::lemma_mod_bound(self.tail + i, self.capacity as int);
            }
        }
        self.buf.set(idx, Some(value));
        assert(forall|i: int| #[trigger] self.slot(i) == old(self).slot(i));
        assert(self@ =~= old(self)@.publish(pos, value));
    }

    /// Records that a message was published. True when the consumer may be
    /// asleep and has to be woken.
    pub fn signal(&mut self) -> (wake: bool)
        requires
            old(self).wf(),
        ensures
            final(self).wf(),
            final(self)@ == old(self)@.signal(),
            wake == old(self)@.wake_requested,
            final(self).next_ticket() == old(self).next_ticket(),
            forall|t: usize| #[trigger] final(self).position(t) == old(self).position(t),
    {
        let previous: i32 = self.futex_flag;
        self.futex_flag = 1;
        assert(forall|i: int| #[trigger] self.slot(i) == old(self).slot(i));
        assert(self@ =~= old(self)@.signal());
        previous == 0
    }

    /// Asks producers to wake the consumer at their next message.
    pub fn request_wake(&mut self)
        requires
            old(self).wf(),
        ensures
            final(self).wf(),
            final(self)@ == old(self)@.request_wake(),
            final(self).next_ticket() == old(self).next_ticket(),
            forall|t: usize| #[trigger] final(self).position(t) == old(self).position(t),
    {
        self.futex_flag = 0;
        assert(forall|i: int| #[trigger] self.slot(i) == old(self).slot(i));
        assert(self@ =~= old(self)@.request_wake());
    }

    /// Whether a consumer that prepared to sleep may do so: no producer has
    /// signalled since.
    pub fn may_sleep(&self) -> (b: bool)
        ensures
            b == self@.wake_requested,
    {
        self.futex_flag == 0
    }

    /// Sends `value`: reserves, publishes and signals. A full ring gives the
    /// value back. `Ok(true)` asks the caller to wake the consumer.
    pub fn send(&mut self, value: T) -> (r: Result<bool, T>)
        requires
            old(self).wf(),
        ensures
            final(self).wf(),
            r is Err <==> old(self)@.is_full(),
            r matches Err(v) ==> v == value && *final(self) == *old(self),
            r matches Ok(wake) ==> {
                &&& wake == old(self)@.wake_requested
                &&& final(self)@ == old(self)@.send(value)
            },
    {
        match self.reserve() {
            None => Err(value),
            Some(ticket) => {
                self.publish(ticket, value);
                let wake = self.signal();
                assert(self@ =~= old(self)@.send(value));
                Ok(wake)
            },
        }
    }

    /// Takes the oldest message if it is published. A reserved ticket that is
    /// not published yet holds back everything behind it.
    pub fn try_recv(&mut self) -> (r: Option<T>)
        requires
            old(self).wf(),
        ensures
            final(self).wf(),
            final(self).next_ticket() == old(self).next_ticket(),
            r is Some <==> old(self)@.is_deliverable(),
            match r {
                Some(v) => {
                    &&& old(self)@.pending[0] == Some(v)
                    &&& final(self)@ == old(self)@.deliver()
                    &&& forall|t: usize|
                        old(self).position(t) > 0 ==> #[trigger] final(self).position(t)
                            == old(self).position(t) - 1
                },
                None => {
                    &&& final(self)@ == old(self)@
                    &&& forall|t: usize| #[trigger]
                        final(self).position(t) == old(self).position(t)
                },
            },
    {
        let tail: usize = self.tail;
        let idx: usize = tail & self.mask;
        proof {
            lemma_mask_is_mod(tail, self.capacity);
            lemma_largest_power_of_two();
            assert(idx == self.slot(0));
            assert forall|i: int| 0 <= i < self.capacity implies 0 <= #[trigger] self.slot(i)
                < self.capacity by {
                vstd::arithmetic::div_mod::lemma_mod_bound(self.tail + i, self.capacity as int);
            }
        }
        let taken: Option<T> = self.buf[idx].take();
        match taken {
            None => {
                assert(self.buf@ =~= old(self).buf@);
                assert(forall|i: int| #[trigger] self.slot(i) == old(self).slot(i));
                assert(self@ =~= old(self)@);
                None
            },
            Some(value) => {
                self.tail = tail.wrapping_add(1);
                proof {
                    let cap = self.capacity as int;
                    assert forall|i: int| #[trigger] self.slot(i) == old(self).slot(i + 1) by {
                        lemma_slot_of_wrapped(tail + 1 + i, self.capacity);
                    }
                    assert forall|i: int| 1 <= i < cap implies #[trigger] old(self).slot(i)
                        != idx by {
                        if old(self).slot(i) == idx {
                            lemma_slots_differ(tail as int, tail + i, cap);
                        }
                    }
                    assert(self.slot(cap - 1) == idx) by {
                        assert(old(self).slot(cap) == idx) by {
                            vstd::arithmetic::div_mod::lemma_mod_add_multiples_vanish(
                                tail as int,
                                cap,
                            );
                        }
                    }
                    assert(self.occupied() == old(self).occupied() - 1);
                    assert forall|i: int| self.occupied() <= i < cap implies (
                    #[trigger] self.buf@[self.slot(i)]) is None by {
                        if i == cap - 1 {
                        } else {
                            assert(old(self).buf@[old(self).slot(i + 1)] is None);
                        }
                    }
                    assert(self@ =~= old(self)@.deliver());
                }
                Some(value)
            },
        }
    }

    /// Takes the oldest messages, as many as are published without a gap, but no
    /// more than `limit`.
    pub fn take_ready(&mut self, limit: usize) -> (taken: Vec<T>)
        requires
            old(self).wf(),
        ensures
            final(self).wf(),
            taken@.len() == (if ready_prefix(old(self)@.pending) < limit {
                ready_prefix(old(self)@.pending) as int
            } else {
                limit as int
            }),
            forall|i: int|
                0 <= i < taken@.len() ==> old(self)@.pending[i] == Some(#[trigger] taken@[i]),
            final(self)@ == (RingState {
                pending: old(self)@.pending.skip(taken@.len() as int),
                ..old(self)@
            }),
    {
        let ghost pending = self@.pending;
        let mut taken: Vec<T> = Vec::new();
        proof {
            lemma_ready_prefix(pending);
            assert(pending.skip(0) =~= pending);
        }
        while taken.len() < limit
            invariant
                self.wf(),
                pending == old(self)@.pending,
                ready_prefix(pending) <= pending.len(),
                forall|i: int| 0 <= i < ready_prefix(pending) ==> (#[trigger] pending[i]) is Some,
                ready_prefix(pending) < pending.len() ==> pending[ready_prefix(
                    pending,
                ) as int] is None,
                taken@.len() <= limit,
                taken@.len() <= ready_prefix(pending),
                forall|i: int| 0 <= i < taken@.len() ==> pending[i] == Some(#[trigger] taken@[i]),
                self@ == (RingState { pending: pending.skip(taken@.len() as int), ..old(self)@ }),
            ensures
                taken@.len() == limit || taken@.len() == ready_prefix(pending),
            decreases limit - taken.len(),
        {
            let ghost n = taken@.len() as int;
            match self.try_recv() {
                Some(value) => {
                    assert(pending.skip(n)[0] == pending[n]);
                    assert(pending.skip(n).drop_first() =~= pending.skip(n + 1));
                    taken.push(value);
                },
                None => {
                    break ;
                },
            }
        }
        taken
    }

    /// One step of a blocking receive.
    pub fn recv_step(&mut self, phase: RecvPhase) -> (r: RecvStep<T>)
        requires
            old(self).wf(),
        ensures
            final(self).wf(),
            final(self).next_ticket() == old(self).next_ticket(),
            r is Received <==> old(self)@.is_deliverable(),
            match r {
                RecvStep::Received(v) => {
                    &&& old(self)@.pending[0] == Some(v)
                    &&& final(self)@ == old(self)@.deliver()
                },
                RecvStep::Again(next) => {
                    &&& phase_after_miss(phase) == Some(next)
                    &&& final(self)@ == state_after_miss(old(self)@, phase)
                },
                RecvStep::Sleep => {
                    &&& phase_after_miss(phase) is None
                    &&& final(self)@ == old(self)@
                },
            },
    {
        match self.try_recv() {
            Some(value) => RecvStep::Received(value),
            None => match phase {
                RecvPhase::Spinning(n) => {
                    if n <= 1 {
                        RecvStep::Again(RecvPhase::Polling)
                    } else {
                        RecvStep::Again(RecvPhase::Spinning(n - 1))
                    }
                },
                RecvPhase::Polling => {
                    self.request_wake();
                    RecvStep::Again(RecvPhase::Rechecking)
                },
                RecvPhase::Rechecking => RecvStep::Sleep,
            },
        }
    }
}

} // verus!
