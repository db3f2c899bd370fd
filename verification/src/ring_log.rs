//! A ring that threads share, and a record in ghost state of what goes through it.
//!
//! A [`SharedRing`] can be used only together with one of its logs: sending takes a
//! [`SendLog`] and grows it, receiving takes the [`RecvLog`] and grows that. Nothing
//! outside this module can change what a log holds, and a log belongs to one ring. So
//! a log that grew tells that its ring was used, and how.

use vstd::prelude::*;

use crate::ring::{
    messages, phase_after_miss, ready_prefix, state_after_miss, RecvPhase, RecvStep, RingInner,
    RingState,
};

verus! {

/// A ring that is used through its logs only.
pub struct SharedRing<T> {
    ring: RingInner<T>,
    id: Ghost<int>,
}

/// What was sent into a ring.
pub struct SendLog<T> {
    ring: Ghost<int>,
    sent: Ghost<Seq<T>>,
    refused: Ghost<Seq<T>>,
    wakes: Ghost<nat>,
}

/// What was received from a ring.
pub struct RecvLog<T> {
    ring: Ghost<int>,
    received: Ghost<Seq<T>>,
    missed: Ghost<nat>,
}

impl<T> View for SharedRing<T> {
    type V = RingState<T>;

    /// What the ring holds.
    closed spec fn view(&self) -> RingState<T> {
        self.ring@
    }
}

impl<T> SharedRing<T> {
    /// Which ring this is. Nothing is said of the identity of a ring that is shared
    /// anew, so no other ring can be shown to have the same.
    pub closed spec fn id(&self) -> int {
        self.id@
    }

    /// The ring's invariant.
    pub closed spec fn wf(&self) -> bool {
        self.ring.wf()
    }

    /// Shares `ring`, and begins the logs of what goes through it.
    pub fn share(ring: RingInner<T>) -> (r: (Self, SendLog<T>, RecvLog<T>))
        requires
            ring.wf(),
        ensures
            r.0.wf(),
            r.0@ == ring@,
            r.1.ring() == r.0.id(),
            r.1.sent() == messages(ring@.pending),
            r.1.refused() == Seq::<T>::empty(),
            r.1.wakes() == 0,
            r.2.ring() == r.0.id(),
            r.2.received() == Seq::<T>::empty(),
            r.2.missed() == 0,
    {
        let ghost id: int = arbitrary();
        let send_log = SendLog {
            ring: Ghost(id),
            sent: Ghost(messages(ring@.pending)),
            refused: Ghost(Seq::empty()),
            wakes: Ghost(0),
        };
        let recv_log = RecvLog {
            ring: Ghost(id),
            received: Ghost(Seq::empty()),
            missed: Ghost(0),
        };
        (SharedRing { ring, id: Ghost(id) }, send_log, recv_log)
    }
}

impl<T> SendLog<T> {
    /// The ring that the log belongs to.
    pub closed spec fn ring(&self) -> int {
        self.ring@
    }

    /// The messages that were sent. The first log of a ring begins with those that the
    /// ring held when it was shared.
    pub closed spec fn sent(&self) -> Seq<T> {
        self.sent@
    }

    /// The messages that the ring had no room for.
    pub closed spec fn refused(&self) -> Seq<T> {
        self.refused@
    }

    /// How many times a send asked for the consumer to be woken.
    pub closed spec fn wakes(&self) -> nat {
        self.wakes@
    }

    /// A second log of the same ring, for another producer. It begins empty.
    pub fn fork(&self) -> (log: Self)
        ensures
            log.ring() == self.ring(),
            log.sent() == Seq::<T>::empty(),
            log.refused() == Seq::<T>::empty(),
            log.wakes() == 0,
    {
        SendLog {
            ring: Ghost(self.ring@),
            sent: Ghost(Seq::empty()),
            refused: Ghost(Seq::empty()),
            wakes: Ghost(0),
        }
    }

    /// Sends `value` into the ring and records it. A full ring gives the value
    /// back. `Ok(true)` asks the caller to wake the consumer.
    pub fn send(&mut self, ring: &mut SharedRing<T>, value: T) -> (r: Result<bool, T>)
        requires
            old(ring).wf(),
            old(ring).id() == old(self).ring(),
        ensures
            final(ring).wf(),
            final(ring).id() == old(ring).id(),
            final(self).ring() == old(self).ring(),
            r is Err <==> old(ring)@.is_full(),
            match r {
                Ok(wake) => {
                    &&& wake == old(ring)@.wake_requested
                    &&& final(ring)@ == old(ring)@.send(value)
                    &&& final(self).sent() == old(self).sent().push(value)
                    &&& final(self).refused() == old(self).refused()
                    &&& final(self).wakes() == old(self).wakes() + (if wake {
                        1nat
                    } else {
                        0
                    })
                },
                Err(v) => {
                    &&& v == value
                    &&& *final(ring) == *old(ring)
                    &&& final(self).sent() == old(self).sent()
                    &&& final(self).refused() == old(self).refused().push(value)
                    &&& final(self).wakes() == old(self).wakes()
                },
            },
    {
        let ghost message = value;
        let r: Result<bool, T> = ring.ring.send(value);
        match &r {
            Ok(wake) => {
                self.sent = Ghost(self.sent@.push(message));
                if *wake {
                    self.wakes = Ghost(self.wakes@ + 1);
                }
            },
            Err(_) => {
                self.refused = Ghost(self.refused@.push(message));
            },
        }
        r
    }
}

impl<T> RecvLog<T> {
    /// The ring that the log belongs to.
    pub closed spec fn ring(&self) -> int {
        self.ring@
    }

    /// The messages that were received.
    pub closed spec fn received(&self) -> Seq<T> {
        self.received@
    }

    /// How many times the ring was asked for a message that it did not have.
    pub closed spec fn missed(&self) -> nat {
        self.missed@
    }

    /// Takes the oldest message, if it is published, and records it.
    pub fn try_recv(&mut self, ring: &mut SharedRing<T>) -> (r: Option<T>)
        requires
            old(ring).wf(),
            old(ring).id() == old(self).ring(),
        ensures
            final(ring).wf(),
            final(ring).id() == old(ring).id(),
            final(self).ring() == old(self).ring(),
            r is Some <==> old(ring)@.is_deliverable(),
            match r {
                Some(v) => {
                    &&& old(ring)@.pending[0] == Some(v)
                    &&& final(ring)@ == old(ring)@.deliver()
                    &&& final(self).received() == old(self).received().push(v)
                    &&& final(self).missed() == old(self).missed()
                },
                None => {
                    &&& final(ring)@ == old(ring)@
                    &&& final(self).received() == old(self).received()
                    &&& final(self).missed() == old(self).missed() + 1
                },
            },
    {
        let r: Option<T> = ring.ring.try_recv();
        if r.is_some() {
            self.received = Ghost(self.received@.push(r->0));
        } else {
            self.missed = Ghost(self.missed@ + 1);
        }
        r
    }

    /// Takes the oldest messages, as many as are published without a gap, but no
    /// more than `limit`, and records them.
    pub fn take_ready(&mut self, ring: &mut SharedRing<T>, limit: usize) -> (taken: Vec<T>)
        requires
            old(ring).wf(),
            old(ring).id() == old(self).ring(),
        ensures
            final(ring).wf(),
            final(ring).id() == old(ring).id(),
            final(self).ring() == old(self).ring(),
            taken@.len() == (if ready_prefix(old(ring)@.pending) < limit {
                ready_prefix(old(ring)@.pending) as int
            } else {
                limit as int
            }),
            forall|i: int|
                0 <= i < taken@.len() ==> old(ring)@.pending[i] == Some(#[trigger] taken@[i]),
            final(ring)@ == (RingState {
                pending: old(ring)@.pending.skip(taken@.len() as int),
                ..old(ring)@
            }),
            final(self).received() == old(self).received() + taken@,
            final(self).missed() == old(self).missed() + (if taken@.len() < limit {
                1nat
            } else {
                0
            }),
    {
        let taken: Vec<T> = ring.ring.take_ready(limit);
        self.received = Ghost(self.received@ + taken@);
        if taken.len() < limit {
            self.missed = Ghost(self.missed@ + 1);
        }
        taken
    }

    /// One step of a blocking receive, recorded.
    pub fn recv_step(&mut self, ring: &mut SharedRing<T>, phase: RecvPhase) -> (r: RecvStep<T>)
        requires
            old(ring).wf(),
            old(ring).id() == old(self).ring(),
        ensures
            final(ring).wf(),
            final(ring).id() == old(ring).id(),
            final(self).ring() == old(self).ring(),
            r is Received <==> old(ring)@.is_deliverable(),
            match r {
                RecvStep::Received(v) => {
                    &&& old(ring)@.pending[0] == Some(v)
                    &&& final(ring)@ == old(ring)@.deliver()
                    &&& final(self).received() == old(self).received().push(v)
                    &&& final(self).missed() == old(self).missed()
                },
                RecvStep::Again(next) => {
                    &&& phase_after_miss(phase) == Some(next)
                    &&& final(ring)@ == state_after_miss(old(ring)@, phase)
                    &&& final(self).received() == old(self).received()
                    &&& final(self).missed() == old(self).missed() + 1
                },
                RecvStep::Sleep => {
                    &&& phase_after_miss(phase) is None
                    &&& final(ring)@ == old(ring)@
                    &&& final(self).received() == old(self).received()
                    &&& final(self).missed() == old(self).missed() + 1
                },
            },
    {
        let r: RecvStep<T> = ring.ring.recv_step(phase);
        match &r {
            RecvStep::Received(_) => {
                self.received = Ghost(self.received@.push(r->Received_0));
            },
            _ => {
                self.missed = Ghost(self.missed@ + 1);
            },
        }
        r
    }
}

} // verus!
