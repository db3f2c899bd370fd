//! The handles through which threads share a ring.

use std::sync::Arc;

use vstd::prelude::*;
use vstd::rwlock::{RwLock, RwLockPredicate};

use crate::bits::{least_power_of_two_from, word};
use crate::mem::AllocError;
use crate::ring::{
    lemma_ready_prefix, messages, steps_left, RecvPhase, RecvStep, RingInner,
};
use crate::ring_log::{RecvLog, SendLog, SharedRing};

verus! {

/// What every state of a shared ring satisfies: it is the same ring, with the same
/// capacity, and each published message is one the ring admits.
#[verifier::reject_recursive_types(T)]
pub struct RingPredicate<T> {
    pub id: int,
    pub capacity: nat,
    pub admits: spec_fn(T) -> bool,
}

/// Every published message of `pending` is admitted.
pub open spec fn all_admitted<T>(pending: Seq<Option<T>>, admits: spec_fn(T) -> bool) -> bool {
    forall|i: int|
        0 <= i < pending.len() ==> ((#[trigger] pending[i]) matches Some(v) ==> admits(v))
}

impl<T> RwLockPredicate<SharedRing<T>> for RingPredicate<T> {
    open spec fn inv(self, ring: SharedRing<T>) -> bool {
        &&& ring.wf()
        &&& ring.id() == self.id
        &&& ring@.capacity == self.capacity
        &&& all_admitted(ring@.pending, self.admits)
    }
}

/// A producer's handle of a shared ring.
#[verifier::reject_recursive_types(T)]
pub struct Tx<T> {
    inner: Arc<RwLock<SharedRing<T>, RingPredicate<T>>>,
    log: SendLog<T>,
}

/// The consumer's handle of a shared ring.
#[verifier::reject_recursive_types(T)]
pub struct Rx<T> {
    inner: Arc<RwLock<SharedRing<T>, RingPredicate<T>>>,
    log: RecvLog<T>,
}

impl<T> Clone for Tx<T> {
    /// Another handle of the same ring. Nothing was sent through it yet.
    fn clone(&self) -> (r: Self)
        ensures
            r.ring() == self.ring(),
            r.sent() == Seq::<T>::empty(),
            r.refused() == Seq::<T>::empty(),
            r.wakes() == 0,
    {
        proof {
            use_type_invariant(self);
        }
        Tx { inner: Arc::clone(&self.inner), log: self.log.fork() }
    }
}

/// What was sent through each of the handles.
pub open spec fn all_sent<T>(txs: Seq<Tx<T>>) -> Seq<Seq<T>> {
    txs.map_values(|tx: Tx<T>| tx.sent())
}

/// What each of the handles was refused.
pub open spec fn all_refused<T>(txs: Seq<Tx<T>>) -> Seq<Seq<T>> {
    txs.map_values(|tx: Tx<T>| tx.refused())
}

/// `after` are handles of the same rings as `before`.
pub open spec fn same_rings<T>(before: Seq<Tx<T>>, after: Seq<Tx<T>>) -> bool {
    &&& after.len() == before.len()
    &&& forall|i: int| 0 <= i < before.len() ==> (#[trigger] after[i]).ring() == before[i].ring()
}

/// The two handles are ends of one ring, and `held`, which the ring held when it
/// was shared, is all that went through them.
pub open spec fn is_fresh_pair<T>(tx: Tx<T>, rx: Rx<T>, held: Seq<T>) -> bool {
    &&& rx.wf()
    &&& tx.ring() == rx.ring()
    &&& tx.sent() == held
    &&& tx.refused() == Seq::<T>::empty()
    &&& tx.wakes() == 0
    &&& rx.received() == Seq::<T>::empty()
    &&& rx.missed() == 0
}

/// Shares a ring, if there is one, between producers and a consumer. It admits
/// every value of its type. Fails when there is none, and only then.
pub fn share_any<T>(ring: Result<RingInner<T>, AllocError>) -> (r: Result<
    (Tx<T>, Rx<T>),
    AllocError,
>)
    requires
        ring matches Ok(ring) ==> ring.wf(),
    ensures
        r is Ok <==> ring is Ok,
        r matches Ok((tx, rx)) ==> {
            &&& is_fresh_pair(tx, rx, messages(ring->Ok_0@.pending))
            &&& tx.ring().pred().capacity == ring->Ok_0@.capacity
            &&& tx.ring().pred().admits == (|v: T| true)
        },
{
    match ring {
        Ok(ring) => Ok(share_ring(ring, Ghost(|v: T| true))),
        Err(e) => Err(e),
    }
}

/// A ring for at least `capacity` messages that admits every value of its type.
/// Fails when the memory for its slots cannot be had.
///
/// Whether it can depends on the machine; [`share_any`] states what comes of
/// either.
pub fn message_ring<T>(capacity: usize) -> (r: Result<(Tx<T>, Rx<T>), AllocError>)
    requires
        capacity <= word() / 2,
    ensures
        r matches Ok((tx, rx)) ==> {
            &&& is_fresh_pair(tx, rx, Seq::<T>::empty())
            &&& least_power_of_two_from(capacity as int, tx.ring().pred().capacity as int)
            &&& tx.ring().pred().admits == (|v: T| true)
        },
{
    share_any(RingInner::new(capacity))
}

/// Shares `ring` between producers and a consumer. From then on it admits the
/// values of `admits` only.
pub(crate) fn share_ring<T>(
    ring: RingInner<T>,
    Ghost(admits): Ghost<spec_fn(T) -> bool>,
) -> (r: (Tx<T>, Rx<T>))
    requires
        ring.wf(),
        all_admitted(ring@.pending, admits),
    ensures
        is_fresh_pair(r.0, r.1, messages(ring@.pending)),
        r.0.ring().pred().capacity == ring@.capacity,
        r.0.ring().pred().admits == admits,
{
    let (ring, send_log, recv_log) = SharedRing::share(ring);
    let ghost pred = RingPredicate { id: ring.id(), capacity: ring@.capacity, admits };
    let lock = RwLock::new(ring, Ghost(pred));
    let tx_inner = Arc::new(lock);
    let rx_inner = Arc::clone(&tx_inner);
    (Tx { inner: tx_inner, log: send_log }, Rx { inner: rx_inner, log: recv_log })
}

impl<T> Tx<T> {
    /// The log is that of the ring behind the lock.
    #[verifier::type_invariant]
    closed spec fn logs_its_ring(self) -> bool {
        self.log.ring() == self.inner.pred().id
    }

    /// The ring behind the handle: handles with the same one are ends of one ring.
    /// Its predicate tells what is fixed of it.
    pub closed spec fn ring(&self) -> RwLock<SharedRing<T>, RingPredicate<T>> {
        *self.inner
    }

    /// The messages that were sent through this handle. That of the first handle of a
    /// ring begins with those that the ring held when it was shared.
    pub closed spec fn sent(&self) -> Seq<T> {
        self.log.sent()
    }

    /// The messages that the ring had no room for when they were sent through this
    /// handle.
    pub closed spec fn refused(&self) -> Seq<T> {
        self.log.refused()
    }

    /// How many of the sends through this handle asked for the consumer to be woken.
    pub closed spec fn wakes(&self) -> nat {
        self.log.wakes()
    }

    /// Sends `value`, or gives it back when the ring is full. `Ok(true)` asks
    /// the caller to wake the consumer.
    ///
    /// Which of these happens depends on what the other handles have done;
    /// [`SendLog::send`] states it for every state of the ring.
    pub fn send(&mut self, value: T) -> (r: Result<bool, T>)
        requires
            (old(self).ring().pred().admits)(value),
        ensures
            final(self).ring() == old(self).ring(),
            match r {
                Ok(wake) => {
                    &&& final(self).sent() == old(self).sent().push(value)
                    &&& final(self).refused() == old(self).refused()
                    &&& final(self).wakes() == old(self).wakes() + (if wake {
                        1nat
                    } else {
                        0
                    })
                },
                Err(v) => {
                    &&& v == value
                    &&& final(self).sent() == old(self).sent()
                    &&& final(self).refused() == old(self).refused().push(value)
                    &&& final(self).wakes() == old(self).wakes()
                },
            },
    {
        proof {
            use_type_invariant(&*self);
        }
        let mut log: SendLog<T> = self.log.fork();
        std::mem::swap(&mut log, &mut self.log);
        let (mut ring, lock) = self.inner.acquire_write();
        let r: Result<bool, T> = log.send(&mut ring, value);
        lock.release_write(ring);
        self.log = log;
        r
    }
}

impl<T> Rx<T> {
    /// The log is that of the ring behind the lock.
    pub closed spec fn wf(&self) -> bool {
        self.log.ring() == self.inner.pred().id
    }

    /// The ring behind the handle: handles with the same one are ends of one ring.
    /// Its predicate tells what is fixed of it.
    pub closed spec fn ring(&self) -> RwLock<SharedRing<T>, RingPredicate<T>> {
        *self.inner
    }

    /// The messages that were received through this handle.
    pub closed spec fn received(&self) -> Seq<T> {
        self.log.received()
    }

    /// How many times the ring was asked through this handle for a message that
    /// it did not have.
    pub closed spec fn missed(&self) -> nat {
        self.log.missed()
    }

    /// Takes the oldest message if it is published.
    ///
    /// [`RecvLog::try_recv`] states what is taken for every state of the ring.
    pub fn try_recv(&mut self) -> (r: Option<T>)
        requires
            old(self).wf(),
        ensures
            final(self).wf(),
            final(self).ring() == old(self).ring(),
            match r {
                Some(v) => {
                    &&& (old(self).ring().pred().admits)(v)
                    &&& final(self).received() == old(self).received().push(v)
                    &&& final(self).missed() == old(self).missed()
                },
                None => {
                    &&& final(self).received() == old(self).received()
                    &&& final(self).missed() == old(self).missed() + 1
                },
            },
    {
        let (mut ring, lock) = self.inner.acquire_write();
        let r: Option<T> = self.log.try_recv(&mut ring);
        lock.release_write(ring);
        r
    }

    /// Takes the oldest messages that are published, but no more than `limit`.
    ///
    /// [`RecvLog::take_ready`] states what is taken for every state of the ring.
    pub fn take_ready(&mut self, limit: usize) -> (taken: Vec<T>)
        requires
            old(self).wf(),
        ensures
            final(self).wf(),
            final(self).ring() == old(self).ring(),
            final(self).received() == old(self).received() + taken@,
            taken@.len() <= limit,
            final(self).missed() == old(self).missed() + (if taken@.len() < limit {
                1int
            } else {
                0
            }),
            forall|i: int|
                0 <= i < taken@.len() ==> (old(self).ring().pred().admits)(#[trigger] taken@[i]),
    {
        let (mut ring, lock) = self.inner.acquire_write();
        let ghost pending = ring@.pending;
        let taken: Vec<T> = self.log.take_ready(&mut ring, limit);
        proof {
            lemma_ready_prefix(pending);
            assert forall|i: int| 0 <= i < taken@.len() implies (self.ring().pred().admits)(
                #[trigger] taken@[i],
            ) by {
                assert(pending[i] == Some(taken@[i]));
            }
            assert forall|i: int| 0 <= i < ring@.pending.len() implies ((
            #[trigger] ring@.pending[i]) matches Some(v) ==> (self.ring().pred().admits)(v)) by {
                assert(ring@.pending[i] == pending[i + taken@.len()]);
            }
        }
        lock.release_write(ring);
        taken
    }

    /// Receives a message, polling from `phase` on. `None` tells the caller to
    /// sleep until a send asks for the consumer to be woken, and then to go on
    /// in phase `Polling`.
    ///
    /// Whether a message is there depends on the producers;
    /// [`RecvLog::recv_step`] states each step for every state of the ring.
    pub fn recv(&mut self, phase: RecvPhase) -> (r: Option<T>)
        requires
            old(self).wf(),
        ensures
            final(self).wf(),
            final(self).ring() == old(self).ring(),
            match r {
                Some(v) => {
                    &&& (old(self).ring().pred().admits)(v)
                    &&& final(self).received() == old(self).received().push(v)
                    &&& old(self).missed() <= final(self).missed() < old(self).missed()
                        + steps_left(phase)
                },
                None => {
                    &&& final(self).received() == old(self).received()
                    &&& final(self).missed() == old(self).missed() + steps_left(phase)
                },
            },
    {
        let mut now: RecvPhase = phase;
        loop
            invariant
                self.wf(),
                self.ring() == old(self).ring(),
                self.received() == old(self).received(),
                self.missed() + steps_left(now) == old(self).missed() + steps_left(phase),
                old(self).missed() <= self.missed(),
            decreases steps_left(now),
        {
            let (mut ring, lock) = self.inner.acquire_write();
            let step: RecvStep<T> = self.log.recv_step(&mut ring, now);
            lock.release_write(ring);
            match step {
                RecvStep::Received(v) => {
                    return Some(v);
                },
                RecvStep::Again(next) => {
                    now = next;
                },
                RecvStep::Sleep => {
                    return None;
                },
            }
        }
    }
}

} // verus!
