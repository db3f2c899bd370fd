use std::collections::HashSet;

use shredstream_proxy::mem::AllocError;
use shredstream_proxy::ring::{RecvPhase, RecvStep, RingInner, RECV_SPIN_LIMIT};
use shredstream_proxy::ring_handle::{message_ring, share_any};
use shredstream_proxy::ring_log::SharedRing;

#[test]
fn producers_that_take_turns_lose_nothing() {
    let capacity = 1024;
    let (tx, mut rx) = message_ring::<usize>(capacity).unwrap();
    let num_producers = 4;
    let msgs_per_producer = 1000;
    let mut producers: Vec<_> = (0..num_producers).map(|_| tx.clone()).collect();
    let mut next = vec![0usize; num_producers];
    let total_expected = num_producers * msgs_per_producer;
    let mut received = HashSet::new();
    while received.len() < total_expected {
        let mut stuck = true;
        for p in 0..num_producers {
            if next[p] < msgs_per_producer && producers[p].send(p * 10000 + next[p]).is_ok() {
                next[p] += 1;
                stuck = false;
            }
        }
        if stuck {
            for _ in 0..capacity {
                match rx.recv(RecvPhase::Polling) {
                    Some(value) => assert!(received.insert(value)),
                    None => break,
                }
            }
        }
    }
    assert_eq!(received.len(), total_expected);
    assert_eq!(rx.try_recv(), None);
}

#[test]
fn a_receiver_that_finds_nothing_sleeps_until_a_send() {
    let (mut tx, mut rx) = message_ring::<u64>(16).unwrap();
    assert_eq!(rx.recv(RecvPhase::Spinning(RECV_SPIN_LIMIT)), None);
    // The receiver asked to be woken, so the first send wakes it, the second not.
    assert_eq!(tx.send(42), Ok(true));
    assert_eq!(tx.send(43), Ok(false));
    assert_eq!(rx.recv(RecvPhase::Polling), Some(42));
    assert_eq!(rx.recv(RecvPhase::Polling), Some(43));
}

#[test]
fn capacity_is_rounded_up() {
    for (asked, got) in [(0, 1), (1, 1), (2, 2), (3, 4), (5, 8), (1000, 1024)] {
        let ring = RingInner::<u8>::new(asked).unwrap();
        assert_eq!(ring.capacity(), got);
        assert_eq!(ring.len(), 0);
    }
}

#[test]
fn a_full_ring_gives_the_value_back() {
    let (mut tx, mut rx) = message_ring::<u8>(2).unwrap();
    assert_eq!(tx.send(1), Ok(true));
    assert_eq!(tx.send(2), Ok(false));
    assert_eq!(tx.send(3), Err(3));
    assert_eq!(rx.try_recv(), Some(1));
    assert_eq!(tx.send(4), Ok(false));
    assert_eq!(rx.try_recv(), Some(2));
    assert_eq!(rx.try_recv(), Some(4));
    assert_eq!(rx.try_recv(), None);
}

#[test]
fn an_unpublished_ticket_holds_back_later_messages() {
    let mut ring = RingInner::<u8>::new(4).unwrap();
    let first = ring.reserve().unwrap();
    let second = ring.reserve().unwrap();
    assert_eq!((first, second), (0, 1));
    ring.publish(second, 20);
    assert_eq!(ring.try_recv(), None);
    ring.publish(first, 10);
    assert_eq!(ring.len(), 2);
    assert_eq!(ring.try_recv(), Some(10));
    assert_eq!(ring.try_recv(), Some(20));
    assert_eq!(ring.try_recv(), None);
}

#[test]
fn slots_are_used_again_in_ticket_order() {
    let mut ring = RingInner::<usize>::new(4).unwrap();
    for round in 0..10 {
        for i in 0..3 {
            assert!(ring.send(3 * round + i).is_ok());
        }
        for i in 0..3 {
            assert_eq!(ring.try_recv(), Some(3 * round + i));
        }
    }
    assert_eq!(ring.len(), 0);
}

#[test]
fn a_send_is_a_reservation_a_publication_and_a_signal() {
    let mut whole = RingInner::<u8>::new(2).unwrap();
    let mut steps = RingInner::<u8>::new(2).unwrap();
    assert_eq!(whole.send(7), Ok(true));
    let ticket = steps.reserve().unwrap();
    steps.publish(ticket, 7);
    assert!(steps.signal());
    assert_eq!(whole.len(), steps.len());
    assert_eq!(whole.may_sleep(), steps.may_sleep());
    assert_eq!(whole.try_recv(), steps.try_recv());
}

#[test]
fn a_signal_keeps_the_receiver_awake() {
    let mut ring = RingInner::<u8>::new(2).unwrap();
    ring.request_wake();
    assert!(ring.may_sleep());
    // A message comes between the request and the sleep.
    assert_eq!(ring.send(1), Ok(true));
    assert!(!ring.may_sleep());
}

#[test]
fn a_receiver_spins_then_prepares_then_sleeps() {
    let mut ring = RingInner::<u8>::new(2).unwrap();
    let mut phase = RecvPhase::Spinning(RECV_SPIN_LIMIT);
    let mut polls = 0;
    loop {
        polls += 1;
        match ring.recv_step(phase) {
            RecvStep::Again(next) => phase = next,
            RecvStep::Sleep => break,
            RecvStep::Received(_) => panic!("nothing was sent"),
        }
    }
    assert_eq!(polls, 999 + 2);
    assert!(ring.may_sleep());
    assert!(ring.send(9).is_ok());
    assert!(matches!(
        ring.recv_step(RecvPhase::Polling),
        RecvStep::Received(9)
    ));
}

#[test]
fn a_ring_is_made_if_there_is_room_for_it() {
    // What the room held before does not matter.
    let mut ring = RingInner::in_room(Ok(vec![Some(9u8)]), 3).unwrap();
    assert_eq!((ring.capacity(), ring.len()), (4, 0));
    assert_eq!(ring.try_recv(), None);
    assert_eq!(ring.send(1), Ok(true));
    assert_eq!(RingInner::<u8>::in_room(Err(AllocError), 3).err(), Some(AllocError));

    let (mut tx, mut rx) = share_any(Ok(ring)).unwrap();
    assert_eq!(tx.send(2), Ok(false));
    assert_eq!(rx.try_recv(), Some(1));
    assert_eq!(rx.try_recv(), Some(2));
    assert_eq!(share_any::<u8>(Err(AllocError)).err(), Some(AllocError));
}

#[test]
fn the_ends_of_one_ring_meet_and_those_of_another_do_not() {
    let (mut tx, mut rx) = message_ring::<u8>(2).unwrap();
    let (_other_tx, mut other_rx) = message_ring::<u8>(2).unwrap();
    let mut clone = tx.clone();
    assert!(tx.send(1).is_ok());
    assert!(clone.send(2).is_ok());
    assert_eq!(other_rx.try_recv(), None);
    assert_eq!(rx.take_ready(8), [1, 2]);
    assert!(rx.take_ready(8).is_empty());
    assert!(rx.take_ready(0).is_empty());
}

#[test]
fn a_logged_ring_is_the_ring() {
    let (mut ring, mut first, mut rx) = SharedRing::share(RingInner::<u8>::new(2).unwrap());
    let mut second = first.fork();
    assert_eq!(first.send(&mut ring, 1), Ok(true));
    assert_eq!(second.send(&mut ring, 2), Ok(false));
    assert_eq!(second.send(&mut ring, 3), Err(3));
    assert_eq!(rx.try_recv(&mut ring), Some(1));
    assert_eq!(first.send(&mut ring, 4), Ok(false));
    assert_eq!(rx.take_ready(&mut ring, 5), [2, 4]);
    assert_eq!(rx.try_recv(&mut ring), None);
    assert!(matches!(
        rx.recv_step(&mut ring, RecvPhase::Polling),
        RecvStep::Again(RecvPhase::Rechecking)
    ));
    assert!(matches!(rx.recv_step(&mut ring, RecvPhase::Rechecking), RecvStep::Sleep));
    assert_eq!(second.send(&mut ring, 5), Ok(true));
    assert!(matches!(rx.recv_step(&mut ring, RecvPhase::Polling), RecvStep::Received(5)));
}

#[test]
fn each_producer_is_received_in_its_order() {
    let (mut even, mut rx) = message_ring::<u32>(8).unwrap();
    let mut odd = even.clone();
    let mut received = Vec::new();
    for i in 0..20 {
        even.send(2 * i).unwrap();
        odd.send(2 * i + 1).unwrap();
        if i % 3 == 2 {
            received.extend(rx.take_ready(100));
        }
    }
    received.extend(rx.take_ready(100));
    let (evens, odds): (Vec<u32>, Vec<u32>) = received.iter().partition(|v| **v % 2 == 0);
    assert_eq!(evens, (0..20).map(|i| 2 * i).collect::<Vec<u32>>());
    assert_eq!(odds, (0..20).map(|i| 2 * i + 1).collect::<Vec<u32>>());
}
