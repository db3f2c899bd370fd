use shredstream_proxy::addr::{IpAddress, Ipv4Address, SocketAddress};
use shredstream_proxy::fwd_tile::{check_dest_count, FwdTile, UIO_MAXIOV};
use shredstream_proxy::io_error::IoErrorKind;
use shredstream_proxy::mem::{FrameBuf, FrameDesc, SharedMem};
use shredstream_proxy::packet::TritonPacket;
use shredstream_proxy::prom::PacketCounters;
use shredstream_proxy::recv_mmsg::{
    after_receive, AfterReceive, Backoff, FrameTooSmall, ReceiveStats, ReceivedMsg, RecvFromStep, SockAddrStorage, AF_INET, SOCKADDR_IN_SIZE,
};
use shredstream_proxy::recv_tile::RecvTile;
use shredstream_proxy::region::Region;
use shredstream_proxy::region_log::{ReadLog, RegionBytes};
use shredstream_proxy::routing::FECSetRoutingStrategy;
use shredstream_proxy::triton_forwarder::{
    build_pool, proxy_memory, share_pool, PoolPlan, ProxyMemory,
};

fn plan(num_recv: usize, num_fwd: usize, num_frames: usize) -> PoolPlan {
    PoolPlan {
        num_recv_tiles: num_recv,
        num_fwd_tiles: num_fwd,
        num_frames,
        frame_size: 2048,
        packet_ring_capacity: num_frames * num_recv,
        hugepage: false,
    }
}

fn memory(plan: &PoolPlan) -> ProxyMemory {
    proxy_memory(plan).unwrap()
}

/// The receiver into region `r`; receivers are made in the order of their regions.
fn receiver(r: usize, num_dest: usize, memory: &mut ProxyMemory) -> RecvTile<FECSetRoutingStrategy> {
    let made = memory.regions.len() - memory.burst_logs.len();
    let burst_log = memory.burst_logs.remove(r - made);
    RecvTile::new(r, num_dest, FECSetRoutingStrategy, &memory.regions, burst_log)
}

fn dest(port: u16) -> SocketAddress {
    SocketAddress::new(IpAddress::V4(Ipv4Address::new(127, 0, 0, 1)), port)
}

fn packet_in(mem: &mut SharedMem, frame: usize, payload: &[u8]) -> TritonPacket {
    let desc = FrameDesc { ptr: frame * 2048, frame_size: 2048, shmem_idx: 0 };
    let mut buf = desc.as_mut_buf();
    buf.put_slice(mem, payload);
    let buf: FrameBuf = buf.into();
    let mut packet = TritonPacket::new(buf);
    packet.meta_mut().size = payload.len();
    packet
}

#[test]
fn test_packet_fwd_tile_sends_and_recycles_frame() {
    let frame_size = 2048usize;
    let plan = plan(1, 1, 1);
    let mut pool = build_pool(&plan).unwrap();
    let frame_desc = pool.fill_rings[0].try_recv().expect("frame");
    let mut frame_bufmut = frame_desc.as_mut_buf();
    let payload = b"hello-forwarder";
    frame_bufmut.put_slice(&mut pool.regions[0], payload);
    let frame_buf: FrameBuf = frame_bufmut.into();

    let mut packet = TritonPacket::new(frame_buf);
    packet.meta_mut().size = payload.len();
    let origin = SocketAddress::new(IpAddress::V4(Ipv4Address::new(10, 1, 1, 1)), 12345);
    packet.meta_mut().set_socket_addr(&origin);
    pool.packet_rings[0].send(packet).expect("send packet to fwd tile");

    // The ring is shared as it is, with its one frame on its way.
    let mut memory = share_pool(pool, &plan);
    let mut tile = FwdTile::new();
    let mut counters = PacketCounters::new();
    assert!(tile.drain_one(&mut memory.packet_rx_vec[0], &memory.regions, &mut counters));
    assert!(!tile.drain_one(&mut memory.packet_rx_vec[0], &memory.regions, &mut counters));

    let listener_addr = dest(4000);
    assert!(tile.start_batch(&vec![listener_addr]));
    let sent = tile.copy_batch(&memory.regions);
    assert_eq!(sent, [(payload.to_vec(), listener_addr)]);
    tile.finish_batch(Ok(15), &mut counters);
    assert!(!tile.start_batch(&vec![listener_addr]));

    assert!(tile.recycle(&mut memory.fill_tx_vec, &memory.regions).is_ok());
    let recycled = memory.fill_rx_vec[0].try_recv().expect("recycled frame");
    assert_eq!(recycled.ptr, memory.shmem_info_vec[0].start_ptr);
    assert_eq!(recycled.frame_size, frame_size);
    let stats = tile.stats();
    assert_eq!((stats.send_batch_count, stats.send_batch_size_sum), (1, 1));
    assert_eq!(stats.batch_send_time_spent, 15);
}

#[test]
fn a_payload_is_forwarded_once() {
    let mut mem = SharedMem::new(2048, 4, false).unwrap();
    let mut tile = FwdTile::new();
    let mut counters = PacketCounters::new();
    let first = packet_in(&mut mem, 0, b"payload");
    let again = packet_in(&mut mem, 1, b"payload");
    let other = packet_in(&mut mem, 2, b"another");
    assert!(!tile.accept(first, &mem, &mut counters));
    assert!(tile.accept(again, &mem, &mut counters));
    assert!(!tile.accept(other, &mem, &mut counters));
    assert_eq!(tile.queued_len(), 2);
    assert_eq!(counters.packets_deduped, 1);
    assert_eq!(tile.stats().duplicate, 1);
    // The frame of the duplicate is given back first.
    assert_eq!(tile.next_recycled().unwrap().ptr, 2048);
    assert!(tile.next_recycled().is_none());
}

#[test]
fn only_the_payload_counts_for_a_duplicate() {
    let mut mem = SharedMem::new(2048, 2, false).unwrap();
    let mut tile = FwdTile::new();
    let mut counters = PacketCounters::new();
    let first = packet_in(&mut mem, 0, b"same-start-1");
    let mut second = packet_in(&mut mem, 1, b"same-start-2");
    assert!(!tile.accept(first, &mem, &mut counters));
    second.meta_mut().size = 5;
    assert!(!tile.accept(second, &mem, &mut counters));
    assert_eq!(tile.queued_len(), 2);
}

#[test]
fn what_is_known_to_be_a_duplicate_is_not_queued() {
    let mut mem = SharedMem::new(2048, 2, false).unwrap();
    let mut tile = FwdTile::new();
    let mut counters = PacketCounters::new();
    let a = packet_in(&mut mem, 0, b"a");
    let b = packet_in(&mut mem, 1, b"b");
    tile.take_in(a, true, &mut counters);
    tile.take_in(b, false, &mut counters);
    assert_eq!(tile.queued_len(), 1);
    assert_eq!(tile.next_recycled().unwrap().ptr, 0);
    assert_eq!(counters.packets_deduped, 1);
}

#[test]
fn every_packet_goes_to_every_destination_in_order() {
    let mut mem = SharedMem::new(2048, 4, false).unwrap();
    let mut tile = FwdTile::new();
    let mut counters = PacketCounters::new();
    for (i, payload) in [b"p0", b"p1", b"p2"].iter().enumerate() {
        let packet = packet_in(&mut mem, i, *payload);
        assert!(!tile.accept(packet, &mem, &mut counters));
    }
    let regions = vec![Region::new(mem).0];
    let dests = vec![dest(1), dest(2)];
    assert!(tile.start_batch(&dests));
    let expected: Vec<(Vec<u8>, SocketAddress)> = [b"p0", b"p1", b"p2"]
        .iter()
        .flat_map(|p| dests.iter().map(|d| (p.to_vec(), *d)))
        .collect();
    assert_eq!(tile.copy_batch(&regions), expected);
    assert_eq!(tile.queued_len(), 0);
    // The frames are given back once the batch was sent.
    assert!(tile.next_recycled().is_none());
    tile.finish_batch(Ok(1), &mut counters);
    let mut frames = Vec::new();
    while let Some(frame) = tile.next_recycled() {
        frames.push(frame.ptr / 2048);
    }
    assert_eq!(frames, [2, 1, 0]);
}

#[test]
fn a_batch_holds_no_more_than_the_kernel_takes() {
    let mut mem = SharedMem::new(2048, 8, false).unwrap();
    let mut tile = FwdTile::new();
    let mut counters = PacketCounters::new();
    for i in 0..5 {
        let packet = packet_in(&mut mem, i, &[i as u8]);
        tile.take_in(packet, false, &mut counters);
    }
    let dests: Vec<SocketAddress> = (0..400).map(dest).collect();
    let mut sizes = Vec::new();
    while tile.start_batch(&dests) {
        sizes.push(tile.batch_len());
        tile.finish_batch(Ok(1), &mut counters);
    }
    assert_eq!(sizes, [800, 800, 400]);
    assert_eq!(tile.stats().send_batch_count, 3);
    assert_eq!(tile.stats().send_batch_size_sum, 2000);
}

#[test]
fn with_as_many_destinations_as_fit_packets_go_one_by_one() {
    let mut mem = SharedMem::new(2048, 2, false).unwrap();
    let mut tile = FwdTile::new();
    let mut counters = PacketCounters::new();
    for i in 0..2 {
        let packet = packet_in(&mut mem, i, &[i as u8]);
        tile.take_in(packet, false, &mut counters);
    }
    let dests: Vec<SocketAddress> = (0..UIO_MAXIOV as u16).map(dest).collect();
    assert!(tile.start_batch(&dests));
    assert_eq!((tile.batch_len(), tile.queued_len()), (1024, 1));
}

#[test]
fn without_destinations_packets_are_dropped_and_frames_given_back() {
    let mut mem = SharedMem::new(2048, 2, false).unwrap();
    let mut tile = FwdTile::new();
    let mut counters = PacketCounters::new();
    let packet = packet_in(&mut mem, 1, b"x");
    tile.take_in(packet, false, &mut counters);
    assert!(!tile.start_batch(&vec![]));
    assert_eq!(tile.queued_len(), 0);
    assert_eq!(tile.next_recycled().unwrap().ptr, 2048);
    assert!(tile.is_idle());
}

#[test]
fn a_forwarder_is_idle_once_its_last_batch_is_replaced() {
    let mut mem = SharedMem::new(2048, 2, false).unwrap();
    let mut tile = FwdTile::new();
    let mut counters = PacketCounters::new();
    assert!(tile.is_idle());
    let packet = packet_in(&mut mem, 0, b"x");
    tile.take_in(packet, false, &mut counters);
    assert!(!tile.is_idle());
    assert!(tile.start_batch(&vec![dest(1)]));
    tile.finish_batch(Err(1), &mut counters);
    assert!(tile.next_recycled().is_some());
    assert!(!tile.start_batch(&vec![dest(1)]));
    assert!(!tile.is_idle());
}

#[test]
fn messages_that_failed_are_counted() {
    let mut tile = FwdTile::new();
    let mut counters = PacketCounters::new();
    tile.finish_batch(Err(3), &mut counters);
    assert_eq!(counters.packets_forward_failed, 3);
    assert_eq!(tile.stats().send_batch_count, 0);
}

#[test]
fn a_reset_filter_has_seen_nothing() {
    let mut mem = SharedMem::new(2048, 2, false).unwrap();
    let mut tile = FwdTile::new();
    let mut counters = PacketCounters::new();
    let first = packet_in(&mut mem, 0, b"payload");
    let again = packet_in(&mut mem, 1, b"payload");
    assert!(!tile.accept(first, &mem, &mut counters));
    tile.deduper_mut().maybe_reset(
        &mut rand::thread_rng(),
        0.001,
        std::time::Duration::from_secs(0),
    );
    assert!(!tile.accept(again, &mem, &mut counters));
}

fn msg(data: &[u8]) -> ReceivedMsg {
    let addr = SockAddrStorage {
        ss_family: AF_INET,
        port: [0, 80],
        sin_addr: [10, 0, 0, 1],
        sin6_flowinfo: 0,
        sin6_addr: [0; 16],
        sin6_scope_id: 0,
    };
    ReceivedMsg { data: data.to_vec(), addr, namelen: SOCKADDR_IN_SIZE }
}

fn shred(slot: u64, fec_set_index: u32) -> Vec<u8> {
    let mut bytes = vec![0; 100];
    bytes[65..73].copy_from_slice(&slot.to_le_bytes());
    bytes[79..83].copy_from_slice(&fec_set_index.to_le_bytes());
    bytes
}

#[test]
fn packets_travel_from_receiver_to_destination_and_frames_back() {
    let plan = plan(2, 3, 4);
    let mut memory = memory(&plan);
    let mut counters = PacketCounters::new();
    let mut receiver = receiver(1, 3, &mut memory);
    let b = receiver.refill(&mut memory.fill_rx_vec[1], false, &memory.regions);
    assert_eq!(b, Backoff::Receive);
    assert_eq!(receiver.free_len(), 4);
    assert_eq!(receiver.begin_burst(&memory.regions), Ok(4));
    let step = receiver.complete_burst(
        &memory.regions,
        Ok(vec![msg(&shred(123, 456)), msg(b"short"), msg(&shred(124, 456))]),
    );
    assert_eq!(step, RecvFromStep::Again(3));
    assert_eq!(receiver.begin_burst(&memory.regions), Ok(1));
    let step = receiver.complete_burst(&memory.regions, Err(IoErrorKind::WouldBlock));
    assert_eq!(step, RecvFromStep::Drained(3));
    assert_eq!(after_receive(step), AfterReceive::NextEvent);
    let r = receiver.hand_on(&memory.regions, &mut memory.packet_tx_vec, &mut counters);
    assert_eq!(r, Ok(()));
    assert_eq!(receiver.dest_dist(), &vec![0, 1, 1]);
    assert_eq!(
        receiver.stats(),
        ReceiveStats { packets_count: 3, packet_batches_count: 1, full_packet_batches_count: 0 }
    );
    assert_eq!(counters.packets_received, 3);
    assert_eq!(counters.routing_drop, 1);
    assert_eq!(counters.routing_send.get(&vec!["1".to_string()]), 1);
    assert_eq!(counters.routing_send.get(&vec!["0".to_string()]), 0);
    // One frame was never used, one held a packet that was dropped.
    assert_eq!(receiver.free_len(), 2);

    for f in 0..3 {
        let mut tile = FwdTile::new();
        let rx = &mut memory.packet_rx_vec[f];
        while tile.drain_one(rx, &memory.regions, &mut counters) {}
        assert_eq!(tile.queued_len(), if f == 0 { 0 } else { 1 });
        if tile.start_batch(&vec![dest(9)]) {
            let expected = if f == 1 { shred(123, 456) } else { shred(124, 456) };
            assert_eq!(tile.copy_batch(&memory.regions), [(expected, dest(9))]);
            tile.finish_batch(Ok(1), &mut counters);
        }
        assert!(tile.recycle(&mut memory.fill_tx_vec, &memory.regions).is_ok());
    }
    assert!(memory.fill_rx_vec[1].try_recv().is_some());
    assert!(memory.fill_rx_vec[1].try_recv().is_some());
    assert!(memory.fill_rx_vec[1].try_recv().is_none());
}

#[test]
fn a_receiver_without_free_frames_waits() {
    let plan = plan(1, 1, 1);
    let mut memory = memory(&plan);
    let mut receiver = receiver(0, 1, &mut memory);
    let frame = memory.fill_rx_vec[0].try_recv().unwrap();
    let rx = &mut memory.fill_rx_vec[0];
    assert_eq!(receiver.refill(rx, false, &memory.regions), Backoff::Spin);
    assert_eq!(receiver.refill(rx, true, &memory.regions), Backoff::Recheck);
    assert_eq!(receiver.begin_burst(&memory.regions), Ok(0));
    assert_eq!(
        receiver.complete_burst(&memory.regions, Ok(vec![])),
        RecvFromStep::Done(0)
    );
    memory.fill_tx_vec[0].send(frame).unwrap();
    assert_eq!(receiver.refill(rx, false, &memory.regions), Backoff::Receive);
    assert_eq!(receiver.free_len(), 1);
}

#[test]
fn too_many_destinations_are_refused() {
    assert_eq!(check_dest_count(1024), Ok(()));
    assert_eq!(
        check_dest_count(1025),
        Err("number of destinations (1025) cannot be greater than UIO_MAXIOV (1024)".to_string())
    );
}

#[test]
fn no_frame_is_lost_and_no_ring_overflows() {
    let plan = plan(2, 2, 4);
    let mut memory = memory(&plan);
    let mut counters = PacketCounters::new();
    let mut receivers: Vec<_> = (0..2)
        .map(|r| receiver(r, 2, &mut memory))
        .collect();
    let mut forwarders = [FwdTile::new(), FwdTile::new()];
    let mut next_slot = 0;
    let mut sent = 0;
    for round in 0..300usize {
        let receiver = &mut receivers[round % 2];
        receiver.refill(&mut memory.fill_rx_vec[round % 2], false, &memory.regions);
        let count = receiver.begin_burst(&memory.regions).unwrap();
        let msgs = (0..count.min(round % 5))
            .map(|i| {
                next_slot += 1;
                // Some packets cannot be routed, some come twice.
                match (round + i) % 7 {
                    0 => msg(b"short"),
                    1 => msg(&shred(1, 1)),
                    _ => msg(&shred(next_slot, 32)),
                }
            })
            .collect();
        receiver.complete_burst(&memory.regions, Ok(msgs));
        let r = receiver.hand_on(&memory.regions, &mut memory.packet_tx_vec, &mut counters);
        assert_eq!(r, Ok(()));
        // A forwarder works only now and then.
        if round % 3 == 0 {
            let f = (round / 3) % 2;
            let tile = &mut forwarders[f];
            while tile.drain_one(&mut memory.packet_rx_vec[f], &memory.regions, &mut counters) {}
            while tile.start_batch(&vec![dest(1), dest(2)]) {
                sent += tile.copy_batch(&memory.regions).len();
                tile.finish_batch(Ok(1), &mut counters);
            }
            assert!(tile.recycle(&mut memory.fill_tx_vec, &memory.regions).is_ok());
        }
    }
    for (f, tile) in forwarders.iter_mut().enumerate() {
        while tile.drain_one(&mut memory.packet_rx_vec[f], &memory.regions, &mut counters) {}
        while tile.start_batch(&vec![dest(1), dest(2)]) {
            sent += tile.copy_batch(&memory.regions).len();
            tile.finish_batch(Err(1), &mut counters);
        }
        assert!(tile.recycle(&mut memory.fill_tx_vec, &memory.regions).is_ok());
    }
    // Every frame is back, each in the ring of its own region or with its receiver.
    for r in 0..2 {
        let mut frames = receivers[r].free_len();
        while let Some(frame) = memory.fill_rx_vec[r].try_recv() {
            assert_eq!(frame.shmem_idx, r);
            frames += 1;
        }
        assert_eq!(frames, 4);
    }
    // Every received packet was dropped, found to be a duplicate, or sent twice.
    let received = counters.packets_received as usize;
    let dropped = (counters.routing_drop + counters.packets_deduped) as usize;
    assert!(received > 100);
    assert_eq!(sent, 2 * (received - dropped));
}

#[test]
fn what_came_is_taken_in() {
    let mut mem = SharedMem::new(2048, 2, false).unwrap();
    let packet = packet_in(&mut mem, 0, b"x");
    let again = packet_in(&mut mem, 1, b"x");
    let regions = vec![Region::new(mem).0];
    let mut tile = FwdTile::new();
    let mut counters = PacketCounters::new();
    assert!(!tile.accept_next(None, &regions, &mut counters));
    assert!(tile.is_idle());
    assert!(tile.accept_next(Some(packet), &regions, &mut counters));
    assert_eq!(tile.queued_len(), 1);
    assert!(tile.accept_next(Some(again), &regions, &mut counters));
    assert_eq!((tile.queued_len(), counters.packets_deduped), (1, 1));
}

#[test]
fn a_message_is_copied_from_the_bytes_it_is_given() {
    let mut mem = SharedMem::new(2048, 2, false).unwrap();
    let mut tile = FwdTile::new();
    let mut counters = PacketCounters::new();
    let packet = packet_in(&mut mem, 1, b"payload");
    tile.take_in(packet, false, &mut counters);
    assert!(tile.start_batch(&vec![dest(1), dest(2)]));
    assert_eq!(tile.copy_message(0, &mem), (b"payload".to_vec(), dest(1)));
    mem.write(2048, b"changed");
    assert_eq!(tile.copy_message(1, &mem), (b"changed".to_vec(), dest(2)));
}

#[test]
fn frames_stay_aside_while_their_batch_is_sent() {
    let plan = plan(2, 1, 2);
    let mut memory = memory(&plan);
    let mut counters = PacketCounters::new();
    let mut tile = FwdTile::new();
    let bursts = [
        (0, vec![msg(&shred(1, 0))]),
        (1, vec![msg(&shred(2, 0)), msg(&shred(3, 0))]),
    ];
    for (r, msgs) in bursts {
        let mut receiver = receiver(r, 1, &mut memory);
        receiver.refill(&mut memory.fill_rx_vec[r], false, &memory.regions);
        receiver.begin_burst(&memory.regions).unwrap();
        receiver.complete_burst(&memory.regions, Ok(msgs));
        receiver.hand_on(&memory.regions, &mut memory.packet_tx_vec, &mut counters).unwrap();
    }
    while tile.drain_one(&mut memory.packet_rx_vec[0], &memory.regions, &mut counters) {}
    assert_eq!(tile.queued_len(), 3);
    assert!(tile.start_batch(&vec![dest(1)]));
    tile.recycle(&mut memory.fill_tx_vec, &memory.regions).unwrap();
    assert!(memory.fill_rx_vec[0].try_recv().is_none());
    assert!(memory.fill_rx_vec[1].try_recv().is_none());
    tile.finish_batch(Ok(3), &mut counters);
    tile.recycle(&mut memory.fill_tx_vec, &memory.regions).unwrap();
    // Each frame is in the ring of its own region.
    assert_eq!(memory.fill_rx_vec[0].try_recv().unwrap().shmem_idx, 0);
    assert!(memory.fill_rx_vec[0].try_recv().is_none());
    assert_eq!(memory.fill_rx_vec[1].try_recv().unwrap().shmem_idx, 1);
    assert_eq!(memory.fill_rx_vec[1].try_recv().unwrap().shmem_idx, 1);
    assert!(memory.fill_rx_vec[1].try_recv().is_none());
}

#[test]
fn a_receiver_with_small_frames_cannot_receive() {
    let small = PoolPlan { frame_size: 1024, ..plan(1, 1, 2) };
    let mut memory = memory(&small);
    let mut receiver = receiver(0, 1, &mut memory);
    let b = receiver.refill(&mut memory.fill_rx_vec[0], false, &memory.regions);
    assert_eq!((b, receiver.free_len()), (Backoff::Receive, 2));
    assert_eq!(receiver.begin_burst(&memory.regions), Err(FrameTooSmall));
    assert_eq!(receiver.free_len(), 2);
}

#[test]
fn a_full_queue_ends_handing_on_behind_what_was_sent() {
    let plan = plan(1, 1, 4);
    let mut memory = memory(&plan);
    let mut counters = PacketCounters::new();
    let mut receiver = receiver(0, 1, &mut memory);
    // Packets that nobody takes fill the queue.
    let mut other = SharedMem::new(2048, 4, false).unwrap();
    for i in 0..2 {
        let packet = packet_in(&mut other, i, b"x");
        memory.packet_tx_vec[0].send(packet).unwrap();
    }
    receiver.refill(&mut memory.fill_rx_vec[0], false, &memory.regions);
    receiver.begin_burst(&memory.regions).unwrap();
    let msgs = vec![msg(&shred(1, 0)), msg(&shred(2, 0)), msg(&shred(3, 0))];
    receiver.complete_burst(&memory.regions, Ok(msgs));
    let r = receiver.hand_on(&memory.regions, &mut memory.packet_tx_vec, &mut counters);
    assert_eq!(r, Err(0));
    assert_eq!(counters.routing_send.get(&vec!["0".to_string()]), 2);
    let mut waiting = 0;
    while memory.packet_rx_vec[0].try_recv().is_some() {
        waiting += 1;
    }
    assert_eq!(waiting, 4);
}

#[test]
fn messages_are_copied_from_the_bytes_of_their_regions() {
    let mut first = SharedMem::new(2048, 1, false).unwrap();
    let mut second = SharedMem::new(2048, 1, false).unwrap();
    let mut tile = FwdTile::new();
    let mut counters = PacketCounters::new();
    let a = packet_in(&mut first, 0, b"first");
    tile.take_in(a, false, &mut counters);
    let desc = FrameDesc { ptr: 0, frame_size: 2048, shmem_idx: 1 };
    let mut buf = desc.as_mut_buf();
    buf.put_slice(&mut second, b"second");
    let mut b = TritonPacket::new(buf.into());
    b.meta_mut().size = 6;
    tile.take_in(b, false, &mut counters);
    assert!(tile.start_batch(&vec![dest(1)]));
    let expected = [(b"first".to_vec(), dest(1)), (b"second".to_vec(), dest(1))];
    assert_eq!(tile.copy_messages(&vec![&first, &second]), expected);
    let regions = vec![Region::new(first).0, Region::new(second).0];
    assert_eq!(tile.copy_batch(&regions), expected);
}

#[test]
fn what_is_received_into_a_region_can_be_looked_at() {
    let (mut bytes, mut log) = RegionBytes::share(SharedMem::new(2048, 2, false).unwrap());
    let frame = FrameDesc { ptr: 2048, frame_size: 2048, shmem_idx: 0 };
    let mut bufs = vec![];
    let mut packets = vec![];
    let r = log.complete(
        &mut bytes,
        vec![frame.as_mut_buf()],
        Ok(vec![msg(b"payload")]),
        &mut bufs,
        &mut packets,
    );
    assert_eq!(r, Ok(1));
    let mut reads = ReadLog::new();
    assert_eq!(packets[0].buffer.chunk(reads.look(&bytes)), b"payload");
}
