use shredstream_proxy::addr::{
    Ipv4Address, Ipv6Address, SocketAddress, SocketAddressV4, SocketAddressV6,
};
use shredstream_proxy::io_error::IoErrorKind;
use shredstream_proxy::mem::{FrameBufMut, FrameDesc, SharedMem};
use shredstream_proxy::packet::{Meta, TritonPacket, PACKET_DATA_SIZE};
use shredstream_proxy::prom::PacketCounters;
use shredstream_proxy::recv_mmsg::{
    add_frames, after_receive, backoff_after_refill, begin_burst, cast_socket_addr, complete_burst,
    drain_step, poll_error_is_fatal, recv_from_step, refill_limit, route_batch, AfterReceive,
    Backoff, DrainStep, FrameTooSmall, ReceiveStats, ReceivedMsg, RecvFromStep, SockAddrStorage,
    AF_INET, AF_INET6, PACKETS_PER_BATCH, RECV_BURST_TARGET, SOCKADDR_IN6_SIZE, SOCKADDR_IN_SIZE,
    WAKE_TOKEN,
};
use shredstream_proxy::ring::RingInner;
use shredstream_proxy::routing::FECSetRoutingStrategy;

fn zeroed_storage() -> SockAddrStorage {
    SockAddrStorage {
        ss_family: 0,
        port: [0; 2],
        sin_addr: [0; 4],
        sin6_flowinfo: 0,
        sin6_addr: [0; 16],
        sin6_scope_id: 0,
    }
}

#[test]
fn test_cast_socket_addr_ipv4() {
    let port = 12345u16;
    let mut storage = zeroed_storage();
    storage.ss_family = AF_INET;
    storage.port = port.to_be_bytes();
    storage.sin_addr = [1, 2, 3, 4];
    let out = cast_socket_addr(&storage, SOCKADDR_IN_SIZE);
    let ip = Ipv4Address::new(1, 2, 3, 4);
    assert_eq!(out, Some(SocketAddress::V4(SocketAddressV4 { ip, port })));
}

#[test]
fn test_cast_socket_addr_ipv6() {
    let port = 54321u16;
    let flowinfo = 7u32;
    let scope_id = 9u32;
    let mut storage = zeroed_storage();
    storage.ss_family = AF_INET6;
    storage.port = port.to_be_bytes();
    storage.sin6_flowinfo = flowinfo;
    storage.sin6_addr[15] = 1;
    storage.sin6_scope_id = scope_id;
    let out = cast_socket_addr(&storage, SOCKADDR_IN6_SIZE);
    let ip = Ipv6Address { bits: 1 };
    assert_eq!(
        out,
        Some(SocketAddress::V6(SocketAddressV6 { ip, port, flowinfo, scope_id }))
    );
}

#[test]
fn test_cast_socket_addr_invalid_returns_none() {
    let storage = zeroed_storage();
    assert_eq!(cast_socket_addr(&storage, 0), None);
}

#[test]
fn a_family_with_the_wrong_length_is_no_address() {
    let mut storage = zeroed_storage();
    storage.ss_family = AF_INET;
    assert_eq!(cast_socket_addr(&storage, SOCKADDR_IN6_SIZE), None);
    storage.ss_family = AF_INET6;
    assert_eq!(cast_socket_addr(&storage, SOCKADDR_IN_SIZE), None);
}

#[test]
fn constants_are_those_of_the_system_and_the_network() {
    assert_eq!(AF_INET as i32, libc::AF_INET);
    assert_eq!(AF_INET6 as i32, libc::AF_INET6);
    assert_eq!(SOCKADDR_IN_SIZE as usize, std::mem::size_of::<libc::sockaddr_in>());
    assert_eq!(SOCKADDR_IN6_SIZE as usize, std::mem::size_of::<libc::sockaddr_in6>());
    assert_eq!(PACKETS_PER_BATCH, solana_perf::packet::PACKETS_PER_BATCH);
    assert_eq!(PACKET_DATA_SIZE, solana_perf::packet::PACKET_DATA_SIZE);
}

fn frames(n: usize) -> Vec<FrameBufMut> {
    (0..n)
        .map(|i| FrameDesc { ptr: i * 2048, frame_size: 2048, shmem_idx: 0 }.as_mut_buf())
        .collect()
}

fn ptrs(bufs: &[FrameBufMut]) -> Vec<usize> {
    bufs.iter().map(|b| b.as_mut_ptr() / 2048).collect()
}

fn msg(data: &[u8]) -> ReceivedMsg {
    let mut addr = zeroed_storage();
    addr.ss_family = AF_INET;
    addr.port = 9000u16.to_be_bytes();
    addr.sin_addr = [10, 1, 1, 1];
    ReceivedMsg { data: data.to_vec(), addr, namelen: SOCKADDR_IN_SIZE }
}

#[test]
fn test_triton_recv_mmsg_with_udp_socket() {
    let payload = b"hello-recv-mmsg";
    let mut shmem = SharedMem::new(PACKET_DATA_SIZE, 1, false).unwrap();
    let mut fill_buffers = vec![FrameDesc {
        ptr: shmem.start(),
        frame_size: PACKET_DATA_SIZE,
        shmem_idx: 0,
    }
    .as_mut_buf()];
    let mut packets = Vec::<TritonPacket>::new();
    let inflight = begin_burst(&mut fill_buffers, 0, PACKETS_PER_BATCH).unwrap();
    let recv_count = complete_burst(
        &mut shmem,
        inflight,
        Ok(vec![msg(payload)]),
        &mut fill_buffers,
        &mut packets,
    )
    .unwrap();
    assert_eq!(recv_count, 1);
    assert_eq!(packets.len(), 1);
    let pkt = &packets[0];
    assert_eq!(pkt.meta.size, payload.len());
    assert_eq!(&pkt.buffer.chunk(&shmem)[..payload.len()], payload);
}

#[test]
fn test_triton_recv_mmsg_returns_unused_buffers() {
    let payload = b"one-packet-only";
    let mut shmem = SharedMem::new(PACKET_DATA_SIZE, 2, false).unwrap();
    let mut fill_buffers = vec![
        FrameDesc { ptr: shmem.start(), frame_size: PACKET_DATA_SIZE, shmem_idx: 0 }.as_mut_buf(),
        FrameDesc {
            ptr: shmem.start() + PACKET_DATA_SIZE,
            frame_size: PACKET_DATA_SIZE,
            shmem_idx: 0,
        }
        .as_mut_buf(),
    ];
    let mut packets = Vec::<TritonPacket>::new();
    let inflight = begin_burst(&mut fill_buffers, 0, PACKETS_PER_BATCH).unwrap();
    let recv_count = complete_burst(
        &mut shmem,
        inflight,
        Ok(vec![msg(payload)]),
        &mut fill_buffers,
        &mut packets,
    )
    .unwrap();
    assert_eq!(recv_count, 1);
    assert_eq!(packets.len(), 1);
    // One buffer used by the received packet, one should be returned.
    assert_eq!(fill_buffers.len(), 1);
}

#[test]
fn a_burst_takes_from_the_end_and_no_more_than_fit() {
    let mut bufs = frames(40);
    let inflight = begin_burst(&mut bufs, 0, PACKETS_PER_BATCH).unwrap();
    assert_eq!(inflight.len(), RECV_BURST_TARGET);
    assert_eq!(ptrs(&inflight)[..3], [39, 38, 37]);
    assert_eq!(bufs.len(), 8);
    let inflight = begin_burst(&mut bufs, 61, PACKETS_PER_BATCH).unwrap();
    assert_eq!(ptrs(&inflight), [7, 6, 5]);
    let inflight = begin_burst(&mut bufs, 64, PACKETS_PER_BATCH).unwrap();
    assert!(inflight.is_empty());
    let inflight = begin_burst(&mut bufs, 0, PACKETS_PER_BATCH).unwrap();
    assert_eq!(ptrs(&inflight), [4, 3, 2, 1, 0]);
    assert!(bufs.is_empty());
    assert!(begin_burst(&mut bufs, 0, PACKETS_PER_BATCH).unwrap().is_empty());
}

#[test]
fn each_message_becomes_a_packet_in_its_own_frame() {
    let mut shmem = SharedMem::new(2048, 4, false).unwrap();
    let mut bufs = frames(4);
    let mut packets = Vec::new();
    let inflight = begin_burst(&mut bufs, 0, PACKETS_PER_BATCH).unwrap();
    let mut unknown = msg(b"second");
    unknown.namelen = 3;
    let outcome = Ok(vec![msg(b"first"), unknown]);
    let n = complete_burst(&mut shmem, inflight, outcome, &mut bufs, &mut packets);
    assert_eq!(n, Ok(2));
    assert_eq!(ptrs(&bufs), [1, 0]);
    assert_eq!(packets[0].as_ref(&shmem), b"first");
    assert_eq!(packets[1].as_ref(&shmem), b"second");
    assert_eq!(packets[0].buffer.detach_desc().ptr, 3 * 2048);
    assert_eq!(packets[1].buffer.detach_desc().ptr, 2 * 2048);
    let ip = Ipv4Address::new(10, 1, 1, 1);
    assert_eq!(
        packets[0].meta,
        Meta { size: 5, port: 9000, addr: shredstream_proxy::addr::IpAddress::V4(ip), ..Meta::default() }
    );
    assert_eq!(packets[1].meta, Meta { size: 6, ..Meta::default() });
}

#[test]
fn an_error_returns_all_frames() {
    let mut shmem = SharedMem::new(2048, 4, false).unwrap();
    let mut bufs = frames(4);
    let mut packets = Vec::new();
    let inflight = begin_burst(&mut bufs, 62, PACKETS_PER_BATCH).unwrap();
    let outcome = Err(IoErrorKind::WouldBlock);
    let r = complete_burst(&mut shmem, inflight, outcome, &mut bufs, &mut packets);
    assert_eq!(r, Err(IoErrorKind::WouldBlock));
    assert_eq!(ptrs(&bufs), [0, 1, 3, 2]);
    assert!(packets.is_empty());
}

#[test]
fn draining_a_socket_ends_for_these_reasons() {
    let full = PACKETS_PER_BATCH;
    assert_eq!(recv_from_step(5, Ok(10), 7, 15, full), RecvFromStep::Again(15));
    // No frame is left.
    assert_eq!(recv_from_step(5, Ok(10), 0, 15, full), RecvFromStep::Done(15));
    // The batch is full.
    assert_eq!(recv_from_step(32, Ok(32), 7, 64, full), RecvFromStep::Done(64));
    assert_eq!(recv_from_step(0, Ok(3), 7, 64, full), RecvFromStep::Done(3));
    // The socket would block; earlier packets are kept.
    let blocked = Err(IoErrorKind::WouldBlock);
    assert_eq!(recv_from_step(5, blocked, 7, 5, full), RecvFromStep::Drained(5));
    let other = Err(IoErrorKind::Other);
    assert_eq!(
        recv_from_step(5, other, 7, 5, full),
        RecvFromStep::Fail(IoErrorKind::Other)
    );
}

#[test]
fn a_frame_without_room_stops_a_burst() {
    let frame = |size| FrameDesc { ptr: 0, frame_size: size, shmem_idx: 0 };
    let mut bufs = vec![frame(1024).as_mut_buf(), frame(2048).as_mut_buf()];
    let r = begin_burst(&mut bufs, 0, PACKETS_PER_BATCH);
    assert_eq!(r.err(), Some(FrameTooSmall));
    assert_eq!(FrameTooSmall.message(), "fill buffer too small");
    assert_eq!(bufs.len(), 2);
    // A frame that is not taken does not matter.
    assert_eq!(begin_burst(&mut bufs, 63, PACKETS_PER_BATCH).unwrap().len(), 1);
    // What was written into a frame counts.
    let mut mem = SharedMem::new(2048, 1, false).unwrap();
    let mut buf = frame(2048).as_mut_buf();
    buf.put_slice(&mut mem, &[0; 817]);
    assert_eq!(buf.room(), 1231);
    assert!(begin_burst(&mut vec![buf], 0, PACKETS_PER_BATCH).is_err());
    let mut full = frame(2048).as_mut_buf();
    full.put_slice(&mut mem, &[0; 2048]);
    assert_eq!((full.room(), full.remaining_mut()), (0, 2048));
}

#[test]
fn a_refill_stops_at_a_batch() {
    let mut ring = RingInner::new(128).unwrap();
    for i in 0..100 {
        ring.send(FrameDesc { ptr: i * 2048, frame_size: 2048, shmem_idx: 0 }).unwrap();
    }
    let mut bufs = Vec::new();
    let frames = ring.take_ready(refill_limit(bufs.len()));
    add_frames(&mut bufs, &frames);
    assert_eq!(ptrs(&bufs), (0..64).collect::<Vec<_>>());
    assert_eq!(ring.len(), 36);
    assert_eq!(refill_limit(bufs.len()), 0);
    bufs.truncate(10);
    assert_eq!(refill_limit(bufs.len()), 54);
    let frames = ring.take_ready(refill_limit(bufs.len()));
    add_frames(&mut bufs, &frames);
    assert_eq!(bufs.len(), 46);
    assert_eq!(bufs[45].as_mut_ptr(), 99 * 2048);
    assert!(ring.take_ready(refill_limit(bufs.len())).is_empty());
    assert_eq!(refill_limit(100), 0);
}

#[test]
fn a_receiver_without_frames_spins_and_then_yields() {
    let mut count = 0;
    for _ in 0..128 {
        assert_eq!(backoff_after_refill(&mut count, 0, 0, false), Backoff::Spin);
    }
    assert_eq!(backoff_after_refill(&mut count, 0, 0, false), Backoff::Yield);
    assert_eq!(count, 129);
    assert_eq!(backoff_after_refill(&mut count, 0, 0, true), Backoff::Recheck);
    assert_eq!(count, 129);
    assert_eq!(backoff_after_refill(&mut count, 0, 3, false), Backoff::Receive);
    assert_eq!(count, 129);
    assert_eq!(backoff_after_refill(&mut count, 2, 5, false), Backoff::Receive);
    assert_eq!(count, 0);
    count = u32::MAX;
    assert_eq!(backoff_after_refill(&mut count, 0, 0, false), Backoff::Yield);
    assert_eq!(count, u32::MAX);
}

#[test]
fn batches_are_counted() {
    let mut stats = ReceiveStats::new();
    let mut counters = PacketCounters::new();
    stats.record_batch(&mut counters, 0);
    stats.record_batch(&mut counters, 10);
    stats.record_batch(&mut counters, 64);
    assert_eq!(
        stats,
        ReceiveStats { packets_count: 74, packet_batches_count: 2, full_packet_batches_count: 1 }
    );
    assert_eq!(counters.packets_received, 74);
}

fn shred(slot: u64, fec_set_index: u32) -> Vec<u8> {
    let mut bytes = vec![0; 100];
    bytes[65..73].copy_from_slice(&slot.to_le_bytes());
    bytes[79..83].copy_from_slice(&fec_set_index.to_le_bytes());
    bytes
}

#[test]
fn a_batch_is_routed_in_order_and_the_rest_is_freed() {
    let mut shmem = SharedMem::new(2048, 4, false).unwrap();
    let mut bufs = frames(4);
    let mut packets = Vec::new();
    let inflight = begin_burst(&mut bufs, 0, PACKETS_PER_BATCH).unwrap();
    let outcome = Ok(vec![
        msg(&shred(123, 456)),
        msg(b"too short to be routed"),
        msg(&shred(124, 456)),
    ]);
    complete_burst(&mut shmem, inflight, outcome, &mut bufs, &mut packets).unwrap();
    packets[0].meta_mut().set_from_staked_node(true);
    let mut dist = vec![0usize; 3];
    let mut counters = PacketCounters::new();
    let plan = route_batch(
        &mut packets,
        &shmem,
        &FECSetRoutingStrategy,
        &mut dist,
        &mut bufs,
        &mut counters,
    );
    assert!(packets.is_empty());
    let dests: Vec<usize> = plan.iter().map(|m| m.0).collect();
    assert_eq!(dests, [1, 2]);
    assert!(plan.iter().all(|m| !m.1.meta.from_staked_node));
    assert_eq!(dist, [0, 1, 1]);
    assert_eq!(ptrs(&bufs), [0, 2]);
    assert_eq!(counters.routing_drop, 1);
}

#[test]
fn a_socket_is_left_when_a_read_would_block() {
    for received in [0, 5, 63] {
        let blocked = Err(IoErrorKind::WouldBlock);
        let step = recv_from_step(received, blocked, 7, received, PACKETS_PER_BATCH);
        assert_eq!(step, RecvFromStep::Drained(received));
        assert_eq!(after_receive(step), AfterReceive::NextEvent);
        let step = recv_from_step(received, Ok(1), 7, received + 1, PACKETS_PER_BATCH);
        assert_eq!(after_receive(step), AfterReceive::SameEvent);
    }
}

#[test]
fn the_receive_loop_decides_so() {
    assert_eq!(drain_step(true, 3), DrainStep::Leave);
    assert_eq!(drain_step(true, WAKE_TOKEN), DrainStep::Leave);
    assert_eq!(drain_step(false, WAKE_TOKEN), DrainStep::NextEvent);
    assert_eq!(drain_step(false, 3), DrainStep::Service(3));
    assert_eq!(after_receive(RecvFromStep::Again(3)), AfterReceive::SameEvent);
    assert_eq!(after_receive(RecvFromStep::Done(64)), AfterReceive::SameEvent);
    assert_eq!(after_receive(RecvFromStep::Drained(0)), AfterReceive::NextEvent);
    assert_eq!(after_receive(RecvFromStep::Drained(12)), AfterReceive::NextEvent);
    assert_eq!(
        after_receive(RecvFromStep::Fail(IoErrorKind::Other)),
        AfterReceive::Fail(IoErrorKind::Other)
    );
    assert!(!poll_error_is_fatal(IoErrorKind::TimedOut));
    assert!(poll_error_is_fatal(IoErrorKind::Other));
}
