use shredstream_proxy::mem::{AllocError, FrameDesc, SharedMem};
use shredstream_proxy::ring::RingInner;
use shredstream_proxy::sizing::{PktRecvMemSizing, PktRecvTileMemConfig};
use shredstream_proxy::triton_forwarder::{
    add_packet_ring, add_region, build_pool, check_socket_counts, choose_send_socket,
    fill_with_frames, frame_ring, plan_pool, share_new_pool, share_pool, tile_sockets, Pool,
    PoolPlan, SendSocket, SetupError, SharedMemInfo, SocketCountError, SocketSource,
    TileKind, EAFNOSUPPORT, IP_MULTICAST_TTL,
};

fn config(frame_size: usize) -> PktRecvTileMemConfig {
    PktRecvTileMemConfig { frame_size, ..PktRecvTileMemConfig::default() }
}

#[test]
fn the_default_memory_is_cut_into_frames() {
    assert_eq!(
        plan_pool(&PktRecvTileMemConfig::default(), 2, 3),
        Ok(PoolPlan {
            num_recv_tiles: 2,
            num_fwd_tiles: 3,
            num_frames: 65536,
            frame_size: 2048,
            packet_ring_capacity: 131072,
            hugepage: false,
        })
    );
    let large = PktRecvTileMemConfig {
        memory_size: PktRecvMemSizing::XXXXXLarge,
        frame_size: 4096,
        hugepage: true,
    };
    let plan = plan_pool(&large, 1, 1).unwrap();
    assert_eq!((plan.num_frames, plan.hugepage), (8388608, true));
    // Whether a packet fits into a frame shows when one is received into it.
    assert_eq!(plan_pool(&config(1024), 1, 1).unwrap().num_frames, 131072);
    assert_eq!(plan_pool(&config(1), 1, 1).unwrap().num_frames, 1 << 27);
}

#[test]
fn what_cannot_be_set_up_is_refused() {
    let cases = [
        (config(2048), 0, 1, SetupError::NoRecvTiles, "num_pkt_recv_tiles must be > 0"),
        (config(2048), 1, 0, SetupError::NoFwdTiles, "num_pkt_fwd_tiles must be > 0"),
        (config(0), 1, 1, SetupError::FrameSizeNotPowerOfTwo, "frame_size must be a power of 2"),
        (config(3000), 1, 1, SetupError::NumFramesNotPowerOfTwo, "num_frames must be a power of 2"),
        (config(1 << 28), 1, 1, SetupError::NumFramesNotPowerOfTwo, "num_frames must be a power of 2"),
        (config((1 << 27) - 1), 1, 1, SetupError::FrameSizeNotPowerOfTwo, "frame_size must be a power of 2"),
        (config(2048), 1 << 50, 1, SetupError::TooManyFrames, "too many frames"),
        (config(2048), usize::MAX, 1, SetupError::TooManyFrames, "too many frames"),
    ];
    for (config, num_recv, num_fwd, error, message) in cases {
        assert_eq!(plan_pool(&config, num_recv, num_fwd), Err(error));
        assert_eq!(error.message(), message);
    }
    assert_eq!(SetupError::MemoryTooLarge.message(), "memory size too large");
}

#[test]
fn at_first_every_frame_is_free_in_the_order_of_addresses() {
    let mut ring = frame_ring(4, 2048, 7).unwrap();
    assert_eq!((ring.capacity(), ring.len()), (4, 4));
    for i in 0..4 {
        let frame = FrameDesc { ptr: i * 2048, frame_size: 2048, shmem_idx: 7 };
        assert_eq!(ring.try_recv(), Some(frame));
    }
    assert_eq!(ring.try_recv(), None);
}

#[test]
fn the_memory_is_built_as_planned() {
    let plan = PoolPlan {
        num_recv_tiles: 3,
        num_fwd_tiles: 2,
        num_frames: 2,
        frame_size: 2048,
        packet_ring_capacity: 6,
        hugepage: true,
    };
    let pool = build_pool(&plan).unwrap();
    assert_eq!(pool.regions.len(), 3);
    assert!(pool.regions.iter().all(|r| r.len() == 4096 && r.wants_huge_pages()));
    assert!(pool.fill_rings.iter().all(|r| r.len() == 2 && r.capacity() == 2));
    assert_eq!(pool.packet_rings.len(), 2);
    assert!(pool.packet_rings.iter().all(|r| r.len() == 0 && r.capacity() == 8));
    let mut memory = share_pool(pool, &plan);
    assert_eq!(memory.regions.len(), 3);
    assert_eq!(memory.shmem_info_vec, [SharedMemInfo { start_ptr: 0, len: 4096 }; 3]);
    for idx in 0..3 {
        let frame = memory.fill_rx_vec[idx].try_recv().unwrap();
        assert_eq!((frame.ptr, frame.shmem_idx), (0, idx));
    }
    assert!(memory.packet_rx_vec[1].try_recv().is_none());
    assert_ne!(TileKind::PktRecv, TileKind::PktFwd);
}

#[test]
fn receivers_get_their_sockets() {
    assert_eq!(check_socket_counts(2, 1, 2, Some(2)), Ok(()));
    assert_eq!(check_socket_counts(2, 2, 2, None), Ok(()));
    let e = check_socket_counts(2, 3, 2, None).unwrap_err();
    assert_eq!(e, SocketCountError::TooManyDoublezero(3, 2));
    assert_eq!(e.message(), "doublezero_v4_sk_vec.len() (3) > num_pkt_recv_tiles (2)");
    let e = check_socket_counts(12, 0, 10, None).unwrap_err();
    assert_eq!(e, SocketCountError::WrongListenCount(10, 12));
    assert_eq!(e.message(), "pkt_recv_sk_vec.len() (10) != num_pkt_recv_tiles (12)");
    let e = check_socket_counts(2, 0, 2, Some(1)).unwrap_err();
    assert_eq!(e, SocketCountError::WrongMulticastCount(1, 2));
    assert_eq!(e.message(), "multicast_sk_vec.len() (1) != num_pkt_recv_tiles (2)");
    assert_eq!(tile_sockets(1, false, 1), [SocketSource::Listening(1)]);
    assert_eq!(
        tile_sockets(0, true, 1),
        [
            SocketSource::Listening(0),
            SocketSource::Multicast(0),
            SocketSource::Doublezero(0),
        ]
    );
}

#[test]
fn sending_falls_back_to_ipv4_where_ipv6_is_not_supported() {
    assert_eq!(EAFNOSUPPORT, libc::EAFNOSUPPORT);
    assert_eq!(choose_send_socket(Ok(())), SendSocket::V6);
    assert_eq!(choose_send_socket(Err(Some(EAFNOSUPPORT))), SendSocket::V4(8));
    assert_eq!(choose_send_socket(Err(Some(98))), SendSocket::Fail);
    assert_eq!(choose_send_socket(Err(None)), SendSocket::Fail);
    assert_eq!(IP_MULTICAST_TTL, 8);
}

#[test]
fn a_batch_is_as_large_as_the_kernel_takes() {
    assert_eq!(shredstream_proxy::fwd_tile::UIO_MAXIOV as i32, libc::UIO_MAXIOV);
}

#[test]
fn the_memory_is_built_if_all_of_it_can_be_had() {
    let plan = PoolPlan {
        num_recv_tiles: 1,
        num_fwd_tiles: 1,
        num_frames: 2,
        frame_size: 2048,
        packet_ring_capacity: 2,
        hugepage: false,
    };
    let region = || SharedMem::new(2048, 2, false);
    let ring = || frame_ring(2, 2048, 0);
    let mut pool = Pool { regions: vec![], fill_rings: vec![], packet_rings: vec![] };
    assert_eq!(add_region(&mut pool, Err(AllocError), ring(), &plan), Err(AllocError));
    assert_eq!(add_region(&mut pool, region(), Err(AllocError), &plan), Err(AllocError));
    assert_eq!((pool.regions.len(), pool.fill_rings.len()), (0, 0));
    assert_eq!(add_region(&mut pool, region(), ring(), &plan), Ok(()));
    assert_eq!((pool.regions.len(), pool.fill_rings.len()), (1, 1));
    assert_eq!(add_packet_ring(&mut pool, Err(AllocError), &plan), Err(AllocError));
    assert_eq!(pool.packet_rings.len(), 0);
    assert_eq!(add_packet_ring(&mut pool, RingInner::new(2), &plan), Ok(()));
    assert_eq!(pool.packet_rings.len(), 1);
    let memory = share_new_pool(Ok(pool), &plan).unwrap();
    assert_eq!(memory.regions.len(), 1);
    assert_eq!(share_new_pool(Err(AllocError), &plan).err(), Some(AllocError));

    let filled = fill_with_frames(RingInner::new(2), 2, 2048, 3).unwrap();
    assert_eq!(filled.len(), 2);
    assert_eq!(
        fill_with_frames(Err(AllocError), 2, 2048, 3).err(),
        Some(AllocError)
    );
}
