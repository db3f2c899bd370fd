use shredstream_proxy::mem::{
    region_in_room, try_alloc_shared_mem, AllocError, FrameBuf, FrameBufMut, FrameDesc, SharedMem,
};
use shredstream_proxy::ring::{RecvPhase, RECV_SPIN_LIMIT};
use shredstream_proxy::ring_handle::message_ring;

#[test]
fn test_frame_buffer_lifecycle() {
    let align = 4096;
    let capacity = 1;
    let mut mem = SharedMem::new(align, capacity, false).unwrap();

    let (mut tx_fill, mut rx_fill) = message_ring::<FrameDesc>(capacity).unwrap();
    let (mut rx_tx, mut rx_rx) = message_ring::<FrameDesc>(capacity).unwrap();
    for i in 0..capacity {
        tx_fill
            .send(FrameDesc {
                ptr: mem.start() + i * align,
                frame_size: align,
                shmem_idx: 0,
            })
            .unwrap();
    }

    let desc = rx_fill.recv(RecvPhase::Spinning(RECV_SPIN_LIMIT)).unwrap();
    let expected_ptr = desc.ptr;
    println!("Received frame at ptr: {expected_ptr}");
    let mut buf = desc.as_mut_buf();
    assert_eq!(buf.remaining_mut(), 4096);
    buf.put_u32(&mut mem, 0xDEADBEEF);
    assert_eq!(buf.remaining_mut(), 4092);
    assert_eq!(mem.read(expected_ptr, 4), &[0xDE, 0xAD, 0xBE, 0xEF]);

    rx_tx.send(desc).unwrap();

    let returned_desc = rx_rx.recv(RecvPhase::Spinning(RECV_SPIN_LIMIT)).unwrap();
    assert_eq!(returned_desc.ptr, expected_ptr);
}

#[test]
fn test_buf_and_bufmut_impls() {
    let frame_size = 4096;
    let mut shmem = SharedMem::new(frame_size, 1, false).unwrap();
    let desc = FrameDesc {
        ptr: shmem.start(),
        frame_size,
        shmem_idx: 0,
    };

    let mut buf_mut: FrameBufMut = desc.into();
    assert_eq!(buf_mut.remaining_mut(), 4096);
    buf_mut.put_slice(&mut shmem, &[1, 2, 3, 4]);
    assert_eq!(buf_mut.remaining_mut(), 4092);
    assert_eq!(buf_mut.len(), 4);

    let mut buf: FrameBuf = buf_mut.into();
    assert_eq!(buf.len(), 4);
    assert_eq!(buf.remaining(), 4);
    let chunk = buf.chunk(&shmem);
    assert_eq!(chunk, &[1, 2, 3, 4]);
    buf.advance(4);
    assert_eq!(buf.remaining(), 0);
    assert_eq!(buf.len(), 0)
}

#[test]
fn a_region_is_zeroed_and_as_large_as_asked() {
    let mem = try_alloc_shared_mem(16, 4, true).unwrap();
    assert_eq!(mem.len(), 64);
    assert_eq!(mem.capacity(), 4);
    assert!(mem.wants_huge_pages());
    assert_eq!(mem.read(0, 64), &[0u8; 64][..]);
}

#[test]
fn a_region_of_nothing_cannot_be_had() {
    assert!(matches!(try_alloc_shared_mem(0, 4, false), Err(AllocError)));
    assert!(SharedMem::new(0, 1, false).is_err());
    assert_eq!(AllocError.message(), "allocation error");
}

#[test]
fn more_memory_than_there_is_cannot_be_had() {
    assert!(SharedMem::new(1, 1 << 62, false).is_err());
}

fn frame(index: usize) -> FrameDesc {
    FrameDesc {
        ptr: index * 64,
        frame_size: 64,
        shmem_idx: 5,
    }
}

#[test]
fn a_writer_knows_where_its_frame_begins() {
    let mut mem = SharedMem::new(64, 4, false).unwrap();
    let mut buf = frame(2).as_mut_buf();
    assert_eq!(buf.as_mut_ptr(), 128);
    assert_eq!(buf.capacity(), 64);
    buf.put_slice(&mut mem, b"abc");
    assert_eq!(buf.base(), 128);
    assert_eq!(buf.cast_to::<u64>(), 128);
    assert_eq!(buf.len(), 3);
    assert_eq!(buf.len() + buf.remaining_mut(), 64);
    buf.advance_mut(2);
    assert_eq!(buf.as_mut_ptr(), 133);
    buf.seek(1);
    assert_eq!(buf.as_mut_ptr(), 129);
    assert_eq!(*buf.desc(), frame(2));
    assert_eq!(buf.into_desc(), frame(2));
}

#[test]
fn a_full_frame_counts_as_empty() {
    let mut mem = SharedMem::new(64, 4, false).unwrap();
    let mut buf = frame(1).as_mut_buf();
    buf.put_slice(&mut mem, &[7; 64]);
    assert_eq!(buf.as_mut_ptr(), 128);
    assert_eq!(buf.len(), 0);
    assert_eq!(buf.remaining_mut(), 64);
    // What was written is still read in full.
    let read: FrameBuf = buf.into();
    assert_eq!(read.len(), 64);
    assert_eq!(read.chunk(&mem), &[7; 64][..]);
}

#[test]
fn writing_in_one_frame_spares_the_next() {
    let mut mem = SharedMem::new(64, 4, false).unwrap();
    let mut first = frame(0).as_mut_buf();
    let mut second = frame(1).as_mut_buf();
    second.put_slice(&mut mem, b"second");
    first.put_slice(&mut mem, &[9; 64]);
    assert_eq!(second.freeze().chunk(&mem), b"second");
}

#[test]
fn consecutive_writes_join() {
    let mut mem = SharedMem::new(64, 1, false).unwrap();
    let mut buf = frame(0).as_mut_buf();
    buf.put_slice(&mut mem, b"con");
    buf.put_slice(&mut mem, b"cat");
    assert_eq!(buf.freeze().chunk(&mem), b"concat");
}

#[test]
fn a_chunk_can_be_overwritten_in_place() {
    let mut mem = SharedMem::new(64, 1, false).unwrap();
    let mut buf = frame(0).as_mut_buf();
    buf.put_slice(&mut mem, &[1]);
    let chunk = buf.chunk_mut(&mut mem);
    assert_eq!(chunk.len(), 63);
    chunk[0] = 2;
    assert_eq!(mem.read(0, 3), &[1, 2, 0]);
}

#[test]
fn a_second_reader_reads_a_part() {
    let mut mem = SharedMem::new(64, 2, false).unwrap();
    let mut buf = frame(1).as_mut_buf();
    buf.put_slice(&mut mem, b"hello-forwarder");
    let whole = buf.freeze();
    let part = whole.subslice_clone(6, 4);
    assert_eq!(part.chunk(&mem), b"forw");
    assert_eq!(part.shmem_idx(), 5);
    assert_eq!(part.detach_desc(), frame(1));
    assert_eq!(whole.into_inner(), frame(1));
}

#[test]
fn a_region_is_made_if_there_is_room_for_it() {
    let mem = region_in_room(Ok(vec![7, 7]), 4, 2, false).unwrap();
    assert_eq!(mem.read(0, 8), &[0u8; 8][..]);
    assert_eq!((mem.len(), mem.capacity()), (8, 2));
    assert!(matches!(region_in_room(Ok(Vec::new()), 0, 2, false), Err(AllocError)));
    assert!(matches!(region_in_room(Err(AllocError), 4, 2, false), Err(AllocError)));
}

#[test]
fn writing_keeps_what_the_region_was_made_for() {
    let mut mem = SharedMem::new(64, 2, true).unwrap();
    let mut buf = frame(1).as_mut_buf();
    buf.put_slice(&mut mem, b"hello");
    buf.put_u32(&mut mem, 7);
    buf.chunk_mut(&mut mem)[0] = 1;
    assert_eq!((mem.len(), mem.capacity()), (128, 2));
    assert!(mem.wants_huge_pages());
}
