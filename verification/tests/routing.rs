use shredstream_proxy::mem::{FrameDesc, SharedMem};
use shredstream_proxy::packet::TritonPacket;
use shredstream_proxy::routing::{
    get_fec_set_index, get_slot, hash_pair, FECSetRoutingStrategy, PacketRoutingStrategy,
};

#[test]
fn test_hash_pair_is_deterministic_and_mixes_inputs() {
    let h1 = hash_pair(123, 456);
    let h2 = hash_pair(123, 456);
    let h3 = hash_pair(124, 456);
    let h4 = hash_pair(123, 457);
    assert_eq!(h1, h2);
    assert_ne!(h1, h3);
    assert_ne!(h1, h4);
}

#[test]
fn hashes_have_these_values() {
    assert_eq!(hash_pair(0, 0), 0);
    assert_eq!(hash_pair(123, 456), 0x541f0444422df171);
    assert_eq!(hash_pair(1, 0), 0xff51afd792fd5b26);
    assert_eq!(hash_pair(0, 1), 0xed558ccd76aac666);
    assert_eq!(hash_pair(u64::MAX, u32::MAX), 0xee03dcf565ab9d49);
}

fn shred(slot: u64, fec_set_index: u32, len: usize) -> Vec<u8> {
    let mut bytes = vec![0xAA; 100];
    bytes[65..73].copy_from_slice(&slot.to_le_bytes());
    bytes[79..83].copy_from_slice(&fec_set_index.to_le_bytes());
    bytes.truncate(len);
    bytes
}

fn route(bytes: &[u8], num_dest: usize) -> Option<usize> {
    let mut mem = SharedMem::new(2048, 1, false).unwrap();
    let desc = FrameDesc { ptr: 0, frame_size: 2048, shmem_idx: 0 };
    let mut buf = desc.as_mut_buf();
    buf.put_slice(&mut mem, bytes);
    let packet = TritonPacket::new(buf.freeze());
    FECSetRoutingStrategy.route_packet(&packet, &mem, num_dest)
}

#[test]
fn fields_are_read_where_they_stand() {
    let bytes = shred(250000000, 96, 100);
    assert_eq!(get_slot(&bytes), Some(250000000));
    assert_eq!(get_fec_set_index(&bytes), Some(96));
    assert_eq!(get_slot(&bytes[..73]), Some(250000000));
    assert_eq!(get_slot(&bytes[..72]), None);
    assert_eq!(get_fec_set_index(&bytes[..83]), Some(96));
    assert_eq!(get_fec_set_index(&bytes[..82]), None);
    assert_eq!(get_slot(&[]), None);
}

#[test]
fn a_shred_goes_where_its_hash_says() {
    let bytes = shred(250000000, 96, 100);
    assert_eq!(route(&bytes, 3), Some(2));
    assert_eq!(route(&bytes, 4), Some(0));
    assert_eq!(route(&bytes, 5), Some(3));
    assert_eq!(route(&bytes, 1), Some(0));
}

#[test]
fn a_short_shred_and_no_forwarder_have_no_route() {
    assert_eq!(route(&shred(1, 2, 82), 3), None);
    assert_eq!(route(&shred(1, 2, 83), 3).is_some(), true);
    assert_eq!(route(&shred(1, 2, 100), 0), None);
}

#[test]
fn shreds_of_one_fec_set_stay_together() {
    let mut a = shred(77, 32, 100);
    let mut b = shred(77, 32, 90);
    a[0] = 1;
    b[84] = 2;
    for num_dest in 1..20 {
        assert_eq!(route(&a, num_dest), route(&b, num_dest));
    }
}
