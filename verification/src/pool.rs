//! The frames that may travel between tiles.
//!
//! Every receiver owns a region. A frame that is handed on names the region it
//! lies in, so whoever gets it can find its bytes.

use vstd::prelude::*;

use crate::mem::{FrameBufMut, FrameDesc};
use crate::packet::TritonPacket;
use crate::region::Region;

verus! {

/// The sizes of regions in bytes.
pub open spec fn region_sizes(regions: Seq<Region>) -> Seq<nat> {
    regions.map_values(|r: Region| r.spec_len())
}

/// The frame lies within its region.
pub open spec fn frame_admissible(frame: FrameDesc, sizes: Seq<nat>) -> bool {
    &&& frame.wf()
    &&& frame.shmem_idx < sizes.len()
    &&& frame.fits(sizes[frame.shmem_idx as int] as int)
}

/// The packet lies within an admissible frame.
pub open spec fn packet_admissible(packet: TritonPacket, sizes: Seq<nat>) -> bool {
    &&& packet.wf()
    &&& frame_admissible(packet.frame(), sizes)
}

/// The frames of packets.
pub open spec fn frames_of(packets: Seq<TritonPacket>) -> Seq<FrameDesc> {
    packets.map_values(|p: TritonPacket| p.frame())
}

/// The frames that writers write into.
pub open spec fn frames_written(bufs: Seq<FrameBufMut>) -> Seq<FrameDesc> {
    bufs.map_values(|b: FrameBufMut| b.spec_desc())
}

/// What the ring of free frames of the `idx`-th region admits.
pub open spec fn free_frames_of(sizes: Seq<nat>, idx: int) -> spec_fn(FrameDesc) -> bool {
    |frame: FrameDesc| frame_admissible(frame, sizes) && frame.shmem_idx == idx
}

/// What a ring of packets admits.
pub open spec fn packets_in(sizes: Seq<nat>) -> spec_fn(TritonPacket) -> bool {
    |packet: TritonPacket| packet_admissible(packet, sizes)
}

} // verus!
