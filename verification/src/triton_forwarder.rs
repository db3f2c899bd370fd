//! Setting up the proxy: how much memory there is, which frames it is cut into,
//! and which rings connect the receivers with the forwarders.

use vstd::prelude::*;

use crate::bits::{
    is_power_of_two, lemma_largest_power_of_two, least_power_of_two_from, power_of_two, word,
};
use crate::mem::{AllocError, FrameDesc, SharedMem};
use crate::packet::TritonPacket;
use crate::pool::{frame_admissible, free_frames_of, packets_in, region_sizes};
use crate::region::Region;
use crate::region_log::{Burst, BurstLog};
use crate::ring::{lemma_all_published, messages, RingInner};
use crate::ring_handle::{all_admitted, is_fresh_pair, share_ring, Rx, Tx};
use crate::sizing::PktRecvTileMemConfig;
use crate::text::{count_message, count_text};

verus! {

/// How many routers a multicast message that the proxy sends may pass.
pub const IP_MULTICAST_TTL: u32 = 8;

/// The error number of an address family that the system does not support.
pub const EAFNOSUPPORT: i32 = 97;

/// Where a region lies and how large it is.
#[derive(Debug, Clone, Copy, PartialEq, Eq, Structural)]
pub struct SharedMemInfo {
    pub start_ptr: usize,
    pub len: usize,
}

/// What a thread of the proxy does.
#[derive(Debug, Clone, Copy, PartialEq, Eq, Structural)]
pub enum TileKind {
    PktRecv,
    PktFwd,
}

/// Why the proxy cannot be set up.
#[derive(Debug, Clone, Copy, PartialEq, Eq, Structural)]
pub enum SetupError {
    NoRecvTiles,
    NoFwdTiles,
    /// The memory size exceeds what can be addressed.
    MemoryTooLarge,
    NumFramesNotPowerOfTwo,
    FrameSizeNotPowerOfTwo,
    /// No ring can hold all frames.
    TooManyFrames,
}

/// What is told to a user.
pub open spec fn setup_error_text(e: SetupError) -> Seq<char> {
    match e {
        SetupError::NoRecvTiles => "num_pkt_recv_tiles must be > 0"@,
        SetupError::NoFwdTiles => "num_pkt_fwd_tiles must be > 0"@,
        SetupError::MemoryTooLarge => "memory size too large"@,
        SetupError::NumFramesNotPowerOfTwo => "num_frames must be a power of 2"@,
        SetupError::FrameSizeNotPowerOfTwo => "frame_size must be a power of 2"@,
        SetupError::TooManyFrames => "too many frames"@,
    }
}

impl SetupError {
    /// What is told to a user.
    pub fn message(&self) -> (m: &'static str)
        ensures
            m@ == setup_error_text(*self),
    {
        match self {
            SetupError::NoRecvTiles => "num_pkt_recv_tiles must be > 0",
            SetupError::NoFwdTiles => "num_pkt_fwd_tiles must be > 0",
            SetupError::MemoryTooLarge => "memory size too large",
            SetupError::NumFramesNotPowerOfTwo => "num_frames must be a power of 2",
            SetupError::FrameSizeNotPowerOfTwo => "frame_size must be a power of 2",
            SetupError::TooManyFrames => "too many frames",
        }
    }
}

/// The numbers that the proxy's memory is built from.
#[derive(Debug, Clone, Copy, PartialEq, Eq, Structural)]
pub struct PoolPlan {
    pub num_recv_tiles: usize,
    pub num_fwd_tiles: usize,
    /// The number of frames of each region.
    pub num_frames: usize,
    pub frame_size: usize,
    /// How many packets can wait for a forwarder: all frames of all receivers.
    pub packet_ring_capacity: usize,
    pub hugepage: bool,
}

impl PoolPlan {
    /// The plan can be carried out.
    pub open spec fn wf(self) -> bool {
        &&& self.num_recv_tiles > 0
        &&& self.num_fwd_tiles > 0
        &&& power_of_two(self.num_frames as int)
        &&& power_of_two(self.frame_size as int)
        &&& self.num_frames * self.frame_size <= usize::MAX
        &&& self.packet_ring_capacity == self.num_frames * self.num_recv_tiles
        &&& self.packet_ring_capacity <= word() / 2
    }
}

/// The plan for `num_recv` receivers and `num_fwd` forwarders: each receiver gets
/// as many frames as its memory holds.
pub open spec fn spec_plan_pool(
    config: PktRecvTileMemConfig,
    num_recv: usize,
    num_fwd: usize,
) -> Result<PoolPlan, SetupError> {
    let bytes = config.memory_size.spec_bytes() as int;
    let num_frames = bytes / (config.frame_size as int);
    if num_recv == 0 {
        Err(SetupError::NoRecvTiles)
    } else if num_fwd == 0 {
        Err(SetupError::NoFwdTiles)
    } else if bytes > usize::MAX {
        Err(SetupError::MemoryTooLarge)
    } else if config.frame_size == 0 {
        Err(SetupError::FrameSizeNotPowerOfTwo)
    } else if !power_of_two(num_frames) {
        Err(SetupError::NumFramesNotPowerOfTwo)
    } else if !power_of_two(config.frame_size as int) {
        Err(SetupError::FrameSizeNotPowerOfTwo)
    } else if num_frames * num_recv > word() / 2 {
        Err(SetupError::TooManyFrames)
    } else {
        Ok(
            PoolPlan {
                num_recv_tiles: num_recv,
                num_fwd_tiles: num_fwd,
                num_frames: num_frames as usize,
                frame_size: config.frame_size,
                packet_ring_capacity: (num_frames * num_recv) as usize,
                hugepage: config.hugepage,
            },
        )
    }
}

/// The plan for `num_recv` receivers and `num_fwd` forwarders.
pub fn plan_pool(config: &PktRecvTileMemConfig, num_recv: usize, num_fwd: usize) -> (r: Result<
    PoolPlan,
    SetupError,
>)
    ensures
        r == spec_plan_pool(*config, num_recv, num_fwd),
        r matches Ok(plan) ==> plan.wf(),
{
    if num_recv == 0 {
        return Err(SetupError::NoRecvTiles);
    }
    if num_fwd == 0 {
        return Err(SetupError::NoFwdTiles);
    }
    let bytes: u64 = config.memory_size.bytes();
    if bytes > usize::MAX as u64 {
        return Err(SetupError::MemoryTooLarge);
    }
    if config.frame_size == 0 {
        return Err(SetupError::FrameSizeNotPowerOfTwo);
    }
    let num_frames: usize = bytes as usize / config.frame_size;
    if !is_power_of_two(num_frames) {
        return Err(SetupError::NumFramesNotPowerOfTwo);
    }
    if !is_power_of_two(config.frame_size) {
        return Err(SetupError::FrameSizeNotPowerOfTwo);
    }
    proof {
        lemma_largest_power_of_two();
        let f = config.frame_size as int;
        vstd::arithmetic::div_mod::lemma_fundamental_div_mod(bytes as int, f);
        assert(num_frames * f == f * num_frames) by (nonlinear_arith);
    }
    match num_frames.checked_mul(num_recv) {
        Some(capacity) => {
            if capacity > usize::MAX / 2 + 1 {
                return Err(SetupError::TooManyFrames);
            }
            Ok(
                PoolPlan {
                    num_recv_tiles: num_recv,
                    num_fwd_tiles: num_fwd,
                    num_frames,
                    frame_size: config.frame_size,
                    packet_ring_capacity: capacity,
                    hugepage: config.hugepage,
                },
            )
        },
        None => Err(SetupError::TooManyFrames),
    }
}

/// The `i`-th frame of a region that is cut into frames of `frame_size` bytes.
pub open spec fn frame_at(i: int, frame_size: usize, shmem_idx: usize) -> FrameDesc {
    FrameDesc { ptr: (i * frame_size) as usize, frame_size, shmem_idx }
}

/// All frames of a region.
pub open spec fn all_frames(num_frames: nat, frame_size: usize, shmem_idx: usize) -> Seq<FrameDesc> {
    Seq::new(num_frames, |i: int| frame_at(i, frame_size, shmem_idx))
}

/// An empty ring, if there is one, filled with all frames of a region, in the
/// order of their addresses. Fails when there is none, and only then.
pub fn fill_with_frames(
    ring: Result<RingInner<FrameDesc>, AllocError>,
    num_frames: usize,
    frame_size: usize,
    shmem_idx: usize,
) -> (r: Result<RingInner<FrameDesc>, AllocError>)
    requires
        num_frames > 0,
        num_frames * frame_size <= usize::MAX,
        ring matches Ok(ring) ==> {
            &&& ring.wf()
            &&& ring@.capacity == num_frames
            &&& ring@.pending.len() == 0
        },
    ensures
        r is Ok <==> ring is Ok,
        r matches Ok(ring) ==> {
            &&& ring.wf()
            &&& ring@.capacity == num_frames
            &&& ring@.pending =~= all_frames(num_frames as nat, frame_size, shmem_idx).map_values(
                |f: FrameDesc| Some(f),
            )
            &&& !ring@.wake_requested
        },
{
    let mut ring: RingInner<FrameDesc> = match ring {
        Ok(ring) => ring,
        Err(e) => {
            return Err(e);
        },
    };
    let ghost frames = all_frames(num_frames as nat, frame_size, shmem_idx);
    let ghost full = frames.map_values(|f: FrameDesc| Some(f));
    let mut i: usize = 0;
    while i < num_frames
        invariant
            i <= num_frames,
            num_frames * frame_size <= usize::MAX,
            frames == all_frames(num_frames as nat, frame_size, shmem_idx),
            full == frames.map_values(|f: FrameDesc| Some(f)),
            ring.wf(),
            ring@.capacity == num_frames,
            ring@.pending =~= full.take(i as int),
            i > 0 ==> !ring@.wake_requested,
        decreases num_frames - i,
    {
        assert(i * frame_size <= num_frames * frame_size) by (nonlinear_arith)
            requires
                i <= num_frames,
        ;
        let frame_desc = FrameDesc { ptr: i * frame_size, frame_size, shmem_idx };
        assert(frame_desc == frames[i as int]);
        match ring.send(frame_desc) {
            Ok(_) => {},
            Err(_) => {
                assert(false);
                return Err(AllocError);
            },
        }
        i += 1;
    }
    Ok(ring)
}

/// A ring that holds all frames of a region, in the order of their addresses.
/// Fails when the memory for it cannot be had.
///
/// Whether it can depends on the machine; [`fill_with_frames`] states what comes
/// of either.
pub fn frame_ring(num_frames: usize, frame_size: usize, shmem_idx: usize) -> (r: Result<
    RingInner<FrameDesc>,
    AllocError,
>)
    requires
        power_of_two(num_frames as int),
        num_frames * frame_size <= usize::MAX,
    ensures
        r matches Ok(ring) ==> {
            &&& ring.wf()
            &&& ring@.capacity == num_frames
            &&& ring@.pending =~= all_frames(num_frames as nat, frame_size, shmem_idx).map_values(
                |f: FrameDesc| Some(f),
            )
            &&& !ring@.wake_requested
        },
{
    proof {
        lemma_largest_power_of_two();
        crate::bits::lemma_power_of_two_exponent(num_frames);
    }
    fill_with_frames(RingInner::new(num_frames), num_frames, frame_size, shmem_idx)
}

/// The memory of the proxy and the rings that connect its tiles.
pub struct Pool {
    /// One region for each receiver.
    pub regions: Vec<SharedMem>,
    /// For each region, the ring of its free frames.
    pub fill_rings: Vec<RingInner<FrameDesc>>,
    /// For each forwarder, the ring of packets that wait for it.
    pub packet_rings: Vec<RingInner<TritonPacket>>,
}

impl Pool {
    /// There are regions for `n` receivers, all zero, and every frame is free.
    pub open spec fn has_regions(self, plan: PoolPlan, n: int) -> bool {
        &&& self.regions@.len() == n
        &&& self.fill_rings@.len() == n
        &&& forall|i: int|
            0 <= i < n ==> {
                &&& (#[trigger] self.regions@[i])@ == Seq::new(
                    (plan.num_frames * plan.frame_size) as nat,
                    |a: int| 0u8,
                )
                &&& self.regions@[i].spec_huge() == plan.hugepage
            }
        &&& forall|i: int|
            0 <= i < n ==> {
                &&& (#[trigger] self.fill_rings@[i]).wf()
                &&& self.fill_rings@[i]@.capacity == plan.num_frames
                &&& self.fill_rings@[i]@.pending == all_frames(
                    plan.num_frames as nat,
                    plan.frame_size,
                    i as usize,
                ).map_values(|f: FrameDesc| Some(f))
            }
    }

    /// The regions and rings are as large as planned, and hold only frames and
    /// packets that may travel between tiles.
    pub open spec fn is_shareable(self, plan: PoolPlan) -> bool {
        let sizes = planned_sizes(plan);
        &&& self.regions@.len() == plan.num_recv_tiles
        &&& self.fill_rings@.len() == plan.num_recv_tiles
        &&& self.packet_rings@.len() == plan.num_fwd_tiles
        &&& forall|i: int|
            0 <= i < self.regions@.len() ==> (#[trigger] self.regions@[i])@.len() == plan.num_frames
                * plan.frame_size
        &&& forall|i: int|
            0 <= i < self.fill_rings@.len() ==> {
                &&& (#[trigger] self.fill_rings@[i]).wf()
                &&& self.fill_rings@[i]@.capacity == plan.num_frames
                &&& all_admitted(self.fill_rings@[i]@.pending, free_frames_of(sizes, i))
            }
        &&& forall|i: int|
            0 <= i < self.packet_rings@.len() ==> {
                &&& (#[trigger] self.packet_rings@[i]).wf()
                &&& least_power_of_two_from(
                    plan.packet_ring_capacity as int,
                    self.packet_rings@[i]@.capacity as int,
                )
                &&& all_admitted(self.packet_rings@[i]@.pending, packets_in(sizes))
            }
    }

    /// There are rings for `n` forwarders, and no packet waits in any.
    pub open spec fn has_packet_rings(self, plan: PoolPlan, n: int) -> bool {
        &&& self.packet_rings@.len() == n
        &&& forall|i: int|
            0 <= i < n ==> {
                &&& (#[trigger] self.packet_rings@[i]).wf()
                &&& least_power_of_two_from(
                    plan.packet_ring_capacity as int,
                    self.packet_rings@[i]@.capacity as int,
                )
                &&& self.packet_rings@[i]@.pending == Seq::<Option<TritonPacket>>::empty()
            }
    }
}

/// Adds the region of the next receiver, and the ring that holds its frames, to
/// the pool. Fails when one of them could not be had, and only then.
pub fn add_region(
    pool: &mut Pool,
    shmem: Result<SharedMem, AllocError>,
    ring: Result<RingInner<FrameDesc>, AllocError>,
    plan: &PoolPlan,
) -> (r: Result<(), AllocError>)
    requires
        old(pool).has_regions(*plan, old(pool).regions@.len() as int),
        old(pool).regions@.len() < plan.num_recv_tiles,
        shmem matches Ok(shmem) ==> {
            &&& shmem@ == Seq::new((plan.num_frames * plan.frame_size) as nat, |a: int| 0u8)
            &&& shmem.spec_huge() == plan.hugepage
        },
        ring matches Ok(ring) ==> {
            &&& ring.wf()
            &&& ring@.capacity == plan.num_frames
            &&& ring@.pending == all_frames(
                plan.num_frames as nat,
                plan.frame_size,
                old(pool).regions@.len() as usize,
            ).map_values(|f: FrameDesc| Some(f))
        },
    ensures
        r is Ok <==> shmem is Ok && ring is Ok,
        r is Ok ==> {
            &&& final(pool).regions@ == old(pool).regions@.push(shmem->Ok_0)
            &&& final(pool).fill_rings@ == old(pool).fill_rings@.push(ring->Ok_0)
            &&& final(pool).packet_rings == old(pool).packet_rings
            &&& final(pool).has_regions(*plan, old(pool).regions@.len() as int + 1)
        },
        r is Err ==> *final(pool) == *old(pool),
{
    match (shmem, ring) {
        (Ok(shmem), Ok(ring)) => {
            pool.regions.push(shmem);
            pool.fill_rings.push(ring);
            Ok(())
        },
        _ => Err(AllocError),
    }
}

/// Adds the ring of the next forwarder to the pool. Fails when it could not be
/// had, and only then.
pub fn add_packet_ring(
    pool: &mut Pool,
    ring: Result<RingInner<TritonPacket>, AllocError>,
    plan: &PoolPlan,
) -> (r: Result<(), AllocError>)
    requires
        old(pool).has_packet_rings(*plan, old(pool).packet_rings@.len() as int),
        ring matches Ok(ring) ==> {
            &&& ring.wf()
            &&& least_power_of_two_from(
                plan.packet_ring_capacity as int,
                ring@.capacity as int,
            )
            &&& ring@.pending == Seq::<Option<TritonPacket>>::empty()
        },
    ensures
        r is Ok <==> ring is Ok,
        r is Ok ==> {
            &&& final(pool).packet_rings@ == old(pool).packet_rings@.push(ring->Ok_0)
            &&& final(pool).regions == old(pool).regions
            &&& final(pool).fill_rings == old(pool).fill_rings
            &&& final(pool).has_packet_rings(*plan, old(pool).packet_rings@.len() as int + 1)
        },
        r is Err ==> *final(pool) == *old(pool),
{
    match ring {
        Ok(ring) => {
            pool.packet_rings.push(ring);
            Ok(())
        },
        Err(e) => Err(e),
    }
}

/// Allocates the memory of the proxy as planned. Fails when it cannot be had.
///
/// Whether it can depends on the machine; [`add_region`] and [`add_packet_ring`]
/// state what comes of either.
pub fn build_pool(plan: &PoolPlan) -> (r: Result<Pool, AllocError>)
    requires
        plan.wf(),
    ensures
        r matches Ok(pool) ==> {
            &&& pool.has_regions(*plan, plan.num_recv_tiles as int)
            &&& pool.has_packet_rings(*plan, plan.num_fwd_tiles as int)
        },
{
    let mut pool = Pool { regions: Vec::new(), fill_rings: Vec::new(), packet_rings: Vec::new() };
    let mut i: usize = 0;
    while i < plan.num_recv_tiles
        invariant
            plan.wf(),
            i <= plan.num_recv_tiles,
            pool.has_regions(*plan, i as int),
            pool.has_packet_rings(*plan, 0),
        decreases plan.num_recv_tiles - i,
    {
        let shmem = SharedMem::new(plan.frame_size, plan.num_frames, plan.hugepage);
        let ring = frame_ring(plan.num_frames, plan.frame_size, i);
        match add_region(&mut pool, shmem, ring, plan) {
            Ok(_) => {},
            Err(e) => {
                return Err(e);
            },
        }
        i += 1;
    }
    let mut j: usize = 0;
    while j < plan.num_fwd_tiles
        invariant
            plan.wf(),
            j <= plan.num_fwd_tiles,
            pool.has_regions(*plan, plan.num_recv_tiles as int),
            pool.has_packet_rings(*plan, j as int),
        decreases plan.num_fwd_tiles - j,
    {
        let ring = RingInner::new(plan.packet_ring_capacity);
        match add_packet_ring(&mut pool, ring, plan) {
            Ok(_) => {},
            Err(e) => {
                return Err(e);
            },
        }
        j += 1;
    }
    Ok(pool)
}

/// The memory of the proxy as its threads share it.
pub struct ProxyMemory {
    /// One region for each receiver.
    pub regions: Vec<Region>,
    /// For each region, the log of what is received into it.
    pub burst_logs: Vec<BurstLog>,
    pub shmem_info_vec: Vec<SharedMemInfo>,
    /// For each region, the ring of its free frames.
    pub fill_tx_vec: Vec<Tx<FrameDesc>>,
    pub fill_rx_vec: Vec<Rx<FrameDesc>>,
    /// For each forwarder, the ring of packets that wait for it.
    pub packet_tx_vec: Vec<Tx<TritonPacket>>,
    pub packet_rx_vec: Vec<Rx<TritonPacket>>,
}

impl ProxyMemory {
    /// The first `n` regions and their rings are as `plan` says.
    pub open spec fn shares_regions(self, plan: PoolPlan, n: int) -> bool {
        &&& self.regions@.len() == n
        &&& self.burst_logs@.len() == n
        &&& self.shmem_info_vec@.len() == n
        &&& self.fill_tx_vec@.len() == n
        &&& self.fill_rx_vec@.len() == n
        &&& forall|i: int|
            0 <= i < n ==> {
                &&& (#[trigger] self.regions@[i]).spec_len() == plan.num_frames * plan.frame_size
                &&& self.burst_logs@[i].region() == self.regions@[i].id()
                &&& self.burst_logs@[i].bursts() == Seq::<Burst>::empty()
                &&& self.shmem_info_vec@[i].start_ptr == 0
                &&& self.shmem_info_vec@[i].len == plan.num_frames * plan.frame_size
            }
        &&& forall|i: int|
            0 <= i < n ==> {
                &&& (#[trigger] self.fill_tx_vec@[i]).ring() == self.fill_rx_vec@[i].ring()
                &&& self.fill_tx_vec@[i].ring().pred().capacity == plan.num_frames
                &&& self.fill_tx_vec@[i].ring().pred().admits == free_frames_of(planned_sizes(plan), i)
            }
    }

    /// The rings of the first `n` forwarders are as `plan` says.
    pub open spec fn shares_packet_rings(self, plan: PoolPlan, n: int) -> bool {
        &&& self.packet_tx_vec@.len() == n
        &&& self.packet_rx_vec@.len() == n
        &&& forall|i: int|
            0 <= i < n ==> {
                &&& (#[trigger] self.packet_tx_vec@[i]).ring() == self.packet_rx_vec@[i].ring()
                &&& least_power_of_two_from(
                    plan.packet_ring_capacity as int,
                    self.packet_tx_vec@[i].ring().pred().capacity as int,
                )
                &&& self.packet_tx_vec@[i].ring().pred().admits == packets_in(planned_sizes(plan))
            }
    }

    /// The first `n` rings of free frames are those of `pool`: what each held is
    /// all that went through its handles.
    pub open spec fn shares_frames_of(self, pool: Pool, n: int) -> bool {
        forall|i: int|
            0 <= i < n ==> is_fresh_pair(
                #[trigger] self.fill_tx_vec@[i],
                self.fill_rx_vec@[i],
                messages(pool.fill_rings@[i]@.pending),
            )
    }

    /// The first `n` rings of packets are those of `pool`: what each held is all
    /// that went through its handles.
    pub open spec fn shares_packets_of(self, pool: Pool, n: int) -> bool {
        forall|i: int|
            0 <= i < n ==> is_fresh_pair(
                #[trigger] self.packet_tx_vec@[i],
                self.packet_rx_vec@[i],
                messages(pool.packet_rings@[i]@.pending),
            )
    }

    /// Every frame of the plan was sent into the ring of its region, and nothing
    /// else went through a handle.
    pub open spec fn starts_with_all_frames(self, plan: PoolPlan) -> bool {
        &&& forall|i: int|
            0 <= i < self.fill_tx_vec@.len() ==> is_fresh_pair(
                #[trigger] self.fill_tx_vec@[i],
                self.fill_rx_vec@[i],
                all_frames(plan.num_frames as nat, plan.frame_size, i as usize),
            )
        &&& forall|i: int|
            0 <= i < self.packet_tx_vec@.len() ==> is_fresh_pair(
                #[trigger] self.packet_tx_vec@[i],
                self.packet_rx_vec@[i],
                Seq::<TritonPacket>::empty(),
            )
    }
}

/// The sizes of all regions.
pub open spec fn planned_sizes(plan: PoolPlan) -> Seq<nat> {
    Seq::new(plan.num_recv_tiles as nat, |i: int| (plan.num_frames * plan.frame_size) as nat)
}

/// Every frame of a planned region is admissible.
proof fn lemma_planned_frames_admissible(plan: PoolPlan, idx: usize)
    requires
        plan.wf(),
        idx < plan.num_recv_tiles,
    ensures
        all_admitted(
            all_frames(plan.num_frames as nat, plan.frame_size, idx).map_values(
                |f: FrameDesc| Some(f),
            ),
            free_frames_of(planned_sizes(plan), idx as int),
        ),
{
    let frames = all_frames(plan.num_frames as nat, plan.frame_size, idx);
    assert forall|i: int| 0 <= i < frames.len() implies frame_admissible(
        #[trigger] frames[i],
        planned_sizes(plan),
    ) by {
        law_region_is_cut_into_frames(plan.num_frames, plan.frame_size, idx, i, i);
    }
}

/// What a new pool shares is all of its frames.
proof fn lemma_new_pool_starts_with_all_frames(memory: ProxyMemory, pool: Pool, plan: PoolPlan)
    requires
        pool.has_regions(plan, plan.num_recv_tiles as int),
        pool.has_packet_rings(plan, plan.num_fwd_tiles as int),
        memory.shares_regions(plan, plan.num_recv_tiles as int),
        memory.shares_packet_rings(plan, plan.num_fwd_tiles as int),
        memory.shares_frames_of(pool, plan.num_recv_tiles as int),
        memory.shares_packets_of(pool, plan.num_fwd_tiles as int),
    ensures
        memory.starts_with_all_frames(plan),
{
    assert forall|i: int| 0 <= i < memory.fill_tx_vec@.len() implies is_fresh_pair(
        #[trigger] memory.fill_tx_vec@[i],
        memory.fill_rx_vec@[i],
        all_frames(plan.num_frames as nat, plan.frame_size, i as usize),
    ) by {
        assert(pool.fill_rings@[i].wf());
        lemma_all_published(
            pool.fill_rings@[i]@.pending,
            all_frames(plan.num_frames as nat, plan.frame_size, i as usize),
        );
    }
    assert forall|i: int| 0 <= i < memory.packet_tx_vec@.len() implies is_fresh_pair(
        #[trigger] memory.packet_tx_vec@[i],
        memory.packet_rx_vec@[i],
        Seq::<TritonPacket>::empty(),
    ) by {
        assert(pool.packet_rings@[i].wf());
    }
}

/// Shares the memory of the proxy between its threads.
pub fn share_pool(pool: Pool, plan: &PoolPlan) -> (memory: ProxyMemory)
    requires
        plan.wf(),
        pool.is_shareable(*plan),
    ensures
        memory.shares_regions(*plan, plan.num_recv_tiles as int),
        memory.shares_packet_rings(*plan, plan.num_fwd_tiles as int),
        memory.shares_frames_of(pool, plan.num_recv_tiles as int),
        memory.shares_packets_of(pool, plan.num_fwd_tiles as int),
        region_sizes(memory.regions@) == planned_sizes(*plan),
{
    let ghost whole = pool;
    let mut regions: Vec<SharedMem> = pool.regions;
    let mut fill_rings: Vec<RingInner<FrameDesc>> = pool.fill_rings;
    let mut packet_rings: Vec<RingInner<TritonPacket>> = pool.packet_rings;
    let mut memory = ProxyMemory {
        regions: Vec::new(),
        burst_logs: Vec::new(),
        shmem_info_vec: Vec::new(),
        fill_tx_vec: Vec::new(),
        fill_rx_vec: Vec::new(),
        packet_tx_vec: Vec::new(),
        packet_rx_vec: Vec::new(),
    };
    let mut i: usize = 0;
    while i < plan.num_recv_tiles
        invariant
            plan.wf(),
            whole.is_shareable(*plan),
            i <= plan.num_recv_tiles,
            regions@ =~= whole.regions@.skip(i as int),
            fill_rings@ =~= whole.fill_rings@.skip(i as int),
            memory.shares_regions(*plan, i as int),
            memory.shares_frames_of(whole, i as int),
            memory.shares_packet_rings(*plan, 0),
        decreases plan.num_recv_tiles - i,
    {
        let shmem: SharedMem = regions.remove(0);
        assert(shmem == whole.regions@[i as int]);
        let ring: RingInner<FrameDesc> = fill_rings.remove(0);
        assert(ring == whole.fill_rings@[i as int]);
        memory.shmem_info_vec.push(SharedMemInfo { start_ptr: shmem.start(), len: shmem.len() });
        let (region, burst_log) = Region::new(shmem);
        memory.regions.push(region);
        memory.burst_logs.push(burst_log);
        let (fill_tx, fill_rx) = share_ring(
            ring,
            Ghost(free_frames_of(planned_sizes(*plan), i as int)),
        );
        memory.fill_tx_vec.push(fill_tx);
        memory.fill_rx_vec.push(fill_rx);
        i += 1;
    }
    let mut j: usize = 0;
    while j < plan.num_fwd_tiles
        invariant
            plan.wf(),
            whole.is_shareable(*plan),
            j <= plan.num_fwd_tiles,
            packet_rings@ =~= whole.packet_rings@.skip(j as int),
            memory.shares_regions(*plan, plan.num_recv_tiles as int),
            memory.shares_frames_of(whole, plan.num_recv_tiles as int),
            memory.shares_packet_rings(*plan, j as int),
            memory.shares_packets_of(whole, j as int),
        decreases plan.num_fwd_tiles - j,
    {
        let ring: RingInner<TritonPacket> = packet_rings.remove(0);
        assert(ring == whole.packet_rings@[j as int]);
        let (packet_tx, packet_rx) = share_ring(ring, Ghost(packets_in(planned_sizes(*plan))));
        memory.packet_tx_vec.push(packet_tx);
        memory.packet_rx_vec.push(packet_rx);
        j += 1;
    }
    assert(region_sizes(memory.regions@) =~= planned_sizes(*plan));
    memory
}

/// Shares a new pool, if there is one, between the threads of the proxy. Fails
/// when there is none, and only then.
pub fn share_new_pool(pool: Result<Pool, AllocError>, plan: &PoolPlan) -> (r: Result<
    ProxyMemory,
    AllocError,
>)
    requires
        plan.wf(),
        pool matches Ok(pool) ==> {
            &&& pool.has_regions(*plan, plan.num_recv_tiles as int)
            &&& pool.has_packet_rings(*plan, plan.num_fwd_tiles as int)
        },
    ensures
        r is Ok <==> pool is Ok,
        r matches Ok(memory) ==> {
            &&& memory.shares_regions(*plan, plan.num_recv_tiles as int)
            &&& memory.shares_packet_rings(*plan, plan.num_fwd_tiles as int)
            &&& memory.starts_with_all_frames(*plan)
            &&& region_sizes(memory.regions@) == planned_sizes(*plan)
        },
{
    match pool {
        Ok(pool) => {
            proof {
                assert forall|i: int| 0 <= i < pool.fill_rings@.len() implies all_admitted(
                    (#[trigger] pool.fill_rings@[i])@.pending,
                    free_frames_of(planned_sizes(*plan), i),
                ) by {
                    lemma_planned_frames_admissible(*plan, i as usize);
                }
            }
            let ghost whole = pool;
            let memory: ProxyMemory = share_pool(pool, plan);
            proof {
                lemma_new_pool_starts_with_all_frames(memory, whole, *plan);
            }
            Ok(memory)
        },
        Err(e) => Err(e),
    }
}

/// Allocates the memory of the proxy as planned and shares it between its
/// threads. Fails when the memory cannot be had.
///
/// Whether it can depends on the machine; [`share_new_pool`] states what comes of
/// either.
pub fn proxy_memory(plan: &PoolPlan) -> (r: Result<ProxyMemory, AllocError>)
    requires
        plan.wf(),
    ensures
        r matches Ok(memory) ==> {
            &&& memory.shares_regions(*plan, plan.num_recv_tiles as int)
            &&& memory.shares_packet_rings(*plan, plan.num_fwd_tiles as int)
            &&& memory.starts_with_all_frames(*plan)
            &&& region_sizes(memory.regions@) == planned_sizes(*plan)
        },
{
    share_new_pool(build_pool(plan), plan)
}

/// Why sockets cannot be handed out to receivers.
#[derive(Debug, Clone, Copy, PartialEq, Eq, Structural)]
pub enum SocketCountError {
    /// There are more DoubleZero sockets than receivers.
    TooManyDoublezero(usize, usize),
    /// The number of listening sockets is not that of the receivers.
    WrongListenCount(usize, usize),
    /// The number of multicast sockets is not that of the receivers.
    WrongMulticastCount(usize, usize),
}

/// What is told to a user.
pub open spec fn socket_count_error_text(e: SocketCountError) -> Seq<char> {
    match e {
        SocketCountError::TooManyDoublezero(got, tiles) => count_text(
            "doublezero_v4_sk_vec.len() ("@,
            got as nat,
            ") > num_pkt_recv_tiles ("@,
            tiles as nat,
        ),
        SocketCountError::WrongListenCount(got, tiles) => count_text(
            "pkt_recv_sk_vec.len() ("@,
            got as nat,
            ") != num_pkt_recv_tiles ("@,
            tiles as nat,
        ),
        SocketCountError::WrongMulticastCount(got, tiles) => count_text(
            "multicast_sk_vec.len() ("@,
            got as nat,
            ") != num_pkt_recv_tiles ("@,
            tiles as nat,
        ),
    }
}

impl SocketCountError {
    /// What is told to a user.
    pub fn message(&self) -> (m: String)
        ensures
            m@ == socket_count_error_text(*self),
    {
        match self {
            SocketCountError::TooManyDoublezero(got, tiles) => count_message(
                "doublezero_v4_sk_vec.len() (",
                *got,
                ") > num_pkt_recv_tiles (",
                *tiles,
            ),
            SocketCountError::WrongListenCount(got, tiles) => count_message(
                "pkt_recv_sk_vec.len() (",
                *got,
                ") != num_pkt_recv_tiles (",
                *tiles,
            ),
            SocketCountError::WrongMulticastCount(got, tiles) => count_message(
                "multicast_sk_vec.len() (",
                *got,
                ") != num_pkt_recv_tiles (",
                *tiles,
            ),
        }
    }
}

/// Whether there are as many sockets as `tiles` receivers need.
pub open spec fn spec_check_socket_counts(
    tiles: usize,
    doublezero: usize,
    listening: usize,
    multicast: Option<usize>,
) -> Result<(), SocketCountError> {
    if doublezero > tiles {
        Err(SocketCountError::TooManyDoublezero(doublezero, tiles))
    } else if listening != tiles {
        Err(SocketCountError::WrongListenCount(listening, tiles))
    } else if multicast is Some && multicast->0 != tiles {
        Err(SocketCountError::WrongMulticastCount(multicast->0, tiles))
    } else {
        Ok(())
    }
}

/// Whether there are as many sockets as `tiles` receivers need: one to listen on
/// and, if multicast is used, one for multicast each; of the DoubleZero sockets
/// at most one each.
pub fn check_socket_counts(
    tiles: usize,
    doublezero: usize,
    listening: usize,
    multicast: Option<usize>,
) -> (r: Result<(), SocketCountError>)
    ensures
        r == spec_check_socket_counts(tiles, doublezero, listening, multicast),
        r is Ok <==> doublezero <= tiles && listening == tiles && (multicast is None || multicast
            == Some(tiles)),
{
    if doublezero > tiles {
        return Err(SocketCountError::TooManyDoublezero(doublezero, tiles));
    }
    if listening != tiles {
        return Err(SocketCountError::WrongListenCount(listening, tiles));
    }
    if let Some(n) = multicast {
        if n != tiles {
            return Err(SocketCountError::WrongMulticastCount(n, tiles));
        }
    }
    Ok(())
}

/// A socket that a receiver reads, by its kind.
#[derive(Debug, Clone, Copy, PartialEq, Eq, Structural)]
pub enum SocketSource {
    /// The listening socket with this number.
    Listening(usize),
    /// The multicast socket with this number.
    Multicast(usize),
    /// The DoubleZero socket with this number.
    Doublezero(usize),
}

/// The sockets that receiver `idx` reads: its own, its multicast socket if
/// multicast is used, and its DoubleZero socket if there is one.
pub open spec fn spec_tile_sockets(idx: usize, multicast: bool, doublezero: usize) -> Seq<
    SocketSource,
> {
    let own = seq![SocketSource::Listening(idx)];
    let with_multicast = if multicast {
        own.push(SocketSource::Multicast(idx))
    } else {
        own
    };
    if idx < doublezero {
        with_multicast.push(SocketSource::Doublezero(idx))
    } else {
        with_multicast
    }
}

/// The sockets that receiver `idx` reads.
pub fn tile_sockets(idx: usize, multicast: bool, doublezero: usize) -> (sockets: Vec<SocketSource>)
    ensures
        sockets@ == spec_tile_sockets(idx, multicast, doublezero),
{
    let mut sockets: Vec<SocketSource> = Vec::new();
    sockets.push(SocketSource::Listening(idx));
    if multicast {
        sockets.push(SocketSource::Multicast(idx));
    }
    if idx < doublezero {
        sockets.push(SocketSource::Doublezero(idx));
    }
    assert(sockets@ =~= spec_tile_sockets(idx, multicast, doublezero));
    sockets
}

/// Which socket a forwarder sends through.
#[derive(Debug, Clone, Copy, PartialEq, Eq, Structural)]
pub enum SendSocket {
    /// The IPv6 socket that was bound.
    V6,
    /// An IPv4 socket, for the system does not support IPv6. Its multicast
    /// messages may pass this many routers.
    V4(u32),
    /// None: the IPv6 socket could not be bound for another reason.
    Fail,
}

/// Which socket a forwarder sends through, after an attempt to bind one for IPv6.
pub open spec fn spec_choose_send_socket(outcome: Result<(), Option<i32>>) -> SendSocket {
    match outcome {
        Ok(_) => SendSocket::V6,
        Err(errno) => if errno == Some(EAFNOSUPPORT) {
            SendSocket::V4(IP_MULTICAST_TTL)
        } else {
            SendSocket::Fail
        },
    }
}

/// Which socket a forwarder sends through, after an attempt to bind one for IPv6
/// that failed with the error number `outcome`, if it has one, or went well.
pub fn choose_send_socket(outcome: Result<(), Option<i32>>) -> (choice: SendSocket)
    ensures
        choice == spec_choose_send_socket(outcome),
        choice == SendSocket::V6 <==> outcome is Ok,
        choice == SendSocket::V4(IP_MULTICAST_TTL) <==> outcome == Err::<(), Option<i32>>(
            Some(EAFNOSUPPORT),
        ),
        choice == SendSocket::Fail <==> outcome is Err && outcome->Err_0 != Some(EAFNOSUPPORT),
{
    match outcome {
        Ok(_) => SendSocket::V6,
        Err(Some(errno)) => {
            if errno == EAFNOSUPPORT {
                SendSocket::V4(IP_MULTICAST_TTL)
            } else {
                SendSocket::Fail
            }
        },
        Err(None) => SendSocket::Fail,
    }
}

/// The frames of a region lie within it, begin at multiples of their size, and no
/// two of them share a byte.
pub proof fn law_region_is_cut_into_frames(
    num_frames: usize,
    frame_size: usize,
    shmem_idx: usize,
    i: int,
    j: int,
)
    requires
        power_of_two(frame_size as int),
        num_frames * frame_size <= usize::MAX,
        0 <= i < num_frames,
        0 <= j < num_frames,
    ensures
        ({
            let frames = all_frames(num_frames as nat, frame_size, shmem_idx);
            &&& frames[i].wf()
            &&& frames[i].fits(num_frames * frame_size)
            &&& i != j ==> frames[i].disjoint(&frames[j])
            &&& i != j ==> frames[i] != frames[j]
        }),
{
    lemma_frame_at(num_frames, frame_size, i);
    lemma_frame_at(num_frames, frame_size, j);
    let f = frame_size as int;
    if i < j {
        assert(i * f + f <= j * f) by (nonlinear_arith)
            requires
                i < j,
                f >= 0,
        ;
    }
    if j < i {
        assert(j * f + f <= i * f) by (nonlinear_arith)
            requires
                j < i,
                f >= 0,
        ;
    }
}

proof fn lemma_frame_at(num_frames: usize, frame_size: usize, i: int)
    requires
        power_of_two(frame_size as int),
        num_frames * frame_size <= usize::MAX,
        0 <= i < num_frames,
    ensures
        frame_size > 0,
        0 <= i * frame_size,
        i * frame_size + frame_size <= num_frames * frame_size,
        (i * frame_size) % (frame_size as int) == 0,
{
    crate::bits::lemma_power_of_two_exponent(frame_size);
    let f = frame_size as int;
    assert(0 <= i * f && i * f + f <= num_frames * f) by (nonlinear_arith)
        requires
            0 <= i < num_frames,
            f > 0,
    ;
    vstd::arithmetic::div_mod::lemma_mod_multiples_basic(i, f);
}

} // verus!
