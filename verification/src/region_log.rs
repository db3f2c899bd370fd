//! The bytes of a region that threads share, and a record in ghost state of what is
//! read from and written into them.
//!
//! [`RegionBytes`] can be used only together with a log: looking at the bytes takes a
//! [`ReadLog`] and grows it, receiving into them takes the one [`BurstLog`] of the
//! region and grows that. Nothing outside this module can change what a log holds. So a
//! log that grew tells which region was used, and how, and a region changes only as its
//! burst log tells.

use vstd::prelude::*;

use crate::io_error::IoErrorKind;
use crate::mem::{FrameBufMut, SharedMem};
use crate::packet::{TritonPacket, PACKET_DATA_SIZE};
use crate::recv_mmsg::{burst_ended, can_receive, complete_burst, ReceivedMsg};

verus! {

/// The bytes of a region, used through logs only.
pub struct RegionBytes {
    mem: SharedMem,
    id: Ghost<int>,
}

/// What a region held when it was looked at.
pub struct Snapshot {
    pub region: int,
    pub bytes: Seq<u8>,
}

/// What was received into a region: into which frames, and which messages.
pub struct Burst {
    pub bufs: Seq<FrameBufMut>,
    pub msgs: Seq<ReceivedMsg>,
}

/// What was seen of regions.
pub struct ReadLog {
    seen: Ghost<Seq<Snapshot>>,
}

/// What was received into a region.
pub struct BurstLog {
    region: Ghost<int>,
    bursts: Ghost<Seq<Burst>>,
}

impl View for RegionBytes {
    type V = Seq<u8>;

    /// The bytes.
    closed spec fn view(&self) -> Seq<u8> {
        self.mem@
    }
}

impl RegionBytes {
    /// Which region this is. Nothing is said of the identity of a region that is
    /// shared anew, so no other region can be shown to have the same.
    pub closed spec fn id(&self) -> int {
        self.id@
    }

    /// Shares `mem`, and begins the log of what is received into it.
    pub fn share(mem: SharedMem) -> (r: (Self, BurstLog))
        ensures
            r.0@ == mem@,
            r.1.region() == r.0.id(),
            r.1.bursts() == Seq::<Burst>::empty(),
    {
        let ghost id: int = arbitrary();
        let log = BurstLog { region: Ghost(id), bursts: Ghost(Seq::empty()) };
        (RegionBytes { mem, id: Ghost(id) }, log)
    }
}

impl ReadLog {
    /// What was seen, from first to last.
    pub closed spec fn seen(&self) -> Seq<Snapshot> {
        self.seen@
    }

    /// Nothing was seen yet.
    pub fn new() -> (log: Self)
        ensures
            log.seen() == Seq::<Snapshot>::empty(),
    {
        ReadLog { seen: Ghost(Seq::empty()) }
    }

    /// Looks at the bytes of a region.
    pub fn look<'a>(&mut self, region: &'a RegionBytes) -> (mem: &'a SharedMem)
        ensures
            mem@ == region@,
            final(self).seen() == old(self).seen().push(
                Snapshot { region: region.id(), bytes: region@ },
            ),
    {
        self.seen = Ghost(self.seen@.push(Snapshot { region: region.id(), bytes: region@ }));
        &region.mem
    }
}

impl BurstLog {
    /// The region that the log belongs to.
    pub closed spec fn region(&self) -> int {
        self.region@
    }

    /// What was received, from first to last.
    pub closed spec fn bursts(&self) -> Seq<Burst> {
        self.bursts@
    }

    /// Ends a burst into the region, as [`complete_burst`] does, and records what was
    /// received.
    pub fn complete(
        &mut self,
        region: &mut RegionBytes,
        inflight: Vec<FrameBufMut>,
        outcome: Result<Vec<ReceivedMsg>, IoErrorKind>,
        fill_buffers: &mut Vec<FrameBufMut>,
        packets: &mut Vec<TritonPacket>,
    ) -> (r: Result<usize, IoErrorKind>)
        requires
            old(region).id() == old(self).region(),
            can_receive(inflight@, old(region)@.len() as int),
            outcome matches Ok(msgs) ==> {
                &&& msgs@.len() <= inflight@.len()
                &&& forall|i: int|
                    0 <= i < msgs@.len() ==> (#[trigger] msgs@[i]).data@.len() <= PACKET_DATA_SIZE
            },
        ensures
            final(region).id() == old(region).id(),
            final(self).region() == old(self).region(),
            burst_ended(
                old(region)@,
                final(region)@,
                inflight@,
                outcome,
                old(fill_buffers)@,
                final(fill_buffers)@,
                old(packets)@,
                final(packets)@,
                r,
            ),
            final(self).bursts() == match outcome {
                Ok(msgs) => old(self).bursts().push(
                    Burst { bufs: inflight@, msgs: msgs@ },
                ),
                Err(_) => old(self).bursts(),
            },
    {
        let ghost bufs = inflight@;
        let ghost received = outcome;
        let r: Result<usize, IoErrorKind> = complete_burst(
            &mut region.mem,
            inflight,
            outcome,
            fill_buffers,
            packets,
        );
        if r.is_ok() {
            self.bursts = Ghost(self.bursts@.push(Burst { bufs, msgs: received->Ok_0@ }));
        }
        r
    }
}

} // verus!
