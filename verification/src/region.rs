//! The handle through which threads share a region.

use std::sync::Arc;

use vstd::prelude::*;
use vstd::rwlock::{ReadHandle, RwLock, RwLockPredicate, WriteHandle};

use crate::mem::SharedMem;
use crate::region_log::{Burst, BurstLog, RegionBytes};

verus! {

/// What every state of a region shared between threads satisfies: it is the same
/// region, with the same size.
pub struct RegionPredicate {
    pub id: int,
    pub len: nat,
}

impl RwLockPredicate<RegionBytes> for RegionPredicate {
    open spec fn inv(self, bytes: RegionBytes) -> bool {
        &&& bytes.id() == self.id
        &&& bytes@.len() == self.len
    }
}

/// A region shared between threads.
pub struct Region {
    inner: Arc<RwLock<RegionBytes, RegionPredicate>>,
}

impl Clone for Region {
    fn clone(&self) -> (r: Self)
        ensures
            r == *self,
    {
        Region { inner: Arc::clone(&self.inner) }
    }
}

impl Region {
    /// Which region this is.
    pub closed spec fn id(&self) -> int {
        self.inner.pred().id
    }

    /// The region's size in bytes.
    pub closed spec fn spec_len(&self) -> nat {
        self.inner.pred().len
    }

    /// Shares `mem`, and begins the log of what is received into it.
    pub fn new(mem: SharedMem) -> (r: (Self, BurstLog))
        ensures
            r.0.spec_len() == mem@.len(),
            r.1.region() == r.0.id(),
            r.1.bursts() == Seq::<Burst>::empty(),
    {
        let (bytes, burst_log) = RegionBytes::share(mem);
        let ghost pred = RegionPredicate { id: bytes.id(), len: bytes@.len() };
        (Region { inner: Arc::new(RwLock::new(bytes, Ghost(pred))) }, burst_log)
    }

    /// Takes the bytes for exclusive use until they are given back.
    pub(crate) fn take(&self) -> (r: (RegionBytes, WriteHandle<'_, RegionBytes, RegionPredicate>))
        ensures
            r.0.id() == self.id(),
            r.0@.len() == self.spec_len(),
            forall|b: RegionBytes|
                b.id() == self.id() && b@.len() == self.spec_len() ==> #[trigger] r.1.rwlock().inv(
                    b,
                ),
    {
        self.inner.acquire_write()
    }

    /// Gives access to the bytes until the handle is released.
    pub(crate) fn share(&self) -> (handle: ReadHandle<'_, RegionBytes, RegionPredicate>)
        ensures
            handle@.id() == self.id(),
            handle@@.len() == self.spec_len(),
    {
        self.inner.acquire_read()
    }
}

} // verus!
