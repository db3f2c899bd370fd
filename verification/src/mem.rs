//! Shared memory regions and the frames that packets are received into.
//!
//! A region is a run of bytes, and an address is an offset from the region's
//! first byte. A region is cut into frames of one size, a power of two, so a
//! frame begins at a multiple of its size. [`FrameDesc`] names a frame,
//! [`FrameBufMut`] writes into one, and [`FrameBuf`] reads what was written.
//! None of them holds the bytes: those stay in [`SharedMem`].

use vstd::prelude::*;
use vstd::slice::slice_subrange;

use crate::bits::{
    lemma_mask_is_mod, lemma_mask_is_round_down, lemma_power_of_two_exponent, power_of_two,
};

verus! {

/// Memory for a shared region or a ring could not be had.
#[derive(Debug, Clone, Copy, PartialEq, Eq, Structural)]
pub struct AllocError;

impl AllocError {
    /// What is told to a user.
    pub fn message(&self) -> (m: &'static str)
        ensures
            m@ == "allocation error"@,
    {
        "allocation error"
    }
}

/// `mem` after `data` is written at `addr`.
pub open spec fn write_bytes(mem: Seq<u8>, addr: int, data: Seq<u8>) -> Seq<u8> {
    mem.take(addr) + data + mem.skip(addr + data.len())
}

/// A region of shared memory.
pub struct SharedMem {
    mem: Vec<u8>,
    capacity: usize,
    huge: bool,
}

impl View for SharedMem {
    type V = Seq<u8>;

    /// The bytes of the region.
    closed spec fn view(&self) -> Seq<u8> {
        self.mem@
    }
}

/// Room for `n` values, if it can be had. Whether it can depends on the machine.
pub(crate) fn try_room<T>(n: usize) -> (r: Result<Vec<T>, AllocError>)
    ensures
        r matches Ok(room) ==> room@.len() == 0,
{
    let mut room: Vec<T> = Vec::new();
    match room.try_reserve(n) {
        Ok(_) => Ok(room),
        Err(_) => Err(AllocError),
    }
}

/// A zeroed region of `capacity` elements of `align` bytes in the room that was
/// had for it. Fails when there is nothing to map (elements of no size) or the
/// room could not be had, and only then.
pub fn region_in_room(
    room: Result<Vec<u8>, AllocError>,
    align: usize,
    capacity: usize,
    huge: bool,
) -> (r: Result<SharedMem, AllocError>)
    requires
        power_of_two(capacity as int),
        capacity * align <= usize::MAX,
    ensures
        r is Ok <==> room is Ok && align > 0,
        r matches Ok(shmem) ==> {
            &&& shmem@ == Seq::new((capacity * align) as nat, |i: int| 0u8)
            &&& shmem.spec_capacity() == capacity
            &&& shmem.spec_huge() == huge
        },
{
    let aligned_size: usize = capacity * align;
    proof {
        lemma_power_of_two_exponent(capacity);
        assert(align == 0 <==> capacity * align == 0) by (nonlinear_arith)
            requires
                capacity > 0,
        ;
    }
    if aligned_size == 0 {
        return Err(AllocError);
    }
    match room {
        Ok(room) => {
            let mut mem: Vec<u8> = room;
            mem.clear();
            mem.resize(aligned_size, 0);
            assert(mem@ =~= Seq::new((capacity * align) as nat, |i: int| 0u8));
            Ok(SharedMem { mem, capacity, huge })
        },
        Err(e) => Err(e),
    }
}

/// A zeroed region of `capacity` elements of `align` bytes. Fails when there is
/// nothing to map (elements of no size) or the memory cannot be had. Whether
/// the region asks for huge pages is recorded for whoever maps it.
///
/// Whether the memory can be had depends on the machine; [`region_in_room`] states
/// what comes of either.
pub fn try_alloc_shared_mem(align: usize, capacity: usize, huge: bool) -> (r: Result<
    SharedMem,
    AllocError,
>)
    requires
        power_of_two(capacity as int),
        capacity * align <= usize::MAX,
    ensures
        align == 0 ==> r is Err,
        r matches Ok(shmem) ==> {
            &&& shmem@ == Seq::new((capacity * align) as nat, |i: int| 0u8)
            &&& shmem.spec_capacity() == capacity
            &&& shmem.spec_huge() == huge
        },
{
    region_in_room(try_room(capacity * align), align, capacity, huge)
}

impl SharedMem {
    /// How many elements the region was made for.
    pub closed spec fn spec_capacity(&self) -> usize {
        self.capacity
    }

    /// Whether the region asks for huge pages.
    pub closed spec fn spec_huge(&self) -> bool {
        self.huge
    }

    /// A zeroed region of `capacity` elements of `element_size` bytes.
    pub fn new(element_size: usize, capacity: usize, huge: bool) -> (r: Result<Self, AllocError>)
        requires
            power_of_two(capacity as int),
            capacity * element_size <= usize::MAX,
        ensures
            element_size == 0 ==> r is Err,
            r matches Ok(shmem) ==> {
                &&& shmem@ == Seq::new((capacity * element_size) as nat, |i: int| 0u8)
                &&& shmem.spec_capacity() == capacity
                &&& shmem.spec_huge() == huge
            },
    {
        try_alloc_shared_mem(element_size, capacity, huge)
    }

    /// The address of the region's first byte.
    pub fn start(&self) -> (addr: usize)
        ensures
            addr == 0,
    {
        0
    }

    /// The region's size in bytes.
    pub fn len(&self) -> (n: usize)
        ensures
            n == self@.len(),
    {
        self.mem.len()
    }

    /// How many elements the region was made for.
    pub fn capacity(&self) -> (n: usize)
        ensures
            n == self.spec_capacity(),
    {
        self.capacity
    }

    /// Whether the region asks for huge pages.
    pub fn wants_huge_pages(&self) -> (b: bool)
        ensures
            b == self.spec_huge(),
    {
        self.huge
    }

    /// The `len` bytes at `addr`.
    pub fn read(&self, addr: usize, len: usize) -> (bytes: &[u8])
        requires
            addr + len <= self@.len(),
        ensures
            bytes@ == self@.subrange(addr as int, addr + len),
    {
        assert(self.mem@.len() == self.mem.len());
        slice_subrange(self.mem.as_slice(), addr, addr + len)
    }

    /// The `len` bytes at `addr`, to be overwritten.
    pub fn slice_mut(&mut self, addr: usize, len: usize) -> (bytes: &mut [u8])
        requires
            addr + len <= old(self)@.len(),
        ensures
            bytes@ == old(self)@.subrange(addr as int, addr + len),
            final(bytes)@.len() == len ==> final(self)@ == write_bytes(
                old(self)@,
                addr as int,
                final(bytes)@,
            ),
            final(self).spec_capacity() == old(self).spec_capacity(),
            final(self).spec_huge() == old(self).spec_huge(),
    {
        let (_, rest) = self.mem.as_mut_slice().split_at_mut(addr);
        let (chunk, _) = rest.split_at_mut(len);
        chunk
    }

    /// Overwrites the bytes at `addr` with `data`.
    pub fn write(&mut self, addr: usize, data: &[u8])
        requires
            addr + data@.len() <= old(self)@.len(),
        ensures
            final(self)@ == write_bytes(old(self)@, addr as int, data@),
            final(self).spec_capacity() == old(self).spec_capacity(),
            final(self).spec_huge() == old(self).spec_huge(),
    {
        let n: usize = data.len();
        let ghost before = self.mem@;
        let mut i: usize = 0;
        while i < n
            invariant
                n == data@.len(),
                i <= n,
                addr + n <= before.len(),
                self.mem@ == write_bytes(before, addr as int, data@.take(i as int)),
                self.capacity == old(self).capacity,
                self.huge == old(self).huge,
            decreases n - i,
        {
            assert(self.mem@.len() == self.mem.len());
            self.mem.set(addr + i, data[i]);
            i += 1;
            assert(self.mem@ =~= write_bytes(before, addr as int, data@.take(i as int)));
        }
        assert(data@.take(n as int) =~= data@);
    }
}

/// A frame of a region.
#[derive(Debug, PartialEq, Eq, Structural)]
pub struct FrameDesc {
    /// The address of the frame's first byte.
    pub ptr: usize,
    /// The frame's size in bytes.
    pub frame_size: usize,
    /// Which region the frame belongs to.
    pub shmem_idx: usize,
}

impl FrameDesc {
    /// The frame's size is a power of two and its address a multiple of it.
    pub open spec fn wf(&self) -> bool {
        &&& power_of_two(self.frame_size as int)
        &&& self.ptr % self.frame_size == 0
    }

    /// The frame lies within a region of `len` bytes.
    pub open spec fn fits(&self, len: int) -> bool {
        self.ptr + self.frame_size <= len
    }

    /// The frame shares no byte with `other` of the same region.
    pub open spec fn disjoint(&self, other: &FrameDesc) -> bool {
        self.ptr + self.frame_size <= other.ptr || other.ptr + other.frame_size <= self.ptr
    }

    /// A writer at the beginning of the frame.
    pub fn as_mut_buf(&self) -> (buf: FrameBufMut)
        ensures
            buf.spec_ptr() == self.ptr,
            buf.spec_desc() == *self,
    {
        FrameBufMut {
            ptr: self.ptr,
            desc: FrameDesc {
                ptr: self.ptr,
                frame_size: self.frame_size,
                shmem_idx: self.shmem_idx,
            },
        }
    }
}

/// A writer into a frame.
#[derive(Debug)]
pub struct FrameBufMut {
    ptr: usize,
    desc: FrameDesc,
}

/// A reader of what was written into a frame.
#[derive(Debug)]
pub struct FrameBuf {
    curr_ptr: usize,
    len: usize,
    desc: FrameDesc,
}

impl FrameBufMut {
    #[verifier::type_invariant]
    closed spec fn in_order(self) -> bool {
        self.desc.ptr <= self.ptr
    }

    /// The address of the next byte to be written.
    pub closed spec fn spec_ptr(&self) -> usize {
        self.ptr
    }

    /// The frame that is written into.
    pub closed spec fn spec_desc(&self) -> FrameDesc {
        self.desc
    }

    /// The number of bytes up to the next multiple of the frame's size.
    pub open spec fn spec_remaining(&self) -> int {
        self.spec_desc().frame_size - (self.spec_ptr() & ((self.spec_desc().frame_size
            - 1) as usize))
    }

    /// The number of bytes between the writer and the end of its frame.
    pub open spec fn spec_room(&self) -> int {
        let used = self.spec_ptr() - self.spec_desc().ptr;
        if used <= self.spec_desc().frame_size {
            self.spec_desc().frame_size - used
        } else {
            0
        }
    }

    /// The writer stands within its frame or at its end.
    pub open spec fn wf(&self) -> bool {
        &&& self.spec_desc().wf()
        &&& self.spec_desc().ptr <= self.spec_ptr() <= self.spec_desc().ptr
            + self.spec_desc().frame_size
    }

    /// The address of the next byte to be written.
    pub fn as_mut_ptr(&self) -> (addr: usize)
        ensures
            addr == self.spec_ptr(),
    {
        self.ptr
    }

    /// The frame that is written into.
    pub fn desc(&self) -> (desc: &FrameDesc)
        ensures
            *desc == self.spec_desc(),
    {
        &self.desc
    }

    /// The writer's address rounded down to a multiple of the frame's size.
    /// Within the frame that is where the frame begins; at the frame's end it
    /// is where the next one does.
    pub fn base(&self) -> (addr: usize)
        requires
            self.spec_desc().frame_size > 0,
        ensures
            addr == self.spec_ptr() & !((self.spec_desc().frame_size - 1) as usize),
            addr <= self.spec_ptr(),
            power_of_two(self.spec_desc().frame_size as int) ==> addr == self.spec_ptr()
                - self.spec_ptr() % self.spec_desc().frame_size,
    {
        let low: usize = self.desc.frame_size - 1;
        proof {
            let p = self.ptr;
            assert(p & !low <= p) by (bit_vector);
            if power_of_two(self.desc.frame_size as int) {
                lemma_mask_is_round_down(self.ptr, self.desc.frame_size);
            }
        }
        self.ptr & !low
    }

    /// How far the writer stands behind [`base`](Self::base).
    pub fn len(&self) -> (n: usize)
        requires
            self.spec_desc().frame_size > 0,
        ensures
            n == self.spec_ptr() & ((self.spec_desc().frame_size - 1) as usize),
            power_of_two(self.spec_desc().frame_size as int) ==> n == self.spec_ptr()
                % self.spec_desc().frame_size,
    {
        let base: usize = self.base();
        proof {
            let p = self.ptr;
            let low: usize = (self.desc.frame_size - 1) as usize;
            assert((p & !low) + (p & low) == p) by (bit_vector);
            if power_of_two(self.desc.frame_size as int) {
                lemma_mask_is_mod(self.ptr, self.desc.frame_size);
            }
        }
        self.ptr - base
    }

    /// The frame's size.
    pub fn capacity(&self) -> (n: usize)
        ensures
            n == self.spec_desc().frame_size,
    {
        self.desc.frame_size
    }

    /// [`base`](Self::base) as the address of a `T`.
    pub fn cast_to<T>(&self) -> (addr: usize)
        requires
            self.spec_desc().frame_size > 0,
        ensures
            addr == self.spec_ptr() & !((self.spec_desc().frame_size - 1) as usize),
            addr <= self.spec_ptr(),
            power_of_two(self.spec_desc().frame_size as int) ==> addr == self.spec_ptr()
                - self.spec_ptr() % self.spec_desc().frame_size,
    {
        self.base()
    }

    /// How many bytes can be written before the next multiple of the frame's size.
    pub fn remaining_mut(&self) -> (n: usize)
        requires
            self.spec_desc().frame_size > 0,
        ensures
            n == self.spec_remaining(),
            0 < n <= self.spec_desc().frame_size,
            power_of_two(self.spec_desc().frame_size as int) ==> n
                == self.spec_desc().frame_size - self.spec_ptr() % self.spec_desc().frame_size,
    {
        let low: usize = self.desc.frame_size - 1;
        proof {
            let p = self.ptr;
            assert(p & low <= low) by (bit_vector);
            if power_of_two(self.desc.frame_size as int) {
                lemma_mask_is_mod(self.ptr, self.desc.frame_size);
            }
        }
        let frame_offset: usize = self.ptr & low;
        self.desc.frame_size - frame_offset
    }

    /// How many bytes of the frame lie behind the writer's place.
    pub fn room(&self) -> (n: usize)
        ensures
            n == self.spec_room(),
            self.spec_desc().ptr <= self.spec_ptr(),
    {
        proof {
            use_type_invariant(self);
        }
        let used: usize = self.ptr - self.desc.ptr;
        if used <= self.desc.frame_size {
            self.desc.frame_size - used
        } else {
            0
        }
    }

    /// Moves the writer over `cnt` bytes.
    pub fn advance_mut(&mut self, cnt: usize)
        requires
            old(self).spec_desc().frame_size > 0,
            cnt <= old(self).spec_remaining(),
            old(self).spec_ptr() + cnt <= usize::MAX,
        ensures
            final(self).spec_ptr() == old(self).spec_ptr() + cnt,
            final(self).spec_desc() == old(self).spec_desc(),
    {
        proof {
            use_type_invariant(&*self);
        }
        self.ptr = self.ptr + cnt;
    }

    /// Moves the writer to `offset` bytes behind the beginning of its frame.
    pub fn seek(&mut self, offset: usize)
        requires
            offset <= old(self).spec_desc().frame_size,
            old(self).spec_desc().ptr + offset <= usize::MAX,
        ensures
            final(self).spec_ptr() == old(self).spec_desc().ptr + offset,
            final(self).spec_desc() == old(self).spec_desc(),
    {
        self.ptr = self.desc.ptr + offset;
    }

    /// The bytes that can be written before the next multiple of the frame's size.
    pub fn chunk_mut<'a>(&self, mem: &'a mut SharedMem) -> (bytes: &'a mut [u8])
        requires
            self.spec_desc().frame_size > 0,
            self.spec_ptr() + self.spec_remaining() <= old(mem)@.len(),
        ensures
            bytes@ == old(mem)@.subrange(
                self.spec_ptr() as int,
                self.spec_ptr() + self.spec_remaining(),
            ),
            final(bytes)@.len() == self.spec_remaining() ==> final(mem)@ == write_bytes(
                old(mem)@,
                self.spec_ptr() as int,
                final(bytes)@,
            ),
            final(mem).spec_capacity() == old(mem).spec_capacity(),
            final(mem).spec_huge() == old(mem).spec_huge(),
    {
        mem.slice_mut(self.ptr, self.remaining_mut())
    }

    /// Writes `data` and moves behind it.
    pub fn put_slice(&mut self, mem: &mut SharedMem, data: &[u8])
        requires
            old(self).spec_desc().frame_size > 0,
            data@.len() <= old(self).spec_remaining(),
            old(self).spec_ptr() + data@.len() <= old(mem)@.len(),
        ensures
            final(mem)@ == write_bytes(old(mem)@, old(self).spec_ptr() as int, data@),
            final(mem).spec_capacity() == old(mem).spec_capacity(),
            final(mem).spec_huge() == old(mem).spec_huge(),
            final(self).spec_ptr() == old(self).spec_ptr() + data@.len(),
            final(self).spec_desc() == old(self).spec_desc(),
    {
        let n: usize = mem.len();
        mem.write(self.ptr, data);
        self.advance_mut(data.len());
    }

    /// Writes `n` with its most significant byte first and moves behind it.
    pub fn put_u32(&mut self, mem: &mut SharedMem, n: u32)
        requires
            old(self).spec_desc().frame_size > 0,
            4 <= old(self).spec_remaining(),
            old(self).spec_ptr() + 4 <= old(mem)@.len(),
        ensures
            final(mem)@ == write_bytes(old(mem)@, old(self).spec_ptr() as int, big_endian(n)),
            final(mem).spec_capacity() == old(mem).spec_capacity(),
            final(mem).spec_huge() == old(mem).spec_huge(),
            final(self).spec_ptr() == old(self).spec_ptr() + 4,
            final(self).spec_desc() == old(self).spec_desc(),
    {
        let bytes: [u8; 4] = [
            (n / 0x100_0000) as u8,
            (n / 0x1_0000 % 0x100) as u8,
            (n / 0x100 % 0x100) as u8,
            (n % 0x100) as u8,
        ];
        assert(bytes@ =~= big_endian(n));
        self.put_slice(mem, bytes.as_slice());
    }

    /// The reader of what lies between the beginning of the frame and the writer.
    pub fn freeze(self) -> (buf: FrameBuf)
        ensures
            buf.start() == self.spec_desc().ptr,
            buf.end() == self.spec_ptr(),
            buf.spec_desc() == self.spec_desc(),
    {
        proof {
            use_type_invariant(&self);
        }
        let len: usize = self.ptr - self.desc.ptr;
        FrameBuf { curr_ptr: self.desc.ptr, len, desc: self.desc }
    }

    /// Gives up the writer and keeps the frame.
    pub fn into_desc(self) -> (desc: FrameDesc)
        ensures
            desc == self.spec_desc(),
    {
        self.desc
    }
}

/// The four bytes of `n`, the most significant first.
pub open spec fn big_endian(n: u32) -> Seq<u8> {
    seq![
        (n / 0x100_0000) as u8,
        (n / 0x1_0000 % 0x100) as u8,
        (n / 0x100 % 0x100) as u8,
        (n % 0x100) as u8,
    ]
}

impl FrameBuf {
    #[verifier::type_invariant]
    closed spec fn in_order(self) -> bool {
        &&& self.desc.ptr <= self.curr_ptr <= self.desc.ptr + self.len
        &&& self.desc.ptr + self.len <= usize::MAX
    }

    /// The address of the next byte to be read.
    pub closed spec fn start(&self) -> int {
        self.curr_ptr as int
    }

    /// The address behind the last byte to be read.
    pub closed spec fn end(&self) -> int {
        self.desc.ptr + self.len
    }

    /// The frame that is read.
    pub closed spec fn spec_desc(&self) -> FrameDesc {
        self.desc
    }

    /// The bytes to be read, in a region that holds `mem`.
    pub open spec fn bytes(&self, mem: Seq<u8>) -> Seq<u8> {
        mem.subrange(self.start(), self.end())
    }

    /// What is read lies within the frame.
    pub open spec fn wf(&self) -> bool {
        &&& self.spec_desc().wf()
        &&& self.spec_desc().ptr <= self.start() <= self.end()
        &&& self.end() <= self.spec_desc().ptr + self.spec_desc().frame_size
    }

    /// How many bytes are left to be read.
    pub fn len(&self) -> (n: usize)
        ensures
            n == self.end() - self.start(),
            self.spec_desc().ptr <= self.start() <= self.end() <= usize::MAX,
    {
        self.remaining()
    }

    /// How many bytes are left to be read.
    pub fn remaining(&self) -> (n: usize)
        ensures
            n == self.end() - self.start(),
            self.spec_desc().ptr <= self.start() <= self.end() <= usize::MAX,
    {
        proof {
            use_type_invariant(self);
        }
        let end: usize = self.desc.ptr + self.len;
        end - self.curr_ptr
    }

    /// The bytes left to be read.
    pub fn chunk<'a>(&self, mem: &'a SharedMem) -> (bytes: &'a [u8])
        requires
            self.end() <= mem@.len(),
        ensures
            bytes@ == self.bytes(mem@),
            bytes@.len() == self.end() - self.start(),
    {
        proof {
            use_type_invariant(self);
        }
        mem.read(self.curr_ptr, self.remaining())
    }

    /// A copy of the bytes left to be read.
    pub fn to_vec(&self, mem: &SharedMem) -> (bytes: Vec<u8>)
        requires
            self.end() <= mem@.len(),
        ensures
            bytes@ == self.bytes(mem@),
            bytes@.len() == self.end() - self.start(),
    {
        vstd::slice::slice_to_vec(self.chunk(mem))
    }

    /// Skips `cnt` bytes.
    pub fn advance(&mut self, cnt: usize)
        requires
            cnt <= old(self).end() - old(self).start(),
        ensures
            final(self).start() == old(self).start() + cnt,
            final(self).end() == old(self).end(),
            final(self).spec_desc() == old(self).spec_desc(),
    {
        proof {
            use_type_invariant(&*self);
        }
        self.curr_ptr = self.curr_ptr + cnt;
    }

    /// Which region the frame belongs to.
    pub fn shmem_idx(&self) -> (idx: usize)
        ensures
            idx == self.spec_desc().shmem_idx,
    {
        self.desc.shmem_idx
    }

    /// Gives up the reader and keeps the frame.
    pub fn into_inner(self) -> (desc: FrameDesc)
        ensures
            desc == self.spec_desc(),
    {
        self.desc
    }

    /// A second name for the frame. Whoever hands the frame out again must see
    /// to it that this reader is done by then.
    pub fn detach_desc(&self) -> (desc: FrameDesc)
        ensures
            desc == self.spec_desc(),
    {
        FrameDesc {
            ptr: self.desc.ptr,
            frame_size: self.desc.frame_size,
            shmem_idx: self.desc.shmem_idx,
        }
    }

    /// A second reader, of the `len` bytes behind the next `offset`.
    pub fn subslice_clone(&self, offset: usize, len: usize) -> (buf: FrameBuf)
        requires
            offset + len <= self.end() - self.start(),
        ensures
            buf.start() == self.start() + offset,
            buf.end() == self.start() + offset + len,
            buf.spec_desc() == self.spec_desc(),
    {
        proof {
            use_type_invariant(self);
        }
        let curr_ptr: usize = self.curr_ptr + offset;
        FrameBuf {
            curr_ptr,
            len: curr_ptr + len - self.desc.ptr,
            desc: self.detach_desc(),
        }
    }
}

impl From<FrameDesc> for FrameBufMut {
    fn from(desc: FrameDesc) -> (buf: Self)
        ensures
            buf.spec_ptr() == desc.ptr,
            buf.spec_desc() == desc,
    {
        FrameBufMut { ptr: desc.ptr, desc }
    }
}

impl vstd::std_specs::convert::FromSpecImpl<FrameDesc> for FrameBufMut {
    open spec fn obeys_from_spec() -> bool {
        true
    }

    closed spec fn from_spec(desc: FrameDesc) -> Self {
        FrameBufMut { ptr: desc.ptr, desc }
    }
}

impl From<FrameBufMut> for FrameBuf {
    fn from(buf_mut: FrameBufMut) -> (buf: Self)
        ensures
            buf.start() == buf_mut.spec_desc().ptr,
            buf.end() == buf_mut.spec_ptr(),
            buf.spec_desc() == buf_mut.spec_desc(),
    {
        buf_mut.freeze()
    }
}

impl vstd::std_specs::convert::FromSpecImpl<FrameBufMut> for FrameBuf {
    open spec fn obeys_from_spec() -> bool {
        true
    }

    closed spec fn from_spec(buf_mut: FrameBufMut) -> Self {
        FrameBuf {
            curr_ptr: buf_mut.desc.ptr,
            len: (buf_mut.ptr - buf_mut.desc.ptr) as usize,
            desc: buf_mut.desc,
        }
    }
}

} // verus!
