//! What holds of frames and of the bytes written into them.

use vstd::prelude::*;

use crate::bits::{lemma_mask_is_mod, power_of_two};
use crate::mem::{write_bytes, FrameBuf, FrameBufMut, FrameDesc};

verus! {

/// The remainder of an address within a frame that begins at a multiple of `size`.
pub(crate) proof fn lemma_offset_in_frame(start: int, off: int, size: int)
    requires
        size > 0,
        start % size == 0,
        0 <= off < size,
    ensures
        (start + off) % size == off,
{
    vstd::arithmetic::div_mod::lemma_fundamental_div_mod(start, size);
    vstd::arithmetic::div_mod::lemma_mod_multiples_vanish(start / size, off, size);
    vstd::arithmetic::div_mod::lemma_small_mod(off as nat, size as nat);
}

/// What is written and what remains always make up the whole frame size.
pub proof fn law_len_and_remaining_fill_the_frame(buf: &FrameBufMut)
    requires
        power_of_two(buf.spec_desc().frame_size as int),
    ensures
        buf.spec_ptr() % buf.spec_desc().frame_size + buf.spec_remaining()
            == buf.spec_desc().frame_size,
{
    lemma_mask_is_mod(buf.spec_ptr(), buf.spec_desc().frame_size);
}

/// Before its frame is full, a writer's address rounded down is the frame's
/// beginning, so its length is what was written since.
pub proof fn law_base_is_frame_start(buf: &FrameBufMut)
    requires
        buf.wf(),
        buf.spec_ptr() < buf.spec_desc().ptr + buf.spec_desc().frame_size,
    ensures
        buf.spec_ptr() - buf.spec_ptr() % buf.spec_desc().frame_size == buf.spec_desc().ptr,
        buf.spec_ptr() % buf.spec_desc().frame_size == buf.spec_ptr() - buf.spec_desc().ptr,
        buf.spec_remaining() == buf.spec_desc().ptr + buf.spec_desc().frame_size - buf.spec_ptr(),
        buf.spec_remaining() == buf.spec_room(),
{
    let d = buf.spec_desc();
    lemma_mask_is_mod(buf.spec_ptr(), d.frame_size);
    lemma_offset_in_frame(d.ptr as int, buf.spec_ptr() - d.ptr, d.frame_size as int);
}

/// At the end of its frame a writer is taken for one at the beginning of the
/// next: its length is zero and a whole frame remains, though its own frame has no
/// room.
pub proof fn law_full_frame_counts_as_empty(buf: &FrameBufMut)
    requires
        buf.spec_desc().wf(),
        buf.spec_ptr() == buf.spec_desc().ptr + buf.spec_desc().frame_size,
    ensures
        buf.spec_ptr() % buf.spec_desc().frame_size == 0,
        buf.spec_remaining() == buf.spec_desc().frame_size,
        buf.spec_room() == 0,
{
    let d = buf.spec_desc();
    lemma_mask_is_mod(buf.spec_ptr(), d.frame_size);
    vstd::arithmetic::div_mod::lemma_mod_add_multiples_vanish(d.ptr as int, d.frame_size as int);
}

/// Two different frames of one size share no byte.
pub proof fn law_frames_are_disjoint(a: &FrameDesc, b: &FrameDesc)
    requires
        a.wf(),
        b.wf(),
        a.frame_size == b.frame_size,
        a.ptr != b.ptr,
    ensures
        a.disjoint(b),
{
    lemma_mask_is_mod(a.ptr, a.frame_size);
    let size = a.frame_size as int;
    if a.ptr < b.ptr && b.ptr < a.ptr + size {
        lemma_offset_in_frame(a.ptr as int, b.ptr - a.ptr, size);
    }
    if b.ptr < a.ptr && a.ptr < b.ptr + size {
        lemma_offset_in_frame(b.ptr as int, a.ptr - b.ptr, size);
    }
}

/// What is written at an address is what is read there.
pub proof fn law_written_bytes_are_read_back(mem: Seq<u8>, addr: int, data: Seq<u8>)
    requires
        0 <= addr,
        addr + data.len() <= mem.len(),
    ensures
        write_bytes(mem, addr, data).subrange(addr, addr + data.len()) =~= data,
        write_bytes(mem, addr, data).len() == mem.len(),
{
}

/// Writing one piece behind another is writing both at once.
pub proof fn law_consecutive_writes_join(mem: Seq<u8>, addr: int, a: Seq<u8>, b: Seq<u8>)
    requires
        0 <= addr,
        addr + a.len() + b.len() <= mem.len(),
    ensures
        write_bytes(write_bytes(mem, addr, a), addr + a.len(), b) =~= write_bytes(mem, addr, a + b),
{
}

/// Writing within one frame leaves every reader of a disjoint frame its bytes.
pub proof fn law_write_spares_other_frames(
    mem: Seq<u8>,
    frame: &FrameDesc,
    addr: int,
    data: Seq<u8>,
    other: &FrameBuf,
)
    requires
        frame.ptr <= addr,
        addr + data.len() <= frame.ptr + frame.frame_size <= mem.len(),
        other.wf(),
        other.spec_desc().fits(mem.len() as int),
        frame.disjoint(&other.spec_desc()),
    ensures
        other.bytes(write_bytes(mem, addr, data)) =~= other.bytes(mem),
{
}

/// Writing changes the bytes that are written and no others.
pub proof fn law_write_changes_nothing_else(mem: Seq<u8>, addr: int, data: Seq<u8>, a: int)
    requires
        0 <= addr,
        addr + data.len() <= mem.len(),
        0 <= a < mem.len(),
    ensures
        write_bytes(mem, addr, data)[a] == if addr <= a < addr + data.len() {
            data[a - addr]
        } else {
            mem[a]
        },
{
}

/// The room of a writer is what its frame has behind it; behind the end there is none.
pub proof fn law_room_ends_with_the_frame(buf: &FrameBufMut)
    requires
        buf.spec_desc().ptr <= buf.spec_ptr(),
    ensures
        buf.spec_ptr() <= buf.spec_desc().ptr + buf.spec_desc().frame_size ==> buf.spec_ptr()
            + buf.spec_room() == buf.spec_desc().ptr + buf.spec_desc().frame_size,
        buf.spec_ptr() > buf.spec_desc().ptr + buf.spec_desc().frame_size ==> buf.spec_room() == 0,
{
}

/// What a reader reads are the bytes of its region from its place up to its end.
pub proof fn law_reader_reads_its_bytes(buf: &FrameBuf, mem: Seq<u8>, i: int)
    requires
        0 <= buf.start() <= buf.end() <= mem.len(),
        0 <= i < buf.end() - buf.start(),
    ensures
        buf.bytes(mem).len() == buf.end() - buf.start(),
        buf.bytes(mem)[i] == mem[buf.start() + i],
{
}

/// Two frames are disjoint exactly if no byte is in both; a frame fits exactly if all of
/// its bytes are in the region.
pub proof fn law_disjoint_frames_share_no_byte(a: &FrameDesc, b: &FrameDesc, len: int)
    requires
        a.frame_size > 0,
        b.frame_size > 0,
    ensures
        a.disjoint(b) <==> forall|x: int|
            !(a.ptr <= x < a.ptr + a.frame_size && #[trigger] in_frame(b, x)),
        a.fits(len) <==> forall|x: int| #[trigger] in_frame(a, x) ==> x < len,
{
    if !a.disjoint(b) {
        let x = if a.ptr < b.ptr {
            b.ptr as int
        } else {
            a.ptr as int
        };
        assert(in_frame(b, x));
    }
    assert(in_frame(a, a.ptr + a.frame_size - 1));
}

/// The byte at `x` is in the frame.
pub open spec fn in_frame(frame: &FrameDesc, x: int) -> bool {
    frame.ptr <= x < frame.ptr + frame.frame_size
}

} // verus!
