//! Which forwarder a packet goes to.

use vstd::prelude::*;

use crate::mem::SharedMem;
use crate::packet::TritonPacket;

verus! {

/// Where the slot number stands in a shred: behind the signature and the variant.
pub const SLOT_OFFSET: usize = 65;

/// Where the index of the FEC set stands in a shred.
pub const FEC_SET_INDEX_OFFSET: usize = 79;

/// The factor with which [`hash_pair`] mixes.
pub const MIX_FACTOR: u64 = 0xff51afd7ed558ccd;

/// The number that bytes write, the least significant first.
pub open spec fn little_endian_value(bytes: Seq<u8>) -> nat
    decreases bytes.len(),
{
    if bytes.len() == 0 {
        0
    } else {
        bytes[0] as nat + 256 * little_endian_value(bytes.drop_first())
    }
}

/// The `n` bytes at `at`, if there are as many.
pub open spec fn field(shred: Seq<u8>, at: int, n: int) -> Option<Seq<u8>> {
    if at + n <= shred.len() {
        Some(shred.subrange(at, at + n))
    } else {
        None
    }
}

/// The number that the `n` bytes at `at` write, the least significant first.
fn read_little_endian(bytes: &[u8], at: usize, n: usize) -> (value: u64)
    requires
        n <= 8,
        at + n <= bytes@.len(),
    ensures
        value == little_endian_value(bytes@.subrange(at as int, at + n)),
        value < vstd::arithmetic::power::pow(256, n as nat),
{
    let mut value: u64 = 0;
    let mut left: usize = n;
    proof {
        vstd::arithmetic::power::lemma_pow0(256);
        assert(bytes@.subrange(at + n, at + n) =~= Seq::<u8>::empty());
    }
    while left > 0
        invariant
            left <= n <= 8,
            at + n <= bytes@.len(),
            value == little_endian_value(bytes@.subrange(at + left, at + n)),
            value < vstd::arithmetic::power::pow(256, (n - left) as nat),
        decreases left,
    {
        let ghost tail = bytes@.subrange(at + left, at + n);
        let ghost bound = vstd::arithmetic::power::pow(256, (n - left) as nat);
        left -= 1;
        let ghost next = bytes@.subrange(at + left, at + n);
        assert(next.drop_first() =~= tail);
        proof {
            vstd::arithmetic::power::lemma_pow1(256);
            vstd::arithmetic::power::lemma_pow_adds(256, (n - left - 1) as nat, 1);
            vstd::arithmetic::power::lemma_pow_increases(256, (n - left) as nat, 8);
            vstd::layout::unsigned_int_max_values();
            broadcast use vstd::layout::layout_of_primitives;

        }
        assert(bytes@.len() == bytes.len());
        assert(bytes[at + left] as int + 256 * value < 256 * bound);
        assert(vstd::arithmetic::power::pow(256, (n - left) as nat) == 256 * bound);
        value = bytes[at + left] as u64 + 256 * value;
    }
    value
}

/// The slot number of a shred, if the shred is long enough to hold one.
pub open spec fn spec_get_slot(shred: Seq<u8>) -> Option<u64> {
    match field(shred, SLOT_OFFSET as int, 8) {
        Some(bytes) => Some(little_endian_value(bytes) as u64),
        None => None,
    }
}

/// The slot number of a shred, if the shred is long enough to hold one.
pub fn get_slot(shred: &[u8]) -> (slot: Option<u64>)
    ensures
        slot == spec_get_slot(shred@),
{
    if shred.len() < SLOT_OFFSET + 8 {
        None
    } else {
        Some(read_little_endian(shred, SLOT_OFFSET, 8))
    }
}

/// The index of a shred's FEC set, if the shred is long enough to hold one.
pub open spec fn spec_get_fec_set_index(shred: Seq<u8>) -> Option<u32> {
    match field(shred, FEC_SET_INDEX_OFFSET as int, 4) {
        Some(bytes) => Some(little_endian_value(bytes) as u32),
        None => None,
    }
}

/// The index of a shred's FEC set, if the shred is long enough to hold one.
pub fn get_fec_set_index(shred: &[u8]) -> (index: Option<u32>)
    ensures
        index == spec_get_fec_set_index(shred@),
{
    if shred.len() < FEC_SET_INDEX_OFFSET + 4 {
        None
    } else {
        let value: u64 = read_little_endian(shred, FEC_SET_INDEX_OFFSET, 4);
        proof {
            vstd::layout::unsigned_int_max_values();
            broadcast use vstd::layout::layout_of_primitives;

        }
        Some(value as u32)
    }
}

/// One round of folding the upper bits onto the lower ones.
pub open spec fn fold(h: u64) -> u64 {
    h ^ (h >> 33)
}

/// A slot number and an index in one word.
pub open spec fn combine(x: u64, y: u32) -> u64 {
    x ^ ((y as u64) << 32)
}

/// The hash of a slot number and an index.
pub open spec fn spec_hash_pair(x: u64, y: u32) -> u64 {
    fold(fold(combine(x, y)).wrapping_mul(MIX_FACTOR))
}

/// The hash of a slot number and an index.
pub fn hash_pair(x: u64, y: u32) -> (h: u64)
    ensures
        h == spec_hash_pair(x, y),
{
    let mut h: u64 = x ^ ((y as u64) << 32);
    h = h ^ (h >> 33);
    h = h.wrapping_mul(MIX_FACTOR);
    h = h ^ (h >> 33);
    h
}

/// Folding loses nothing.
proof fn lemma_fold_one_to_one(a: u64, b: u64)
    requires
        fold(a) == fold(b),
    ensures
        a == b,
{
    assert(a ^ (a >> 33) == b ^ (b >> 33) ==> a == b) by (bit_vector);
}

/// Multiplying by the mixing factor loses nothing, for the factor is odd.
proof fn lemma_mix_one_to_one(a: u64, b: u64)
    requires
        a.wrapping_mul(MIX_FACTOR) == b.wrapping_mul(MIX_FACTOR),
    ensures
        a == b,
{
    lemma_unmix(a);
    lemma_unmix(b);
}

/// Multiplying by the inverse of the mixing factor gives the word back.
proof fn lemma_unmix(a: u64)
    ensures
        (a.wrapping_mul(MIX_FACTOR) as int * 0x4f74430c22a54005int) % 0x1_0000_0000_0000_0000int == a,
{
    let w = 0x1_0000_0000_0000_0000int;
    let c = MIX_FACTOR as int;
    let d = 0x4f74430c22a54005int;
    let k = 5710046619856821070int;
    let p = a as int * c;
    assert(a.wrapping_mul(MIX_FACTOR) as int == p % w);
    vstd::arithmetic::div_mod::lemma_mul_mod_noop_left(p, d, w);
    assert(c * d == 1 + k * w);
    assert(p * d == a as int + w * (a as int * k)) by (nonlinear_arith)
        requires
            p == a as int * c,
            c * d == 1 + k * w,
    ;
    vstd::arithmetic::div_mod::lemma_mod_multiples_vanish(a as int * k, a as int, w);
    vstd::arithmetic::div_mod::lemma_small_mod(a as nat, w as nat);
}

/// Mixing loses nothing: two pairs have the same hash exactly when their slot
/// number and index give the same word.
pub proof fn law_hash_is_one_to_one_on_words(x1: u64, y1: u32, x2: u64, y2: u32)
    ensures
        spec_hash_pair(x1, y1) == spec_hash_pair(x2, y2) <==> combine(x1, y1) == combine(x2, y2),
{
    if spec_hash_pair(x1, y1) == spec_hash_pair(x2, y2) {
        let a = fold(combine(x1, y1));
        let b = fold(combine(x2, y2));
        lemma_fold_one_to_one(a.wrapping_mul(MIX_FACTOR), b.wrapping_mul(MIX_FACTOR));
        lemma_mix_one_to_one(a, b);
        lemma_fold_one_to_one(combine(x1, y1), combine(x2, y2));
    }
}

/// The hash mixes both of its inputs: of two slots under one index, or two
/// indices under one slot, no two have the same hash.
pub proof fn law_hash_pair_tells_inputs_apart(x1: u64, x2: u64, y1: u32, y2: u32)
    ensures
        x1 != x2 ==> spec_hash_pair(x1, y1) != spec_hash_pair(x2, y1),
        y1 != y2 ==> spec_hash_pair(x1, y1) != spec_hash_pair(x1, y2),
{
    law_hash_is_one_to_one_on_words(x1, y1, x2, y1);
    law_hash_is_one_to_one_on_words(x1, y1, x1, y2);
    assert(x1 ^ ((y1 as u64) << 32) == x2 ^ ((y1 as u64) << 32) ==> x1 == x2) by (bit_vector);
    assert(x1 ^ ((y1 as u64) << 32) == x1 ^ ((y2 as u64) << 32) ==> y1 == y2) by (bit_vector);
}

/// A way to spread packets over forwarders. It may keep a state that changes behind
/// a shared reference, such as a counter: then one packet can go to one forwarder
/// now and to another one later.
pub trait PacketRoutingStrategy: Clone {
    /// `packet` with these bytes can go to `dest`, where there are `num_dest`
    /// forwarders; `None` drops it.
    spec fn may_route(
        &self,
        packet: TritonPacket,
        bytes: Seq<u8>,
        num_dest: usize,
        dest: Option<usize>,
    ) -> bool;

    /// The forwarder, of `num_dest`, that `packet` goes to; `None` drops it.
    fn route_packet(&self, packet: &TritonPacket, mem: &SharedMem, num_dest: usize) -> (dest: Option<
        usize,
    >)
        requires
            packet.buffer.end() <= mem@.len(),
        ensures
            self.may_route(*packet, packet.buffer.bytes(mem@), num_dest, dest),
            dest matches Some(d) ==> d < num_dest,
    ;
}

/// Sends the shreds of one FEC set to one forwarder.
#[derive(Debug, Clone, Copy)]
pub struct FECSetRoutingStrategy;

/// The forwarder for a shred: chosen by its slot and the index of its FEC set.
pub open spec fn fec_set_route(shred: Seq<u8>, num_dest: usize) -> Option<usize> {
    if num_dest == 0 {
        None
    } else {
        match (spec_get_slot(shred), spec_get_fec_set_index(shred)) {
            (Some(slot), Some(index)) => Some(
                ((spec_hash_pair(slot, index) as usize) % num_dest) as usize,
            ),
            _ => None,
        }
    }
}

impl PacketRoutingStrategy for FECSetRoutingStrategy {
    /// A shred always goes to the same forwarder.
    open spec fn may_route(
        &self,
        packet: TritonPacket,
        bytes: Seq<u8>,
        num_dest: usize,
        dest: Option<usize>,
    ) -> bool {
        dest == fec_set_route(bytes, num_dest)
    }

    fn route_packet(&self, packet: &TritonPacket, mem: &SharedMem, num_dest: usize) -> (dest: Option<
        usize,
    >) {
        if num_dest == 0 {
            return None;
        }
        let shred_buf: &[u8] = packet.buffer.chunk(mem);
        match get_slot(shred_buf) {
            Some(slot) => match get_fec_set_index(shred_buf) {
                Some(fec_set_index) => {
                    let hash: u64 = hash_pair(slot, fec_set_index);
                    Some((hash as usize) % num_dest)
                },
                None => None,
            },
            None => None,
        }
    }
}

/// Shreds of one FEC set of one slot all go to the same forwarder, and every
/// shred that is long enough goes to one, if there is any.
pub proof fn law_fec_set_stays_together(a: Seq<u8>, b: Seq<u8>, num_dest: usize)
    requires
        a.len() >= FEC_SET_INDEX_OFFSET + 4,
        b.len() >= FEC_SET_INDEX_OFFSET + 4,
        a.subrange(SLOT_OFFSET as int, SLOT_OFFSET + 8) == b.subrange(
            SLOT_OFFSET as int,
            SLOT_OFFSET + 8,
        ),
        a.subrange(FEC_SET_INDEX_OFFSET as int, FEC_SET_INDEX_OFFSET + 4) == b.subrange(
            FEC_SET_INDEX_OFFSET as int,
            FEC_SET_INDEX_OFFSET + 4,
        ),
        num_dest > 0,
    ensures
        fec_set_route(a, num_dest) == fec_set_route(b, num_dest),
        fec_set_route(a, num_dest) matches Some(d) && d < num_dest,
{
}

/// The number that eight bytes write, the least significant first.
proof fn lemma_eight_bytes(b: Seq<u8>)
    requires
        b.len() == 8,
    ensures
        little_endian_value(b) == b[0] + 0x100 * b[1] + 0x1_0000 * b[2] + 0x100_0000 * b[3]
            + 0x1_0000_0000 * b[4] + 0x100_0000_0000 * b[5] + 0x1_0000_0000_0000 * b[6]
            + 0x100_0000_0000_0000 * b[7],
{
    lemma_four_bytes(b.skip(4));
    reveal_with_fuel(little_endian_value, 5);
    assert(b.drop_first().drop_first().drop_first().drop_first() =~= b.skip(4));
}

/// The number that four bytes write, the least significant first.
proof fn lemma_four_bytes(b: Seq<u8>)
    requires
        b.len() == 4,
    ensures
        little_endian_value(b) == b[0] + 0x100 * b[1] + 0x1_0000 * b[2] + 0x100_0000 * b[3],
{
    reveal_with_fuel(little_endian_value, 5);
    assert(b.drop_first().drop_first().drop_first().drop_first() =~= Seq::<u8>::empty());
}

/// The slot is read from the eight bytes at 65, the least significant first, and
/// from every shred that has them.
pub proof fn law_slot_is_read_where_it_stands(shred: Seq<u8>)
    ensures
        spec_get_slot(shred) is Some <==> shred.len() >= 73,
        shred.len() >= 73 ==> spec_get_slot(shred)->0 == shred[65] + 0x100 * shred[66] + 0x1_0000
            * shred[67] + 0x100_0000 * shred[68] + 0x1_0000_0000 * shred[69] + 0x100_0000_0000
            * shred[70] + 0x1_0000_0000_0000 * shred[71] + 0x100_0000_0000_0000 * shred[72],
{
    if shred.len() >= 73 {
        lemma_eight_bytes(shred.subrange(65, 73));
    }
}

/// The index of the FEC set is read from the four bytes at 79, the least significant
/// first, and from every shred that has them.
pub proof fn law_fec_set_index_is_read_where_it_stands(shred: Seq<u8>)
    ensures
        spec_get_fec_set_index(shred) is Some <==> shred.len() >= 83,
        shred.len() >= 83 ==> spec_get_fec_set_index(shred)->0 == shred[79] + 0x100 * shred[80]
            + 0x1_0000 * shred[81] + 0x100_0000 * shred[82],
{
    if shred.len() >= 83 {
        lemma_four_bytes(shred.subrange(79, 83));
    }
}

/// The hash can be undone: folding, dividing by the odd number that it was multiplied
/// by, modulo the word, and folding again gives the slot with the index in its upper
/// half.
pub proof fn law_hash_can_be_undone(slot: u64, index: u32)
    ensures
        ({
            let h = spec_hash_pair(slot, index);
            let m = h ^ (h >> 33);
            let a = (m * 0x4f74430c22a54005int) % 0x1_0000_0000_0000_0000int;
            &&& (a * 0xff51afd7ed558ccdint) % 0x1_0000_0000_0000_0000int == m
            &&& (a as u64) ^ ((a as u64) >> 33) == slot ^ ((index as u64) << 32)
        }),
{
    let w = combine(slot, index);
    let a = fold(w);
    let m = a.wrapping_mul(MIX_FACTOR);
    let h = fold(m);
    lemma_fold_twice(w);
    lemma_fold_twice(m);
    lemma_unmix(a);
    assert(a * 0xff51afd7ed558ccdint == a as int * MIX_FACTOR as int);
}

/// Folding twice changes nothing.
proof fn lemma_fold_twice(h: u64)
    ensures
        fold(fold(h)) == h,
{
    assert((h ^ (h >> 33)) ^ ((h ^ (h >> 33)) >> 33) == h) by (bit_vector);
}

/// Where a shred goes: to no forwarder if there is none or if the shred is too short to
/// tell its FEC set; else to the one whose number is congruent to the hash of its slot
/// and its index, modulo the number of forwarders.
pub proof fn law_route_is_the_hash_modulo_forwarders(
    router: FECSetRoutingStrategy,
    packet: TritonPacket,
    shred: Seq<u8>,
    num_dest: usize,
    dest: Option<usize>,
)
    requires
        router.may_route(packet, shred, num_dest, dest),
    ensures
        dest is None <==> num_dest == 0 || shred.len() < 83,
        dest matches Some(d) ==> {
            let slot = (shred[65] + 0x100 * shred[66] + 0x1_0000 * shred[67] + 0x100_0000
                * shred[68] + 0x1_0000_0000 * shred[69] + 0x100_0000_0000 * shred[70]
                + 0x1_0000_0000_0000 * shred[71] + 0x100_0000_0000_0000 * shred[72]) as u64;
            let index = (shred[79] + 0x100 * shred[80] + 0x1_0000 * shred[81] + 0x100_0000
                * shred[82]) as u32;
            let hash = spec_hash_pair(slot, index) as usize;
            &&& d < num_dest
            &&& exists|k: int| hash == #[trigger] (k * num_dest) + d
        },
{
    law_slot_is_read_where_it_stands(shred);
    law_fec_set_index_is_read_where_it_stands(shred);
    if let Some(d) = dest {
        let hash = spec_hash_pair(
            spec_get_slot(shred)->0,
            spec_get_fec_set_index(shred)->0,
        ) as usize;
        let n = num_dest as int;
        vstd::arithmetic::div_mod::lemma_fundamental_div_mod(hash as int, n);
        assert(hash == (hash as int / n) * n + d) by (nonlinear_arith)
            requires
                hash == n * (hash as int / n) + (hash as int) % n,
                d == (hash as int) % n,
        ;
    }
}

/// Two shreds share a forwarder exactly if their hashes are congruent modulo the number
/// of forwarders.
pub proof fn law_shreds_share_a_forwarder_with_their_hash(
    router: FECSetRoutingStrategy,
    packet: TritonPacket,
    a: Seq<u8>,
    b: Seq<u8>,
    num_dest: usize,
    to_a: Option<usize>,
    to_b: Option<usize>,
)
    requires
        num_dest > 0,
        a.len() >= 83,
        b.len() >= 83,
        router.may_route(packet, a, num_dest, to_a),
        router.may_route(packet, b, num_dest, to_b),
    ensures
        to_a == to_b <==> ({
            let hash_a = spec_hash_pair(
                spec_get_slot(a)->0,
                spec_get_fec_set_index(a)->0,
            ) as usize;
            let hash_b = spec_hash_pair(
                spec_get_slot(b)->0,
                spec_get_fec_set_index(b)->0,
            ) as usize;
            (hash_a - hash_b) % (num_dest as int) == 0
        }),
{
    law_slot_is_read_where_it_stands(a);
    law_fec_set_index_is_read_where_it_stands(a);
    law_slot_is_read_where_it_stands(b);
    law_fec_set_index_is_read_where_it_stands(b);
    let hash_a = spec_hash_pair(spec_get_slot(a)->0, spec_get_fec_set_index(a)->0) as usize as int;
    let hash_b = spec_hash_pair(spec_get_slot(b)->0, spec_get_fec_set_index(b)->0) as usize as int;
    let n = num_dest as int;
    let da = hash_a % n;
    let db = hash_b % n;
    vstd::arithmetic::div_mod::lemma_fundamental_div_mod(hash_a, n);
    vstd::arithmetic::div_mod::lemma_fundamental_div_mod(hash_b, n);
    vstd::arithmetic::div_mod::lemma_sub_mod_noop(hash_a, hash_b, n);
    if da == db {
        vstd::arithmetic::div_mod::lemma_small_mod(0, n as nat);
    } else if da > db {
        vstd::arithmetic::div_mod::lemma_small_mod((da - db) as nat, n as nat);
    } else {
        vstd::arithmetic::div_mod::lemma_mod_add_multiples_vanish(da - db, n);
        vstd::arithmetic::div_mod::lemma_small_mod((da - db + n) as nat, n as nat);
    }
}

/// The slot that has a given hash under the index 0.
spec fn slot_with_hash(h: u64) -> u64 {
    fold(((fold(h) * 0x4f74430c22a54005int) % 0x1_0000_0000_0000_0000int) as u64)
}

/// Every word is the hash of some slot.
proof fn lemma_every_hash_occurs(h: u64)
    ensures
        spec_hash_pair(slot_with_hash(h), 0) == h,
{
    let w = 0x1_0000_0000_0000_0000int;
    let c = MIX_FACTOR as int;
    let d = 0x4f74430c22a54005int;
    let k = 5710046619856821070int;
    let m = fold(h);
    let p = m as int * d;
    let a = (p % w) as u64;
    let slot = slot_with_hash(h);
    lemma_fold_twice(h);
    lemma_fold_twice(a);
    assert(a == p % w);
    vstd::arithmetic::div_mod::lemma_mul_mod_noop_left(p, c, w);
    assert(c * d == 1 + k * w);
    assert(p * c == m as int + w * (m as int * k)) by (nonlinear_arith)
        requires
            p == m as int * d,
            c * d == 1 + k * w,
    ;
    vstd::arithmetic::div_mod::lemma_mod_multiples_vanish(m as int * k, m as int, w);
    vstd::arithmetic::div_mod::lemma_small_mod(m as nat, w as nat);
    assert(a.wrapping_mul(MIX_FACTOR) == m);
    assert(slot ^ ((0u32 as u64) << 32) == slot) by (bit_vector);
}

/// No forwarder is left out: each of them gets some shred.
pub proof fn law_every_forwarder_gets_some_shred(
    router: FECSetRoutingStrategy,
    packet: TritonPacket,
    num_dest: usize,
    d: usize,
)
    requires
        d < num_dest,
    ensures
        exists|shred: Seq<u8>|
            shred.len() == 83 && #[trigger] router.may_route(packet, shred, num_dest, Some(d)),
{
    let x = slot_with_hash(d as u64);
    lemma_every_hash_occurs(d as u64);
    let shred = Seq::new(
        83,
        |i: int|
            if i == 65 {
                x as u8
            } else if i == 66 {
                (x >> 8) as u8
            } else if i == 67 {
                (x >> 16) as u8
            } else if i == 68 {
                (x >> 24) as u8
            } else if i == 69 {
                (x >> 32) as u8
            } else if i == 70 {
                (x >> 40) as u8
            } else if i == 71 {
                (x >> 48) as u8
            } else if i == 72 {
                (x >> 56) as u8
            } else {
                0u8
            },
    );
    law_slot_is_read_where_it_stands(shred);
    law_fec_set_index_is_read_where_it_stands(shred);
    assert(x == (x as u8) + 0x100 * ((x >> 8) as u8) + 0x1_0000 * ((x >> 16) as u8) + 0x100_0000 * ((x
        >> 24) as u8) + 0x1_0000_0000 * ((x >> 32) as u8) + 0x100_0000_0000 * ((x >> 40) as u8)
        + 0x1_0000_0000_0000 * ((x >> 48) as u8) + 0x100_0000_0000_0000 * ((x >> 56) as u8)) by (
    bit_vector);
    assert(spec_get_slot(shred) == Some(x));
    assert(spec_get_fec_set_index(shred) == Some(0u32));
    vstd::arithmetic::div_mod::lemma_small_mod(d as nat, num_dest as nat);
    assert(router.may_route(packet, shred, num_dest, Some(d)));
}

} // verus!
