//! Powers of two on machine words: the rounding and masking that the frame
//! and ring arithmetic is built from.

use vstd::arithmetic::power2::{
    lemma_pow2_adds, lemma_pow2_pos, lemma_pow2_strictly_increases, lemma_pow2_unfold, pow2,
};
use vstd::bits::{lemma_usize_low_bits_mask_is_mod, low_bits_mask};
use vstd::prelude::*;

verus! {

/// The number of values a `usize` can take.
pub open spec fn word() -> int {
    usize::MAX + 1
}

/// `n` is a power of two.
pub open spec fn power_of_two(n: int) -> bool {
    exists|e: nat| n == #[trigger] pow2(e)
}

/// `p` is the smallest power of two that is at least `n`.
pub open spec fn least_power_of_two_from(n: int, p: int) -> bool {
    &&& power_of_two(p)
    &&& n <= p
    &&& forall|q: int| #[trigger] power_of_two(q) && n <= q ==> p <= q
}

/// The exponent of a power of two that fits in a word is below the word's width.
pub proof fn lemma_power_of_two_exponent(n: usize) -> (e: nat)
    requires
        power_of_two(n as int),
    ensures
        n == pow2(e),
        e < usize::BITS,
        n > 0,
{
    let e = choose|e: nat| n == #[trigger] pow2(e);
    vstd::layout::unsigned_int_max_values();
    lemma_pow2_pos(e);
    if e > usize::BITS as nat {
        lemma_pow2_strictly_increases(usize::BITS as nat, e);
    }
    e
}

/// Masking with `m - 1` is the remainder modulo the power of two `m`.
pub proof fn lemma_mask_is_mod(x: usize, m: usize)
    requires
        power_of_two(m as int),
    ensures
        m > 0,
        x & ((m - 1) as usize) == x % m,
{
    let e = lemma_power_of_two_exponent(m);
    lemma_usize_low_bits_mask_is_mod(x, e);
    assert(low_bits_mask(e) == m - 1);
}

/// Masking with `!(m - 1)` rounds down to a multiple of the power of two `m`.
pub proof fn lemma_mask_is_round_down(x: usize, m: usize)
    requires
        power_of_two(m as int),
    ensures
        m > 0,
        x & !((m - 1) as usize) == x - x % m,
{
    lemma_mask_is_mod(x, m);
    let k: usize = (m - 1) as usize;
    assert((x & !k) + (x & k) == x) by (bit_vector);
}

/// A power of two that fits in a word divides the number of word values.
pub proof fn lemma_power_of_two_divides_word(m: usize)
    requires
        power_of_two(m as int),
    ensures
        m > 0,
        word() % (m as int) == 0,
{
    let e = lemma_power_of_two_exponent(m);
    vstd::layout::unsigned_int_max_values();
    let rest = (usize::BITS - e) as nat;
    lemma_pow2_adds(e, rest);
    lemma_pow2_pos(rest);
    vstd::arithmetic::div_mod::lemma_mod_multiples_basic(pow2(rest) as int, pow2(e) as int);
    assert(pow2(rest) * pow2(e) == pow2(e) * pow2(rest)) by (nonlinear_arith);
}

/// Doubling a power of two gives the next one: nothing lies strictly between.
proof fn lemma_no_power_between(p: int, q: int)
    requires
        power_of_two(p),
        power_of_two(q),
        p < q,
    ensures
        2 * p <= q,
        power_of_two(2 * p),
{
    let e = choose|e: nat| p == #[trigger] pow2(e);
    let f = choose|f: nat| q == #[trigger] pow2(f);
    if f <= e {
        if f < e {
            lemma_pow2_strictly_increases(f, e);
        }
        assert(false);
    }
    lemma_pow2_unfold((e + 1) as nat);
    assert(2 * p == pow2((e + 1) as nat));
    if e + 1 < f {
        lemma_pow2_strictly_increases((e + 1) as nat, f);
    }
}

/// The largest power of two that fits in a word is half the number of word values.
pub proof fn lemma_largest_power_of_two()
    ensures
        power_of_two(word() / 2),
        word() % 2 == 0,
        forall|q: int| #[trigger] power_of_two(q) && q <= usize::MAX ==> q <= word() / 2,
{
    vstd::layout::unsigned_int_max_values();
    lemma_pow2_unfold(usize::BITS as nat);
    let top = pow2((usize::BITS - 1) as nat) as int;
    assert(word() == 2 * top);
    assert(power_of_two(top));
    assert forall|q: int| #[trigger] power_of_two(q) && q <= usize::MAX implies q <= top by {
        if q > top {
            lemma_no_power_between(top, q);
        }
    }
}

/// The smallest power of two that is at least `n`.
pub fn next_power_of_two(n: usize) -> (p: usize)
    requires
        n <= word() / 2,
    ensures
        least_power_of_two_from(n as int, p as int),
{
    let mut p: usize = 1;
    proof {
        vstd::arithmetic::power2::lemma2_to64();
        assert(power_of_two(1));
        lemma_largest_power_of_two();
        assert forall|q: int| #[trigger] power_of_two(q) implies 1 <= q by {
            let e = choose|e: nat| q == #[trigger] pow2(e);
            lemma_pow2_pos(e);
        }
    }
    while p < n
        invariant
            n <= word() / 2,
            power_of_two(p as int),
            forall|q: int| #[trigger] power_of_two(q) && n <= q ==> p <= q,
        decreases usize::MAX - p,
    {
        proof {
            lemma_largest_power_of_two();
            lemma_no_power_between(p as int, word() / 2);
            assert forall|q: int| #[trigger] power_of_two(q) && n <= q implies 2 * p <= q by {
                lemma_no_power_between(p as int, q);
            }
            lemma_power_of_two_exponent(p);
        }
        p = p * 2;
    }
    p
}

/// Whether `n` is a power of two.
pub fn is_power_of_two(n: usize) -> (b: bool)
    ensures
        b == power_of_two(n as int),
{
    proof {
        lemma_largest_power_of_two();
    }
    let half: usize = usize::MAX / 2 + 1;
    if n > half {
        return false;
    }
    let p: usize = next_power_of_two(n);
    p == n
}

} // verus!
