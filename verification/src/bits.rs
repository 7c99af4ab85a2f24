//! Extracting ranges and single bits from integers.
//!
//! A number is given as a `u64` together with the width, in bits, of the type
//! it came from (8, 16, 32 or 64).

use vstd::prelude::*;
use vstd::arithmetic::power2::pow2;

verus! {

/// The bits of `num` from `start` up to (not including) `end`, shifted down to
/// bit 0. An `end` beyond the width means "to the top". When `start == end`,
/// the single bit `start` is kept in place instead.
pub open spec fn bit_range_spec(num: u64, width: u32, start: u32, end: u32) -> nat {
    if start == end {
        (num & (1u64 << start)) as nat
    } else {
        let keep: nat = if end >= width { width as nat } else { end as nat };
        (num as nat % pow2(keep)) / pow2(start as nat)
    }
}

/// Whether the integer type of the given width can hold `num`.
pub open spec fn fits_width(num: u64, width: u32) -> bool {
    &&& 1 <= width <= 64
    &&& num < pow2(width as nat)
}

/// Extract the bits `start..end` of `num`, a value of a `width`-bit type.
pub fn bit_range(num: u64, width: u32, start: u32, end: u32) -> (r: u64)
    requires
        fits_width(num, width),
        start < width,
        start != end ==> end >= 1,
    ensures
        r == bit_range_spec(num, width, start, end),
{
    if start == end {
        num & (1u64 << start)
    } else {
        let keep: u32 = if end >= width { width } else { end };
        proof {
            vstd::bits::lemma_u64_shr_is_div(num, start as u64);
        }
        if keep >= 64 {
            proof {
                vstd::arithmetic::power2::lemma2_to64_rest();
                assert(num as nat % pow2(64) == num as nat);
            }
            num >> start
        } else {
            let k: u64 = keep as u64;
            proof {
                vstd::bits::lemma_u64_pow2_no_overflow(k as nat);
                vstd::bits::lemma_u64_shl_is_mul(1, k);
            }
            let mask: u64 = (1u64 << k) - 1;
            let masked = num & mask;
            proof {
                vstd::bits::lemma_u64_low_bits_mask_is_mod(num, k as nat);
                assert(mask == vstd::bits::low_bits_mask(k as nat) as u64);
                vstd::bits::lemma_u64_shr_is_div(masked, start as u64);
            }
            masked >> start
        }
    }
}

/// Whether bit `index` of `num` is set.
pub fn bit_at(num: u64, index: u32) -> (r: bool)
    requires
        index < 64,
    ensures
        r == (num & (1u64 << index) != 0),
{
    num & (1u64 << index) != 0
}

} // verus!

verus! {

/// Whether bit `b` of `w` is set.
pub open spec fn u64_bit(w: u64, b: u64) -> bool {
    w & (1u64 << b) != 0
}

/// Setting bit `b` sets it and leaves the other bits alone.
pub proof fn lemma_set_bit(w: u64, b: u64)
    requires
        b < 64,
    ensures
        u64_bit(w | (1u64 << b), b),
        forall|c: u64| c < 64 && c != b ==> u64_bit(w | (1u64 << b), c) == u64_bit(w, c),
{
    assert(u64_bit(w | (1u64 << b), b)) by (bit_vector)
        requires
            b < 64;
    assert(forall|c: u64| c < 64 && c != b ==> (((w | (1u64 << b)) & (1u64 << c)) != 0) == ((w & (1u64
        << c)) != 0)) by (bit_vector)
        requires
            b < 64;
}

/// Clearing bit `b` clears it and leaves the other bits alone.
pub proof fn lemma_clear_bit(w: u64, b: u64)
    requires
        b < 64,
    ensures
        !u64_bit(w & !(1u64 << b), b),
        forall|c: u64| c < 64 && c != b ==> u64_bit(w & !(1u64 << b), c) == u64_bit(w, c),
{
    assert(!u64_bit(w & !(1u64 << b), b)) by (bit_vector)
        requires
            b < 64;
    assert(forall|c: u64| c < 64 && c != b ==> (((w & !(1u64 << b)) & (1u64 << c)) != 0) == ((w & (1u64
        << c)) != 0)) by (bit_vector)
        requires
            b < 64;
}

/// A word with every bit set is `!0`.
pub proof fn lemma_full_word(w: u64)
    ensures
        w == !0u64 ==> forall|c: u64| c < 64 ==> #[trigger] u64_bit(w, c),
{
    assert(w == !0u64 ==> forall|c: u64| c < 64 ==> (w & (1u64 << c)) != 0) by (bit_vector);
}

/// The lowest clear bit of a word that is not `!0`, as `trailing_zeros` of its complement finds it.
pub proof fn lemma_first_clear_bit(w: u64)
    requires
        w != !0u64,
    ensures
        (!w).trailing_zeros() < 64,
        !u64_bit(w, (!w).trailing_zeros() as u64),
        forall|c: u64| c < (!w).trailing_zeros() ==> #[trigger] u64_bit(w, c),
{
    let n = !w;
    vstd::std_specs::bits::axiom_u64_trailing_zeros(n);
    let t = n.trailing_zeros() as u64;
    assert(n != 0) by (bit_vector)
        requires
            n == !w,
            w != !0u64;
    assert(t < 64);
    assert((n >> t) & 1u64 == 1u64);
    assert(!u64_bit(w, t)) by (bit_vector)
        requires
            n == !w,
            (n >> t) & 1u64 == 1u64,
            t < 64;
    assert forall|c: u64| c < t implies #[trigger] u64_bit(w, c) by {
        assert((n >> c) & 1u64 == 0u64);
        assert(u64_bit(w, c)) by (bit_vector)
            requires
                n == !w,
                (n >> c) & 1u64 == 0u64,
                c < 64;
    }
}

} // verus!
