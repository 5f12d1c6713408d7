//! Bit-level model of card-identity sets.
//!
//! A set of card identities is a `u64` bitmask: bit `i` stands for the card
//! with id `i`. Specifications read a mask through `nth` (one bit),
//! `bits_of` (the set of positions of its set bits) and `popcnt` (the
//! cardinality of that set); `submask` is bitwise inclusion.

use vstd::prelude::*;

verus! {

use vstd::set_lib::{lemma_len_subset, lemma_int_range, set_int_range};
use vstd::std_specs::bits::{u64_trailing_zeros, axiom_u64_trailing_zeros};

/// Bit `i` of `m`; meaningful for `i < 64`.
pub open spec fn nth(m: u64, i: u64) -> bool {
    (m >> i) & 1u64 == 1u64
}

/// The set of bit positions that are set in `m`.
pub open spec fn bits_of(m: u64) -> Set<int> {
    Set::new(|i: int| 0 <= i < 64 && nth(m, i as u64))
}

/// The number of set bits of `m`.
pub open spec fn popcnt(m: u64) -> nat {
    bits_of(m).len()
}

/// Every set bit of `a` is also set in `b`.
pub open spec fn submask(a: u64, b: u64) -> bool {
    forall|i: u64| i < 64 && #[trigger] nth(a, i) ==> nth(b, i)
}

/// The set bits of `m` at positions below `k`; a loop-invariant device.
pub open spec fn bits_below(m: u64, k: int) -> Set<int> {
    Set::new(|i: int| 0 <= i < k && nth(m, i as u64))
}

/// How the bitwise operations act on single bits.
pub proof fn lemma_nth_ops()
    by (bit_vector)
    ensures
        forall|a: u64, b: u64, i: u64|
            i < 64 ==> (#[trigger] nth(a & b, i)) == (nth(a, i) && nth(b, i)),
        forall|a: u64, b: u64, i: u64|
            i < 64 ==> (#[trigger] nth(a | b, i)) == (nth(a, i) || nth(b, i)),
        forall|a: u64, b: u64, i: u64|
            i < 64 ==> (#[trigger] nth(a ^ b, i)) == (nth(a, i) != nth(b, i)),
        forall|a: u64, i: u64| i < 64 ==> (#[trigger] nth(!a, i)) == !nth(a, i),
        forall|i: u64| i < 64 ==> !(#[trigger] nth(0u64, i)),
        forall|c: u64, i: u64|
            c < 64 && i < 64 ==> (#[trigger] nth(1u64 << c, i)) == (i == c),
{
}

/// The mask with exactly the `n` lowest bits set.
pub proof fn lemma_nth_low_mask()
    by (bit_vector)
    ensures
        forall|n: u64, i: u64|
            n <= 63 && i < 64 ==> (#[trigger] nth(((1u64 << n) - 1) as u64, i)) == (i < n),
        forall|n: u64| n <= 63 ==> (1u64 << n) >= 1,
{
}

/// The mask of all card ids below the deck size `n`.
pub open spec fn low_mask(n: u64) -> u64 {
    ((1u64 << n) - 1) as u64
}

/// Which bits `low_mask` holds, and that the shift stays in range.
pub proof fn lemma_low_mask_nth(n: u64)
    requires
        n <= 63,
    ensures
        forall|i: u64| i < 64 ==> #[trigger] nth(low_mask(n), i) == (i < n),
        1u64 << n >= 1,
{
    lemma_nth_low_mask();
}

/// Intersection lies under both operands.
pub proof fn lemma_submask_and(a: u64, b: u64)
    ensures
        submask(a & b, a),
        submask(a & b, b),
{
    lemma_nth_ops();
}

/// Bitwise inclusion is transitive.
pub proof fn lemma_submask_trans(a: u64, b: u64, c: u64)
    requires
        submask(a, b),
        submask(b, c),
    ensures
        submask(a, c),
{
    assert forall|i: u64| i < 64 && #[trigger] nth(a, i) implies nth(c, i) by {
        assert(nth(b, i));
    }
}

/// A non-zero mask has a set bit: its lowest one.
pub proof fn lemma_nonzero_has_bit(m: u64)
    requires
        m != 0,
    ensures
        u64_trailing_zeros(m) < 64,
        nth(m, u64_trailing_zeros(m) as u64),
{
    axiom_u64_trailing_zeros(m);
}

/// A mask with a set bit is non-zero.
pub proof fn lemma_bit_nonzero(m: u64, i: u64)
    requires
        i < 64,
        nth(m, i),
    ensures
        m != 0,
{
    lemma_nth_ops();
}

/// A mask is zero exactly when it has no set bit.
pub proof fn lemma_zero_iff_no_bits(m: u64)
    ensures
        (m == 0) <==> (forall|i: u64| i < 64 ==> !#[trigger] nth(m, i)),
{
    lemma_nth_ops();
    if m != 0 {
        lemma_nonzero_has_bit(m);
    }
}

/// Two masks overlap exactly when they share a set bit.
pub proof fn lemma_and_nonzero(a: u64, b: u64)
    ensures
        (a & b != 0) <==> exists|i: u64| i < 64 && #[trigger] nth(a, i) && nth(b, i),
{
    lemma_nth_ops();
    if a & b != 0 {
        lemma_nonzero_has_bit(a & b);
        let i = u64_trailing_zeros(a & b) as u64;
        assert(nth(a, i) && nth(b, i));
    }
    if exists|i: u64| i < 64 && #[trigger] nth(a, i) && nth(b, i) {
        let i = choose|i: u64| i < 64 && #[trigger] nth(a, i) && nth(b, i);
        assert(nth(a & b, i));
        lemma_bit_nonzero(a & b, i);
    }
}

/// Intersection with a single-bit mask tests exactly that bit.
pub proof fn lemma_and_single_bit(a: u64, c: u64)
    requires
        c < 64,
    ensures
        (a & (1u64 << c) != 0) <==> nth(a, c),
{
    lemma_nth_ops();
    lemma_and_nonzero(a, 1u64 << c);
    if a & (1u64 << c) != 0 {
        let i = choose|i: u64| i < 64 && #[trigger] nth(a, i) && nth(1u64 << c, i);
        assert(i == c);
    }
    if nth(a, c) {
        assert(nth(1u64 << c, c));
    }
}

/// Stripping a mask leaves nothing of it behind.
pub proof fn lemma_and_not_disjoint(p: u64, m: u64)
    ensures
        (p & !m) & m == 0,
{
    lemma_nth_ops();
    lemma_zero_iff_no_bits((p & !m) & m);
}

/// Stripping a mask cannot create an overlap that was not already there.
pub proof fn lemma_and_not_overlap(p: u64, m: u64, x: u64)
    ensures
        ((p & !m) & x != 0) ==> (p & x != 0),
{
    lemma_nth_ops();
    lemma_and_nonzero(p & !m, x);
    lemma_and_nonzero(p, x);
    if (p & !m) & x != 0 {
        let i = choose|i: u64| i < 64 && #[trigger] nth(p & !m, i) && nth(x, i);
        assert(nth(p, i) && nth(x, i));
    }
}

/// The set of bit positions is finite and no larger than the word.
pub proof fn lemma_bits_of_finite(m: u64)
    ensures
        bits_of(m).finite(),
        bits_of(m).len() <= 64,
{
    lemma_int_range(0, 64);
    assert(bits_of(m).subset_of(set_int_range(0, 64)));
    lemma_len_subset(bits_of(m), set_int_range(0, 64));
}

/// Bitwise inclusion gives set inclusion, hence a popcount bound.
pub proof fn lemma_popcnt_submask(a: u64, b: u64)
    requires
        submask(a, b),
    ensures
        bits_of(a).subset_of(bits_of(b)),
        popcnt(a) <= popcnt(b),
{
    assert forall|i: int| bits_of(a).contains(i) implies bits_of(b).contains(i) by {
        assert(nth(a, i as u64));
    }
    lemma_bits_of_finite(b);
    lemma_len_subset(bits_of(a), bits_of(b));
}

/// Removing bits that are present strictly lowers the popcount.
pub proof fn lemma_popcnt_strictly_shrinks(p: u64, m: u64)
    requires
        p & m != 0,
    ensures
        submask(p & !m, p),
        popcnt(p & !m) < popcnt(p),
{
    lemma_nth_ops();
    assert(submask(p & !m, p));
    lemma_and_nonzero(p, m);
    let i = choose|i: u64| i < 64 && #[trigger] nth(p, i) && nth(m, i);
    lemma_popcnt_submask(p & !m, p);
    lemma_bits_of_finite(p);
    assert(bits_of(p).contains(i as int));
    assert(!bits_of(p & !m).contains(i as int));
    bits_of(p & !m).lemma_subset_not_in_lt(bits_of(p), i as int);
}

/// Counts the set bits of `m`.
pub fn popcount(m: u64) -> (r: u32)
    ensures
        r == popcnt(m),
        r <= 64,
{
    let mut count: u32 = 0;
    let mut i: u64 = 0;
    proof {
        assert(bits_below(m, 0) =~= Set::empty());
    }
    while i < 64
        invariant
            i <= 64,
            bits_below(m, i as int).finite(),
            count == bits_below(m, i as int).len(),
            count <= i,
        decreases 64 - i,
    {
        proof {
            if nth(m, i) {
                assert(!bits_below(m, i as int).contains(i as int));
                assert(bits_below(m, i as int + 1) =~= bits_below(m, i as int).insert(i as int));
            } else {
                assert(bits_below(m, i as int + 1) =~= bits_below(m, i as int));
            }
        }
        if (m >> i) & 1u64 == 1u64 {
            count = count + 1;
        }
        i = i + 1;
    }
    proof {
        assert(bits_below(m, 64) =~= bits_of(m));
    }
    count
}

} // verus!
