//! Bit-level vocabulary shared by the codec: single bits of an integer,
//! low-bit masks, and integers assembled from a predicate on bit positions.
//!
//! Every number is modelled as a `u128`, the widest carrier a field can have;
//! a byte is the `u128` below 256.

use vstd::prelude::*;

verus! {

/// Whether bit `k` of `x` is set. Positions outside `0..128` hold no bit.
pub open spec fn bit(x: u128, k: int) -> bool {
    0 <= k < 128 && (x >> (k as u128)) & 1 == 1
}

/// The integer whose only set bit is bit `k`, for `k` in `0..128`.
pub open spec fn single_bit(k: int) -> u128 {
    1u128 << (k as u128)
}

/// The integer whose low `n` bits are set and no others: `(1 << n) - 1`,
/// and all ones from 128 bits on.
pub open spec fn low_mask(n: int) -> u128 {
    if n >= 128 {
        u128::MAX
    } else if n <= 0 {
        0
    } else {
        ((1u128 << (n as u128)) - 1) as u128
    }
}

/// The integer whose bit `k` is `b(k)` for `k < n` and clear from `n` on.
pub open spec fn from_bits(n: int, b: spec_fn(int) -> bool) -> u128
    decreases n,
{
    if n <= 0 {
        0
    } else {
        from_bits(n - 1, b) | (if b(n - 1) {
            single_bit(n - 1)
        } else {
            0
        })
    }
}

/// The bits of `x`, as a predicate on positions.
pub open spec fn bits_of(x: u128) -> spec_fn(int) -> bool {
    |k: int| bit(x, k)
}

proof fn lemma_or_single_bit(y: u128, n: u128, c: bool, k: u128)
    by (bit_vector)
    requires
        n < 128,
        k < 128,
    ensures
        (((y | (if c { 1u128 << n } else { 0 })) >> k) & 1 == 1) == (((y >> k) & 1 == 1) || (k == n && c)),
{
}

proof fn lemma_zero_bit(k: u128)
    by (bit_vector)
    requires
        k < 128,
    ensures
        (0u128 >> k) & 1 == 0,
{
}

proof fn lemma_mask_step(x: u128, n: u128)
    by (bit_vector)
    requires
        n < 128,
    ensures
        ({
            let lo = if n == 0 { 0u128 } else { ((1u128 << n) - 1) as u128 };
            let hi = if n == 127 { 0xffff_ffff_ffff_ffff_ffff_ffff_ffff_ffffu128 } else { ((1u128 << ((n + 1) as u128)) - 1) as u128 };
            x & hi == (x & lo) | (if (x >> n) & 1 == 1 { 1u128 << n } else { 0 })
        }),
{
}

proof fn lemma_bit_of_mask(x: u128, n: u128, k: u128)
    by (bit_vector)
    requires
        n <= 128,
        k < 128,
    ensures
        ({
            let m = if n >= 128 { 0xffff_ffff_ffff_ffff_ffff_ffff_ffff_ffffu128 } else if n == 0 { 0u128 } else { ((1u128 << n) - 1) as u128 };
            (((x & m) >> k) & 1 == 1) == (k < n && (x >> k) & 1 == 1)
        }),
{
}

proof fn lemma_mask_all(x: u128)
    by (bit_vector)
    ensures
        x & 0xffff_ffff_ffff_ffff_ffff_ffff_ffff_ffffu128 == x,
        x & 0 == 0,
{
}

proof fn lemma_mask_bound(x: u128, n: u128)
    by (bit_vector)
    requires
        0 < n < 128,
    ensures
        x & (((1u128 << n) - 1) as u128) < (1u128 << n),
        (x < (1u128 << n)) ==> x & (((1u128 << n) - 1) as u128) == x,
        1u128 << n >= 1,
{
}

/// Bit `k` of `from_bits(n, b)` is `b(k)` below `n` and clear from `n` on.
pub proof fn lemma_from_bits_bit(n: int, b: spec_fn(int) -> bool, k: int)
    requires
        n <= 128,
    ensures
        bit(from_bits(n, b), k) == (0 <= k < n && b(k)),
    decreases n,
{
    if 0 <= k < 128 {
        if n <= 0 {
            lemma_zero_bit(k as u128);
        } else {
            lemma_from_bits_bit(n - 1, b, k);
            lemma_or_single_bit(from_bits(n - 1, b), (n - 1) as u128, b(n - 1), k as u128);
        }
    }
}

/// Two predicates that agree below `n` assemble to the same integer.
pub proof fn lemma_from_bits_congruent(n: int, a: spec_fn(int) -> bool, b: spec_fn(int) -> bool)
    requires
        forall|k: int| 0 <= k < n ==> #[trigger] a(k) == b(k),
    ensures
        from_bits(n, a) == from_bits(n, b),
    decreases n,
{
    if n > 0 {
        lemma_from_bits_congruent(n - 1, a, b);
    }
}

/// Assembling the low `n` bits of `x` gives `x` masked to `n` bits.
pub proof fn lemma_from_bits_of(x: u128, n: int)
    requires
        n <= 128,
    ensures
        from_bits(n, bits_of(x)) == x & low_mask(n),
    decreases n,
{
    if n <= 0 {
        lemma_mask_all(x);
    } else {
        lemma_from_bits_of(x, n - 1);
        lemma_mask_step(x, (n - 1) as u128);
    }
}

/// An integer is determined by its 128 bits.
pub proof fn lemma_bits_determine(x: u128, y: u128)
    requires
        forall|k: int| 0 <= k < 128 ==> #[trigger] bit(x, k) == bit(y, k),
    ensures
        x == y,
{
    lemma_from_bits_of(x, 128);
    lemma_from_bits_of(y, 128);
    lemma_mask_all(x);
    lemma_mask_all(y);
    lemma_from_bits_congruent(128, bits_of(x), bits_of(y));
}

/// An integer whose bit `k` is `b(k)` below `n`, and which has no bit set
/// from `n` on, is `from_bits(n, b)`.
pub proof fn lemma_from_bits_unique(x: u128, n: int, b: spec_fn(int) -> bool)
    requires
        n <= 128,
        forall|k: int| 0 <= k < 128 ==> #[trigger] bit(x, k) == (k < n && b(k)),
    ensures
        x == from_bits(n, b),
{
    let y = from_bits(n, b);
    assert forall|k: int| 0 <= k < 128 implies #[trigger] bit(x, k) == bit(y, k) by {
        lemma_from_bits_bit(n, b, k);
    }
    lemma_bits_determine(x, y);
}

/// Bit `k` of `x & low_mask(n)` is bit `k` of `x` below `n`, and clear from `n` on.
pub proof fn lemma_masked_bit(x: u128, n: int, k: int)
    requires
        0 <= n <= 128,
    ensures
        bit(x & low_mask(n), k) == (k < n && bit(x, k)),
{
    if 0 <= k < 128 {
        lemma_bit_of_mask(x, n as u128, k as u128);
    }
}

/// `from_bits` stays below `1 << n`.
pub proof fn lemma_from_bits_bound(n: int, b: spec_fn(int) -> bool)
    requires
        0 <= n < 128,
    ensures
        from_bits(n, b) < single_bit(n),
        from_bits(n, b) & low_mask(n) == from_bits(n, b),
{
    let x = from_bits(n, b);
    assert forall|k: int| 0 <= k < 128 implies #[trigger] bit(x & low_mask(n), k) == bit(x, k) by {
        lemma_masked_bit(x, n, k);
        lemma_from_bits_bit(n, b, k);
    }
    lemma_bits_determine(x & low_mask(n), x);
    if n == 0 {
        lemma_mask_all(x);
        assert(1u128 << 0u128 == 1) by (bit_vector);
    } else {
        lemma_mask_bound(x, n as u128);
    }
}

/// An integer assembled from `n` bits has no bit set from `n` on: masking
/// it to `n` bits changes nothing.
pub proof fn lemma_from_bits_masked(n: int, b: spec_fn(int) -> bool)
    requires
        0 <= n <= 128,
    ensures
        from_bits(n, b) & low_mask(n) == from_bits(n, b),
{
    if n < 128 {
        lemma_from_bits_bound(n, b);
    } else {
        lemma_mask_all(from_bits(n, b));
    }
}

/// Masking zero gives zero.
pub proof fn lemma_mask_of_zero(n: int)
    ensures
        0u128 & low_mask(n) == 0,
{
    lemma_mask_all(0);
    if 0 < n < 128 {
        lemma_mask_bound(0, n as u128);
    }
}

/// The low-bit mask for a field of `width` bits.
pub fn width_mask(width: u16) -> (m: u128)
    ensures
        m == low_mask(width as int),
{
    if width >= 128 {
        u128::MAX
    } else if width == 0 {
        0
    } else {
        let w: u32 = width as u32;
        assert((1u128 << w) >= 1 && (1u128 << w) == 1u128 << (w as u128)) by (bit_vector)
            requires
                w < 128,
        ;
        (1u128 << w) - 1
    }
}

} // verus!
