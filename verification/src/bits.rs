//! Facts about the bits of a `u64`, stated one bit at a time.
//!
//! Bitwise operators are opaque to the default prover, so every fact the
//! rest of the crate needs about `|`, `&`, `!` and shifts is proved here
//! once and used through these lemmas.
use vstd::prelude::*;

verus! {

/// Whether bit `i` of `bits` is set. An index outside `0..64` names no bit.
pub open spec fn bit_is_set(bits: u64, i: int) -> bool {
    0 <= i < 64 && (bits >> (i as u64)) & 1 == 1
}

/// The low `n` bits of `bits`; all of them once `n` reaches 64.
pub open spec fn low_bits(bits: u64, n: u64) -> u64 {
    if n >= 64 {
        bits
    } else {
        bits & (((1u64 << n) - 1) as u64)
    }
}

/// No bit of zero is set.
pub proof fn lemma_bits_of_zero()
    ensures
        forall|i: int| !#[trigger] bit_is_set(0, i),
{
    assert forall|i: int| !#[trigger] bit_is_set(0, i) by {
        if 0 <= i < 64 {
            let k: u64 = i as u64;
            assert((0u64 >> k) & 1 == 0) by (bit_vector);
        }
    }
}

/// `1 << k` has bit `k` set and no other.
pub proof fn lemma_bits_of_single(k: u64)
    requires
        k < 64,
    ensures
        forall|i: int| #[trigger] bit_is_set(1u64 << k, i) == (i == k),
{
    assert forall|i: int| #[trigger] bit_is_set(1u64 << k, i) == (i == k) by {
        if 0 <= i < 64 {
            let j: u64 = i as u64;
            assert((((1u64 << k) >> j) & 1 == 1) == (j == k)) by (bit_vector)
                requires
                    k < 64,
                    j < 64,
            ;
        }
    }
}

/// A bit is set in `a | b` when it is set in `a` or in `b`.
pub proof fn lemma_bits_of_or(a: u64, b: u64)
    ensures
        forall|i: int| #[trigger] bit_is_set(a | b, i) == (bit_is_set(a, i) || bit_is_set(b, i)),
{
    assert forall|i: int| #[trigger]
        bit_is_set(a | b, i) == (bit_is_set(a, i) || bit_is_set(b, i)) by {
        if 0 <= i < 64 {
            let k: u64 = i as u64;
            assert((((a | b) >> k) & 1 == 1) == (((a >> k) & 1 == 1) || ((b >> k) & 1 == 1)))
                by (bit_vector);
        }
    }
}

/// A bit is set in `a & !b` when it is set in `a` and not in `b`.
pub proof fn lemma_bits_of_and_not(a: u64, b: u64)
    ensures
        forall|i: int| #[trigger]
            bit_is_set(a & !b, i) == (bit_is_set(a, i) && !bit_is_set(b, i)),
{
    assert forall|i: int| #[trigger]
        bit_is_set(a & !b, i) == (bit_is_set(a, i) && !bit_is_set(b, i)) by {
        if 0 <= i < 64 {
            let k: u64 = i as u64;
            assert((((a & !b) >> k) & 1 == 1) == (((a >> k) & 1 == 1) && !((b >> k) & 1 == 1)))
                by (bit_vector);
        }
    }
}

/// A bit is set in `a & b` when it is set in both.
pub proof fn lemma_bits_of_and(a: u64, b: u64)
    ensures
        forall|i: int| #[trigger] bit_is_set(a & b, i) == (bit_is_set(a, i) && bit_is_set(b, i)),
{
    assert forall|i: int| #[trigger]
        bit_is_set(a & b, i) == (bit_is_set(a, i) && bit_is_set(b, i)) by {
        if 0 <= i < 64 {
            let k: u64 = i as u64;
            assert((((a & b) >> k) & 1 == 1) == (((a >> k) & 1 == 1) && ((b >> k) & 1 == 1)))
                by (bit_vector);
        }
    }
}

/// A bit is set in `!a` when it is not set in `a`.
pub proof fn lemma_bits_of_not(a: u64)
    ensures
        forall|i: int| 0 <= i < 64 ==> #[trigger] bit_is_set(!a, i) == !bit_is_set(a, i),
{
    assert forall|i: int| 0 <= i < 64 implies #[trigger] bit_is_set(!a, i) == !bit_is_set(
        a,
        i,
    ) by {
        let k: u64 = i as u64;
        assert((((!a) >> k) & 1 == 1) == !((a >> k) & 1 == 1)) by (bit_vector)
            requires
                k < 64,
        ;
    }
}

/// A value below `2^n` has no bit set at `n` or above, and the other way round.
pub proof fn lemma_bits_below(a: u64, n: u64)
    requires
        n < 64,
    ensures
        a < (1u64 << n) <==> (forall|i: int| n <= i < 64 ==> !#[trigger] bit_is_set(a, i)),
{
    if a < (1u64 << n) {
        assert forall|i: int| n <= i < 64 implies !#[trigger] bit_is_set(a, i) by {
            let k: u64 = i as u64;
            assert((a >> k) & 1 == 0) by (bit_vector)
                requires
                    a < (1u64 << n),
                    n <= k < 64,
            ;
        }
    }
    if forall|i: int| n <= i < 64 ==> !#[trigger] bit_is_set(a, i) {
        lemma_bits_of_and(a, !low_bits(!0u64, n));
        lemma_bits_of_not(low_bits(!0u64, n));
        let high: u64 = a & !low_bits(!0u64, n);
        assert forall|i: int| !#[trigger] bit_is_set(high, i) by {
            if 0 <= i < 64 {
                let k: u64 = i as u64;
                assert(k < n ==> (low_bits(!0u64, n) >> k) & 1 == 1) by (bit_vector)
                    requires
                        n < 64,
                        k < 64,
                ;
                assert(bit_is_set(high, i) == (bit_is_set(a, i) && !bit_is_set(
                    low_bits(!0u64, n),
                    i,
                )));
            }
        }
        lemma_bits_of_zero();
        lemma_bits_determine(high, 0);
        assert(a < (1u64 << n)) by (bit_vector)
            requires
                n < 64,
                a & !low_bits(!0u64, n) == 0,
        ;
    }
}

proof fn lemma_low_bits_agree(a: u64, b: u64, n: u64)
    requires
        n <= 64,
        forall|i: int| 0 <= i < n ==> bit_is_set(a, i) == bit_is_set(b, i),
    ensures
        low_bits(a, n) == low_bits(b, n),
    decreases n,
{
    if n == 0 {
        assert(low_bits(a, 0) == low_bits(b, 0)) by (bit_vector);
    } else {
        let m: u64 = (n - 1) as u64;
        lemma_low_bits_agree(a, b, m);
        assert(bit_is_set(a, m as int) == bit_is_set(b, m as int));
        assert(low_bits(a, n) == low_bits(b, n)) by (bit_vector)
            requires
                0 < n <= 64,
                m == n - 1,
                low_bits(a, m) == low_bits(b, m),
                ((a >> m) & 1 == 1) == ((b >> m) & 1 == 1),
        ;
    }
}

/// Two values with the same bits set are the same value.
pub proof fn lemma_bits_determine(a: u64, b: u64)
    requires
        forall|i: int| 0 <= i < 64 ==> bit_is_set(a, i) == bit_is_set(b, i),
    ensures
        a == b,
{
    lemma_low_bits_agree(a, b, 64);
}

} // verus!
