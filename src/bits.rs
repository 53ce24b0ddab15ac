//! Bitmasks with one bit per byte of a chunk, and the facts about them that
//! the classifier and the scanner rely on.
use vstd::prelude::*;

verus! {

/// Number of bytes in one chunk, and of bits in one mask.
pub const CHUNK: usize = 64;

/// Bit `i` of `m` is set.
pub open spec fn bit(m: u64, i: u64) -> bool {
    (m >> i) & 1u64 == 1u64
}

/// Tests bit `i` of `m`.
pub fn test_bit(m: u64, i: u64) -> (r: bool)
    requires
        i < 64,
    ensures
        r == bit(m, i),
{
    (m >> i) & 1u64 == 1u64
}

/// The empty mask has no bit set.
pub proof fn lemma_bit_zero()
    ensures
        forall|i: u64| i < 64 ==> !#[trigger] bit(0u64, i),
{
    assert forall|i: u64| i < 64 implies !#[trigger] bit(0u64, i) by {
        assert(!bit(0u64, i)) by (bit_vector)
            requires
                i < 64,
        ;
    }
}

pub proof fn lemma_bit_all_ones(i: u64)
    requires
        i < 64,
    ensures
        bit(!0u64, i),
{
    assert(bit(!0u64, i)) by (bit_vector)
        requires
            i < 64,
    ;
}

/// Setting bit `i` leaves every other bit as it was.
pub proof fn lemma_bit_set(m: u64, i: u64, j: u64)
    requires
        i < 64,
        j < 64,
    ensures
        bit(m | (1u64 << i), j) == (bit(m, j) || i == j),
{
    assert(bit(m | (1u64 << i), j) == (bit(m, j) || i == j)) by (bit_vector)
        requires
            i < 64,
            j < 64,
    ;
}

/// ORing in a flag of 0 or 1 shifted to `i` sets bit `i` exactly when the
/// flag is 1.
pub proof fn lemma_bit_set_flag(m: u64, f: u64, i: u64, j: u64)
    requires
        f <= 1,
        i < 64,
        j < 64,
    ensures
        bit(m | (f << i), j) == (bit(m, j) || (i == j && f == 1)),
{
    assert(bit(m | (f << i), j) == (bit(m, j) || (i == j && f == 1))) by (bit_vector)
        requires
            f <= 1,
            i < 64,
            j < 64,
    ;
}

pub proof fn lemma_bit_and(a: u64, b: u64, i: u64)
    requires
        i < 64,
    ensures
        bit(a & b, i) == (bit(a, i) && bit(b, i)),
{
    assert(bit(a & b, i) == (bit(a, i) && bit(b, i))) by (bit_vector)
        requires
            i < 64,
    ;
}

pub proof fn lemma_bit_or(a: u64, b: u64, i: u64)
    requires
        i < 64,
    ensures
        bit(a | b, i) == (bit(a, i) || bit(b, i)),
{
    assert(bit(a | b, i) == (bit(a, i) || bit(b, i))) by (bit_vector)
        requires
            i < 64,
    ;
}

pub proof fn lemma_bit_xor(a: u64, b: u64, i: u64)
    requires
        i < 64,
    ensures
        bit(a ^ b, i) == (bit(a, i) != bit(b, i)),
{
    assert(bit(a ^ b, i) == (bit(a, i) != bit(b, i))) by (bit_vector)
        requires
            i < 64,
    ;
}

pub proof fn lemma_bit_not(a: u64, i: u64)
    requires
        i < 64,
    ensures
        bit(!a, i) == !bit(a, i),
{
    assert(bit(!a, i) == !bit(a, i)) by (bit_vector)
        requires
            i < 64,
    ;
}

/// Running parity of the bits of `q` at positions `0..=i`.
pub open spec fn prefix_parity(q: u64, i: u64) -> bool
    decreases i,
{
    if i == 0 {
        bit(q, 0)
    } else {
        prefix_parity(q, (i - 1) as u64) != bit(q, i)
    }
}

/// Bit `i` of the 128-bit mask whose low half is `lo` and high half `hi`.
pub open spec fn pair_bit(lo: u64, hi: u64, i: int) -> bool {
    if i < 64 {
        bit(lo, i as u64)
    } else {
        bit(hi, (i - 64) as u64)
    }
}

/// Running parity of the bits `0..=i` of the 128-bit mask `hi:lo`.
pub open spec fn pair_prefix_parity(lo: u64, hi: u64, i: int) -> bool
    decreases i,
{
    if i <= 0 {
        pair_bit(lo, hi, 0)
    } else {
        pair_prefix_parity(lo, hi, i - 1) != pair_bit(lo, hi, i)
    }
}

proof fn lemma_pair_low(lo: u64, hi: u64, i: u64)
    requires
        i < 64,
    ensures
        pair_prefix_parity(lo, hi, i as int) == prefix_parity(lo, i),
    decreases i,
{
    if i > 0 {
        lemma_pair_low(lo, hi, (i - 1) as u64);
    }
}

proof fn lemma_pair_high(lo: u64, hi: u64, i: u64)
    requires
        i < 64,
    ensures
        pair_prefix_parity(lo, hi, 64 + i) == (prefix_parity(lo, 63) != prefix_parity(hi, i)),
    decreases i,
{
    if i > 0 {
        lemma_pair_high(lo, hi, (i - 1) as u64);
    } else {
        lemma_pair_low(lo, hi, 63);
    }
}

/// Quote masks of two neighbouring chunks, the second inverted when the
/// first ends inside a string (its last bit, the carry), are the running
/// parity of the two chunks read as one chunk twice as wide.
pub proof fn lemma_carry_joins_chunks(lo: u64, hi: u64)
    ensures
        forall|i: u64| i < 64 ==> pair_prefix_parity(lo, hi, i as int) == #[trigger] prefix_parity(lo, i),
        forall|i: u64| i < 64 ==> pair_prefix_parity(lo, hi, 64 + i) == (prefix_parity(lo, 63)
            != #[trigger] prefix_parity(hi, i)),
{
    assert forall|i: u64| i < 64 implies pair_prefix_parity(lo, hi, i as int) == #[trigger] prefix_parity(lo, i) by {
        lemma_pair_low(lo, hi, i);
    }
    assert forall|i: u64| i < 64 implies pair_prefix_parity(lo, hi, 64 + i) == (prefix_parity(lo, 63)
        != #[trigger] prefix_parity(hi, i)) by {
        lemma_pair_high(lo, hi, i);
    }
}

/// Offsets `base + j` of the set bits `j < n` of `m`, lowest bit first.
pub open spec fn set_bit_offsets(base: u32, m: u64, n: u64) -> Seq<u32>
    decreases n,
{
    if n == 0 {
        Seq::empty()
    } else {
        let k = (n - 1) as u64;
        let before = set_bit_offsets(base, m, k);
        if bit(m, k) {
            before.push((base + k) as u32)
        } else {
            before
        }
    }
}

/// Position of the lowest set bit of `m`, or 64 where none is set.
pub fn first_set_bit(m: u64) -> (r: u64)
    ensures
        r <= 64,
        r < 64 ==> bit(m, r),
        forall|j: u64| j < r ==> !bit(m, j),
{
    let mut i: u64 = 0;
    while i < 64
        invariant
            i <= 64,
            forall|j: u64| j < i ==> !bit(m, j),
        decreases 64 - i,
    {
        if test_bit(m, i) {
            return i;
        }
        i = i + 1;
    }
    i
}

} // verus!
