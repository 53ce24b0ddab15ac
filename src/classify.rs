//! The chunked byte classifier: one chunk of bytes in, one bit per byte out.
use vstd::prelude::*;
use crate::bits::{bit, lemma_bit_set, lemma_bit_set_flag, lemma_bit_zero, lemma_bit_not, prefix_parity, set_bit_offsets, test_bit, CHUNK};

verus! {

/// A structural character outside strings: `{ } [ ] : ,`.
pub open spec fn is_structural_byte(b: u8) -> bool {
    b == 0x7b || b == 0x7d || b == 0x5b || b == 0x5d || b == 0x3a || b == 0x2c
}

/// A byte of the classifier's structural class: a structural character or
/// the quote.
pub open spec fn is_structural_class_byte(b: u8) -> bool {
    is_structural_byte(b) || b == 0x22
}

/// JSON whitespace: space, tab, newline, carriage return.
pub open spec fn is_whitespace_byte(b: u8) -> bool {
    b == 0x20 || b == 0x09 || b == 0x0a || b == 0x0d
}

/// Class flags looked up by the low nibble of a byte.
pub open spec fn low_nibble_class(n: u8) -> u8 {
    if n == 0 { 16u8 }
    else if n == 2 { 2u8 }
    else if n == 9 { 8u8 }
    else if n == 10 { 12u8 }
    else if n == 11 { 1u8 }
    else if n == 12 { 2u8 }
    else if n == 13 { 9u8 }
    else { 0u8 }
}

/// Class flags looked up by the high nibble of a byte.
pub open spec fn high_nibble_class(n: u8) -> u8 {
    if n == 0 { 8u8 }
    else if n == 2 { 18u8 }
    else if n == 3 { 4u8 }
    else if n == 5 { 1u8 }
    else if n == 7 { 1u8 }
    else if n == 11 { 3u8 }
    else if n == 12 { 2u8 }
    else if n == 13 { 1u8 }
    else { 0u8 }
}

/// Flags of a byte: the two lookups ANDed; a byte with its top bit set
/// selects nothing from the low table.
pub open spec fn byte_class(b: u8) -> u8 {
    let lo = if b & 0x80u8 == 0 { low_nibble_class(b & 0x0fu8) } else { 0u8 };
    lo & high_nibble_class(b >> 4u8)
}

/// Flags that mark a structural byte.
pub const STRUCTURAL_FLAGS: u8 = 0x7;

/// Flags that mark a whitespace byte.
pub const WHITESPACE_FLAGS: u8 = 0x18;

/// The two lookup tables classify every byte value as the predicates say:
/// the structural flags, folded to one bit, mark the structural class, and
/// the whitespace flags, folded likewise, mark whitespace.
pub proof fn lemma_byte_class(b: u8)
    ensures
        (((byte_class(b) & 0x7u8) + 7) as u8 >> 3u8) == (if is_structural_class_byte(b) { 1u8 } else { 0u8 }),
        (((byte_class(b) & 0x18u8) + 0x1f) as u8 >> 5u8) == (if is_whitespace_byte(b) { 1u8 } else { 0u8 }),
{
    assert((((byte_class(b) & 0x7u8) + 7) as u8 >> 3u8) == (if is_structural_class_byte(b) { 1u8 } else { 0u8 })) by (bit_vector);
    assert((((byte_class(b) & 0x18u8) + 0x1f) as u8 >> 5u8) == (if is_whitespace_byte(b) { 1u8 } else { 0u8 })) by (bit_vector);
}

/// The mask built from the top bit of `b` is all ones below 0x80 and zero
/// from 0x80 on.
proof fn lemma_high_bit_gate(b: u8, lo: u8)
    ensures
        (b >> 7u8) <= 1,
        lo & !(((b >> 7u8) * 0xffu8) as u8) == (if b & 0x80u8 == 0 { lo } else { 0u8 }),
{
    assert((b >> 7u8) <= 1) by (bit_vector);
    assert(lo & !(((b >> 7u8) * 0xffu8) as u8) == (if b & 0x80u8 == 0 { lo } else { 0u8 })) by (bit_vector);
}

/// The low-nibble table: flags by the low four bits of a byte.
fn low_nibble_lookup(n: u8) -> (r: u8)
    ensures
        r == low_nibble_class(n),
{
    match n {
        0 => 16,
        2 => 2,
        9 => 8,
        10 => 12,
        11 => 1,
        12 => 2,
        13 => 9,
        _ => 0,
    }
}

/// The high-nibble table: flags by the high four bits of a byte.
fn high_nibble_lookup(n: u8) -> (r: u8)
    ensures
        r == high_nibble_class(n),
{
    match n {
        0 => 8,
        2 => 18,
        3 => 4,
        5 => 1,
        7 => 1,
        11 => 3,
        12 => 2,
        13 => 1,
        _ => 0,
    }
}

/// What one hardware backend offers: a chunk of input bytes and the mask
/// operations on it. The scanner and the decoder are written against it.
pub trait Stage1Parse: Sized {
    /// The bytes of the chunk.
    spec fn chunk(&self) -> Seq<u8>;

    /// Loads the first chunk of `ptr`.
    fn new(ptr: &[u8]) -> (r: Self)
        requires
            ptr@.len() >= CHUNK,
        ensures
            r.chunk().len() == CHUNK,
            r.chunk() == ptr@.subrange(0, CHUNK as int),
    ;

    /// A chunk whose every byte is `n`.
    fn fill_s8(n: i8) -> (r: Self)
        ensures
            r.chunk().len() == CHUNK,
            forall|i: int| 0 <= i < CHUNK ==> r.chunk()[i] == n as u8,
    ;

    /// Mask of the bytes equal to `m`.
    fn cmp_mask_against_input(&self, m: u8) -> (r: u64)
        requires
            self.chunk().len() == CHUNK,
        ensures
            forall|i: u64| i < 64 ==> bit(r, i) == (self.chunk()[i as int] == m),
    ;

    /// Mask of the bytes whose unsigned value is at most the byte of
    /// `maxval` in the same lane.
    fn unsigned_lteq_against_input(&self, maxval: &Self) -> (r: u64)
        requires
            self.chunk().len() == CHUNK,
            maxval.chunk().len() == CHUNK,
        ensures
            forall|i: u64| i < 64 ==> bit(r, i) == (self.chunk()[i as int] <= maxval.chunk()[i as int]),
    ;

    /// Mask of the bytes inside quoted regions: bit `i` is the parity of
    /// the quote bits at positions `0..=i`, so the first quote opens a
    /// region and the next one closes it.
    fn compute_quote_mask(quote_bits: u64) -> (r: u64)
        ensures
            forall|i: u64| i < 64 ==> bit(r, i) == prefix_parity(quote_bits, i),
    ;

    /// Appends `idx + j` for every set bit `j` of `bits`, lowest first.
    fn flatten_bits(base: &mut Vec<u32>, idx: u32, bits: u64)
        requires
            idx as int + CHUNK <= u32::MAX as int + 1,
        ensures
            final(base)@ == old(base)@ + set_bit_offsets(idx, bits, 64),
    ;

    /// Masks of the whitespace and of the structural class (structural
    /// characters and the quote).
    fn find_whitespace_and_structurals(&self, whitespace: &mut u64, structurals: &mut u64)
        requires
            self.chunk().len() == CHUNK,
        ensures
            forall|i: u64| i < 64 ==> bit(*final(whitespace), i) == is_whitespace_byte(self.chunk()[i as int]),
            forall|i: u64| i < 64 ==> bit(*final(structurals), i) == is_structural_class_byte(self.chunk()[i as int]),
    ;
}

/// The backend that holds a chunk as `CHUNK` bytes and works on them one
/// lane at a time.
#[derive(Debug)]
pub struct SimdInput {
    v0: Vec<u8>,
}

impl View for SimdInput {
    type V = Seq<u8>;

    closed spec fn view(&self) -> Seq<u8> {
        self.v0@
    }
}

impl Stage1Parse for SimdInput {
    open spec fn chunk(&self) -> Seq<u8> {
        self@
    }

    fn new(ptr: &[u8]) -> (r: Self) {
        let mut v0: Vec<u8> = Vec::with_capacity(CHUNK);
        let mut i: usize = 0;
        while i < CHUNK
            invariant
                i <= CHUNK,
                ptr@.len() >= CHUNK,
                v0@ == ptr@.subrange(0, i as int),
            decreases CHUNK - i,
        {
            v0.push(ptr[i]);
            i = i + 1;
        }
        SimdInput { v0 }
    }

    fn fill_s8(n: i8) -> (r: Self) {
        let mut v0: Vec<u8> = Vec::with_capacity(CHUNK);
        let mut i: usize = 0;
        while i < CHUNK
            invariant
                i <= CHUNK,
                v0@.len() == i,
                forall|j: int| 0 <= j < i ==> v0@[j] == n as u8,
            decreases CHUNK - i,
        {
            v0.push(n as u8);
            i = i + 1;
        }
        SimdInput { v0 }
    }

    fn cmp_mask_against_input(&self, m: u8) -> (r: u64) {
        let mut r: u64 = 0;
        let mut i: u64 = 0;
        proof {
            lemma_bit_zero();
        }
        while i < 64
            invariant
                i <= 64,
                self@.len() == CHUNK,
                forall|j: u64| j < 64 ==> bit(r, j) == (j < i && self@[j as int] == m),
            decreases 64 - i,
        {
            let old_r = r;
            if self.v0[i as usize] == m {
                r = r | (1u64 << i);
            }
            assert forall|j: u64| j < 64 implies bit(r, j) == (j < i + 1 && self@[j as int] == m) by {
                if self@[i as int] == m {
                    lemma_bit_set(old_r, i, j);
                }
            }
            i = i + 1;
        }
        r
    }

    fn unsigned_lteq_against_input(&self, maxval: &Self) -> (r: u64) {
        let mut greater: u64 = 0;
        let mut i: u64 = 0;
        proof {
            lemma_bit_zero();
        }
        while i < 64
            invariant
                i <= 64,
                self@.len() == CHUNK,
                maxval@.len() == CHUNK,
                forall|j: u64| j < 64 ==> bit(greater, j) == (j < i && self@[j as int] > maxval@[j as int]),
            decreases 64 - i,
        {
            let old_g = greater;
            if self.v0[i as usize] > maxval.v0[i as usize] {
                greater = greater | (1u64 << i);
            }
            assert forall|j: u64| j < 64 implies bit(greater, j) == (j < i + 1 && self@[j as int] > maxval@[j as int]) by {
                if self@[i as int] > maxval@[i as int] {
                    lemma_bit_set(old_g, i, j);
                }
            }
            i = i + 1;
        }
        let r = !greater;
        assert forall|i: u64| i < 64 implies bit(r, i) == (self@[i as int] <= maxval@[i as int]) by {
            lemma_bit_not(greater, i);
        }
        r
    }

    fn compute_quote_mask(quote_bits: u64) -> (r: u64) {
        let mut r: u64 = 0;
        let mut parity: bool = false;
        let mut i: u64 = 0;
        proof {
            lemma_bit_zero();
        }
        while i < 64
            invariant
                i <= 64,
                parity == (i > 0 && prefix_parity(quote_bits, (i - 1) as u64)),
                forall|j: u64| j < 64 ==> bit(r, j) == (j < i && prefix_parity(quote_bits, j)),
            decreases 64 - i,
        {
            parity = parity != test_bit(quote_bits, i);
            let old_r = r;
            if parity {
                r = r | (1u64 << i);
            }
            assert forall|j: u64| j < 64 implies bit(r, j) == (j < i + 1 && prefix_parity(quote_bits, j)) by {
                if parity {
                    lemma_bit_set(old_r, i, j);
                }
            }
            i = i + 1;
        }
        r
    }

    fn flatten_bits(base: &mut Vec<u32>, idx: u32, bits: u64) {
        let mut i: u64 = 0;
        while i < 64
            invariant
                i <= 64,
                idx as int + CHUNK <= u32::MAX as int + 1,
                base@ == old(base)@ + set_bit_offsets(idx, bits, i),
            decreases 64 - i,
        {
            if test_bit(bits, i) {
                base.push(idx + i as u32);
            }
            proof {
                assert(set_bit_offsets(idx, bits, (i + 1) as u64) =~= set_bit_offsets(idx, bits, i)
                    + if bit(bits, i) { seq![(idx + i) as u32] } else { Seq::empty() });
            }
            i = i + 1;
        }
    }

    fn find_whitespace_and_structurals(&self, whitespace: &mut u64, structurals: &mut u64) {
        let mut ws: u64 = 0;
        let mut st: u64 = 0;
        let mut i: u64 = 0;
        proof {
            lemma_bit_zero();
        }
        while i < 64
            invariant
                i <= 64,
                self@.len() == CHUNK,
                forall|j: u64| j < 64 ==> bit(ws, j) == (j < i && is_whitespace_byte(self@[j as int])),
                forall|j: u64| j < 64 ==> bit(st, j) == (j < i && is_structural_class_byte(self@[j as int])),
            decreases 64 - i,
        {
            let b = self.v0[i as usize];
            proof {
                lemma_high_bit_gate(b, low_nibble_class(b & 0x0fu8));
                lemma_byte_class(b);
            }
            let gate: u8 = !((b >> 7u8) * 0xffu8);
            let lo = low_nibble_lookup(b & 0x0fu8) & gate;
            let class = lo & high_nibble_lookup(b >> 4u8);
            assert(class & 0x7u8 <= 7 && class & 0x18u8 <= 0x18) by (bit_vector);
            let is_st = (((class & STRUCTURAL_FLAGS) + 7) >> 3u8) as u64;
            let is_ws = (((class & WHITESPACE_FLAGS) + 0x1f) >> 5u8) as u64;
            let old_ws = ws;
            let old_st = st;
            st = st | (is_st << i);
            ws = ws | (is_ws << i);
            assert forall|j: u64| j < 64 implies
                bit(ws, j) == (j < i + 1 && is_whitespace_byte(self@[j as int]))
                && bit(st, j) == (j < i + 1 && is_structural_class_byte(self@[j as int])) by {
                lemma_bit_set_flag(old_ws, is_ws, i, j);
                lemma_bit_set_flag(old_st, is_st, i, j);
            }
            i = i + 1;
        }
        *whitespace = ws;
        *structurals = st;
    }
}

} // verus!
