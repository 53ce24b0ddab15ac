//! The structural scanner: drives the classifier over the document chunk by
//! chunk and builds the structural index.
use vstd::prelude::*;
use crate::bits::{bit, lemma_bit_and, lemma_bit_not, lemma_bit_or, lemma_bit_set, lemma_bit_xor, lemma_bit_zero, lemma_bit_all_ones, prefix_parity, set_bit_offsets, test_bit, CHUNK};
use crate::classify::{is_structural_byte, Stage1Parse};

verus! {

/// Byte `p` of the document, reading zeros past its end.
pub open spec fn byte_at(s: Seq<u8>, p: int) -> u8 {
    if 0 <= p < s.len() { s[p] } else { 0u8 }
}

/// The run of backslashes that ends just before `p` has odd length, so the
/// byte at `p` is escaped.
pub open spec fn is_escaped(s: Seq<u8>, p: int) -> bool
    decreases p,
{
    if p <= 0 {
        false
    } else if byte_at(s, p - 1) == 0x5cu8 {
        !is_escaped(s, p - 1)
    } else {
        false
    }
}

/// A quote that opens or closes a string: one that is not escaped.
pub open spec fn is_real_quote(s: Seq<u8>, p: int) -> bool {
    byte_at(s, p) == 0x22u8 && !is_escaped(s, p)
}

/// Scanning is inside a string just before `p`: an odd number of real
/// quotes stand before it.
pub open spec fn in_string_before(s: Seq<u8>, p: int) -> bool
    decreases p,
{
    if p <= 0 {
        false
    } else {
        in_string_before(s, p - 1) != is_real_quote(s, p - 1)
    }
}

/// Offset `p` belongs in the structural index: a real quote, or a
/// structural character outside every string.
pub open spec fn is_indexed(s: Seq<u8>, p: int) -> bool {
    is_real_quote(s, p) || (is_structural_byte(byte_at(s, p)) && !in_string_before(s, p))
}

/// The offsets below `n` that belong in the structural index, ascending.
pub open spec fn structural_index_upto(s: Seq<u8>, n: int) -> Seq<u32>
    decreases n,
{
    if n <= 0 {
        Seq::empty()
    } else {
        let before = structural_index_upto(s, n - 1);
        if is_indexed(s, n - 1) {
            before.push((n - 1) as u32)
        } else {
            before
        }
    }
}

/// The structural index of the whole document.
pub open spec fn structural_index(s: Seq<u8>) -> Seq<u32> {
    structural_index_upto(s, s.len() as int)
}

/// Whether the byte at bit `j` of a chunk follows an odd run of backslashes,
/// given the backslash mask and whether the chunk starts after one.
pub open spec fn odd_run(bs: u64, carry: bool, j: u64) -> bool
    decreases j,
{
    if j == 0 {
        carry
    } else if bit(bs, (j - 1) as u64) {
        !odd_run(bs, carry, (j - 1) as u64)
    } else {
        false
    }
}

/// Mask of the escaped bytes of a chunk, from its backslash mask; `carry`
/// says on entry whether the chunk starts after an odd run of backslashes,
/// and on return whether the next one does.
pub fn escaped_mask(bs_bits: u64, carry: &mut bool) -> (r: u64)
    ensures
        forall|j: u64| j < 64 ==> bit(r, j) == odd_run(bs_bits, *old(carry), j),
        *final(carry) == odd_run(bs_bits, *old(carry), 64),
{
    let ghost c0 = *carry;
    let mut r: u64 = 0;
    let mut i: u64 = 0;
    proof {
        lemma_bit_zero();
    }
    while i < 64
        invariant
            i <= 64,
            *carry == odd_run(bs_bits, c0, i),
            forall|j: u64| j < 64 ==> bit(r, j) == (j < i && odd_run(bs_bits, c0, j)),
        decreases 64 - i,
    {
        let old_r = r;
        if *carry {
            r = r | (1u64 << i);
        }
        assert forall|j: u64| j < 64 implies bit(r, j) == (j < i + 1 && odd_run(bs_bits, c0, j)) by {
            if *carry {
                lemma_bit_set(old_r, i, j);
            }
        }
        *carry = if test_bit(bs_bits, i) { !*carry } else { false };
        i = i + 1;
    }
    r
}

/// The chunk of the document at `idx`, with zeros past its end.
pub fn load_chunk<S: Stage1Parse>(input: &[u8], idx: usize) -> (r: S)
    ensures
        r.chunk().len() == CHUNK,
        forall|j: int| 0 <= j < CHUNK ==> r.chunk()[j] == byte_at(input@, idx + j),
{
    let mut bytes: Vec<u8> = Vec::with_capacity(CHUNK);
    let mut j: usize = 0;
    while j < CHUNK
        invariant
            j <= CHUNK,
            bytes@.len() == j,
            forall|k: int| 0 <= k < j ==> bytes@[k] == byte_at(input@, idx + k),
        decreases CHUNK - j,
    {
        if idx < input.len() && j < input.len() - idx {
            bytes.push(input[idx + j]);
        } else {
            bytes.push(0u8);
        }
        j = j + 1;
    }
    S::new(bytes.as_slice())
}

proof fn lemma_escaped_chunk(s: Seq<u8>, idx: int, bs: u64)
    requires
        idx >= 0,
        forall|j: u64| j < 64 ==> bit(bs, j) == (byte_at(s, idx + j) == 0x5cu8),
    ensures
        forall|j: u64| j <= 64 ==> odd_run(bs, is_escaped(s, idx), j) == is_escaped(s, idx + j),
{
    assert forall|j: u64| j <= 64 implies odd_run(bs, is_escaped(s, idx), j) == is_escaped(s, idx + j) by {
        lemma_escaped_chunk_upto(s, idx, bs, j);
    }
}

proof fn lemma_escaped_chunk_upto(s: Seq<u8>, idx: int, bs: u64, j: u64)
    requires
        idx >= 0,
        j <= 64,
        forall|j: u64| j < 64 ==> bit(bs, j) == (byte_at(s, idx + j) == 0x5cu8),
    ensures
        odd_run(bs, is_escaped(s, idx), j) == is_escaped(s, idx + j),
    decreases j,
{
    if j > 0 {
        lemma_escaped_chunk_upto(s, idx, bs, (j - 1) as u64);
    }
}

proof fn lemma_quotes_chunk(s: Seq<u8>, idx: int, open_close: u64, j: u64)
    requires
        idx >= 0,
        j < 64,
        forall|j: u64| j < 64 ==> bit(open_close, j) == is_real_quote(s, idx + j),
    ensures
        in_string_before(s, idx + j + 1) == (in_string_before(s, idx) != prefix_parity(open_close, j)),
    decreases j,
{
    if j > 0 {
        lemma_quotes_chunk(s, idx, open_close, (j - 1) as u64);
    }
}

proof fn lemma_index_chunk(s: Seq<u8>, idx: int, m: u64, k: u64)
    requires
        idx >= 0,
        k <= 64,
        idx + 64 <= u32::MAX as int + 1,
        forall|j: u64| j < 64 ==> bit(m, j) == is_indexed(s, idx + j),
    ensures
        structural_index_upto(s, idx + k) == structural_index_upto(s, idx) + set_bit_offsets(idx as u32, m, k),
    decreases k,
{
    if k > 0 {
        let k1 = (k - 1) as u64;
        lemma_index_chunk(s, idx, m, k1);
        assert(structural_index_upto(s, idx + k) =~= structural_index_upto(s, idx) + set_bit_offsets(idx as u32, m, k));
    }
}

proof fn lemma_index_past_end(s: Seq<u8>, n: int)
    requires
        n >= s.len(),
    ensures
        structural_index_upto(s, n) == structural_index(s),
    decreases n,
{
    if n > s.len() {
        lemma_index_past_end(s, n - 1);
    }
}

/// Scans the whole document and returns its structural index: the offsets
/// of the unescaped quotes and of the structural characters outside strings,
/// ascending.
pub fn find_structural_bits<S: Stage1Parse>(input: &[u8]) -> (r: Vec<u32>)
    requires
        input@.len() + CHUNK <= u32::MAX,
    ensures
        r@ == structural_index(input@),
{
    let ghost s = input@;
    let mut out: Vec<u32> = Vec::new();
    let mut idx: usize = 0;
    let mut odd_backslashes: bool = false;
    let mut in_string: bool = false;
    while idx < input.len()
        invariant
            s == input@,
            s.len() + CHUNK <= u32::MAX,
            idx <= s.len() + CHUNK,
            out@ == structural_index_upto(s, idx as int),
            odd_backslashes == is_escaped(s, idx as int),
            in_string == in_string_before(s, idx as int),
        decreases s.len() + CHUNK - idx,
    {
        let chunk: S = load_chunk(input, idx);
        let bs = chunk.cmp_mask_against_input(0x5cu8);
        let quotes = chunk.cmp_mask_against_input(0x22u8);
        let mut whitespace: u64 = 0;
        let mut structurals: u64 = 0;
        chunk.find_whitespace_and_structurals(&mut whitespace, &mut structurals);
        let ghost carry_in = odd_backslashes;
        let escaped = escaped_mask(bs, &mut odd_backslashes);
        let open_close = quotes & !escaped;
        let carry_mask: u64 = if in_string { !0u64 } else { 0u64 };
        let region = S::compute_quote_mask(open_close);
        let in_quotes = region ^ carry_mask;
        let structural_chars = structurals & !quotes;
        let indexed = (structural_chars & !in_quotes) | open_close;
        proof {
            lemma_escaped_chunk(s, idx as int, bs);
            lemma_bit_zero();
            assert forall|j: u64| j < 64 implies bit(open_close, j) == is_real_quote(s, idx + j) by {
                lemma_bit_and(quotes, !escaped, j);
                lemma_bit_not(escaped, j);
            }
            assert forall|j: u64| j < 64 implies bit(in_quotes, j) == in_string_before(s, idx + j + 1) by {
                lemma_quotes_chunk(s, idx as int, open_close, j);
                lemma_bit_xor(region, carry_mask, j);
                lemma_bit_all_ones(j);
            }
            assert forall|j: u64| j < 64 implies bit(structural_chars, j) == is_structural_byte(byte_at(s, idx + j)) by {
                lemma_bit_and(structurals, !quotes, j);
                lemma_bit_not(quotes, j);
            }
            assert forall|j: u64| j < 64 implies bit(indexed, j) == is_indexed(s, idx + j) by {
                lemma_bit_or(structural_chars & !in_quotes, open_close, j);
                lemma_bit_and(structural_chars, !in_quotes, j);
                lemma_bit_not(in_quotes, j);
            }
            lemma_index_chunk(s, idx as int, indexed, 64);
        }
        S::flatten_bits(&mut out, idx as u32, indexed);
        in_string = test_bit(in_quotes, 63);
        idx = idx + CHUNK;
    }
    proof {
        lemma_index_past_end(s, idx as int);
    }
    out
}

/// The offsets that a plain byte-by-byte search for structural characters
/// and quotes finds below `n`, ascending.
pub open spec fn naive_index_upto(s: Seq<u8>, n: int) -> Seq<u32>
    decreases n,
{
    if n <= 0 {
        Seq::empty()
    } else {
        let before = naive_index_upto(s, n - 1);
        if is_structural_byte(s[n - 1]) || s[n - 1] == 0x22u8 {
            before.push((n - 1) as u32)
        } else {
            before
        }
    }
}

proof fn lemma_naive_upto(s: Seq<u8>, n: int)
    requires
        0 <= n <= s.len(),
        forall|p: int| 0 <= p < s.len() && is_structural_byte(s[p]) ==> !in_string_before(s, p),
        forall|p: int| 0 <= p < s.len() && s[p] == 0x22u8 ==> !is_escaped(s, p),
    ensures
        structural_index_upto(s, n) == naive_index_upto(s, n),
    decreases n,
{
    if n > 0 {
        lemma_naive_upto(s, n - 1);
    }
}

/// Where no string holds a structural character and no quote is escaped,
/// the structural index is what a plain byte-by-byte search for structural
/// characters and quotes finds.
pub proof fn lemma_index_matches_naive_scan(s: Seq<u8>)
    requires
        forall|p: int| 0 <= p < s.len() && is_structural_byte(s[p]) ==> !in_string_before(s, p),
        forall|p: int| 0 <= p < s.len() && s[p] == 0x22u8 ==> !is_escaped(s, p),
    ensures
        structural_index(s) == naive_index_upto(s, s.len() as int),
{
    lemma_naive_upto(s, s.len() as int);
}

/// The offsets of the structural characters below `n`, found byte by byte.
pub open spec fn naive_structurals_upto(s: Seq<u8>, n: int) -> Seq<u32>
    decreases n,
{
    if n <= 0 {
        Seq::empty()
    } else {
        let before = naive_structurals_upto(s, n - 1);
        if is_structural_byte(s[n - 1]) {
            before.push((n - 1) as u32)
        } else {
            before
        }
    }
}

/// The entries of an index that do not point at a quote.
pub open spec fn without_quotes(s: Seq<u8>, index: Seq<u32>) -> Seq<u32> {
    index.filter(|p: u32| byte_at(s, p as int) != 0x22u8)
}

proof fn lemma_naive_structurals_upto(s: Seq<u8>, n: int)
    requires
        0 <= n <= s.len(),
        s.len() <= u32::MAX,
        forall|p: int| 0 <= p < s.len() && is_structural_byte(s[p]) ==> !in_string_before(s, p),
    ensures
        without_quotes(s, structural_index_upto(s, n)) == naive_structurals_upto(s, n),
    decreases n,
{
    let pred = |p: u32| byte_at(s, p as int) != 0x22u8;
    let idx = structural_index_upto(s, n);
    reveal(Seq::filter);
    if n > 0 {
        lemma_naive_structurals_upto(s, n - 1);
        let before = structural_index_upto(s, n - 1);
        if is_indexed(s, n - 1) {
            assert(idx.drop_last() =~= before);
            assert(idx.last() == (n - 1) as u32);
        }
    }
}

/// Where no string holds a structural character, the entries of the
/// structural index that are not quotes are exactly the structural
/// characters that a plain byte-by-byte search finds.
pub proof fn lemma_structurals_match_naive_scan(s: Seq<u8>)
    requires
        s.len() <= u32::MAX,
        forall|p: int| 0 <= p < s.len() && is_structural_byte(s[p]) ==> !in_string_before(s, p),
    ensures
        without_quotes(s, structural_index(s)) == naive_structurals_upto(s, s.len() as int),
{
    lemma_naive_structurals_upto(s, s.len() as int);
}

proof fn lemma_carries_upto(a: Seq<u8>, b: Seq<u8>, k: int, p: int)
    requires
        0 <= k <= p,
        a.len() == b.len(),
        forall|q: int| k <= q < a.len() ==> a[q] == b[q],
        is_escaped(a, k) == is_escaped(b, k),
        in_string_before(a, k) == in_string_before(b, k),
    ensures
        is_escaped(a, p) == is_escaped(b, p),
        in_string_before(a, p) == in_string_before(b, p),
    decreases p - k,
{
    if p > k {
        lemma_carries_upto(a, b, k, p - 1);
    }
}

/// At a chunk boundary `k`, the two carries (whether the byte at `k` is
/// escaped, and whether scanning is inside a string) stand for everything
/// before it: two documents that agree from `k` on and whose carries agree
/// at `k` classify every offset from `k` on alike, whatever came before.
pub proof fn lemma_boundary_carries_suffice(a: Seq<u8>, b: Seq<u8>, k: int)
    requires
        0 <= k,
        a.len() == b.len(),
        forall|q: int| k <= q < a.len() ==> a[q] == b[q],
        is_escaped(a, k) == is_escaped(b, k),
        in_string_before(a, k) == in_string_before(b, k),
    ensures
        forall|p: int| k <= p ==> #[trigger] is_indexed(a, p) == is_indexed(b, p),
{
    assert forall|p: int| k <= p implies #[trigger] is_indexed(a, p) == is_indexed(b, p) by {
        lemma_carries_upto(a, b, k, p);
    }
}

proof fn lemma_index_upto_members(s: Seq<u8>, n: int, k: int)
    requires
        n <= u32::MAX,
        0 <= k < structural_index_upto(s, n).len(),
    ensures
        is_indexed(s, structural_index_upto(s, n)[k] as int),
        0 <= structural_index_upto(s, n)[k] < n,
    decreases n,
{
    if n > 0 {
        let before = structural_index_upto(s, n - 1);
        if k < before.len() {
            lemma_index_upto_members(s, n - 1, k);
        }
    }
}

/// A byte strictly inside a string (after its opening quote and before its
/// closing one) never appears in the structural index.
pub proof fn lemma_string_bodies_not_indexed(s: Seq<u8>, p: int)
    requires
        s.len() <= u32::MAX,
        0 <= p < s.len(),
        in_string_before(s, p),
        !is_real_quote(s, p),
    ensures
        !structural_index(s).contains(p as u32),
{
    if structural_index(s).contains(p as u32) {
        let k = choose|k: int| 0 <= k < structural_index(s).len() && structural_index(s)[k] == p as u32;
        lemma_index_upto_members(s, s.len() as int, k);
    }
}

} // verus!
