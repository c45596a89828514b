//! SimHash fingerprints of texts: 64-bit values that stay close (in Hamming
//! distance) when a text changes a little.
//!
//! The features of a text are its white-space separated words; each word is
//! hashed with 64-bit FNV-1a over its characters' scalar values, and bit `i`
//! of the fingerprint is set when more than half of the words have bit `i`
//! set in their hash.

use vstd::prelude::*;
use crate::text::{char_views, chars_of, split_words, words};

verus! {

/// 64-bit FNV-1a offset basis.
pub const FNV_OFFSET: u64 = 0xcbf2_9ce4_8422_2325;

/// 64-bit FNV-1a prime.
pub const FNV_PRIME: u64 = 0x0000_0100_0000_01b3;

/// FNV-1a hash of a word, one step per character (its scalar value).
pub open spec fn fnv1a(w: Seq<char>) -> u64
    decreases w.len(),
{
    if w.len() == 0 {
        FNV_OFFSET
    } else {
        (fnv1a(w.drop_last()) ^ (w.last() as u32 as u64)).wrapping_mul(FNV_PRIME)
    }
}

/// Bit `i` of `x`.
pub open spec fn bit(x: u64, i: u64) -> bool {
    (x >> i) & 1 == 1
}

/// How many of the first `k` words have bit `i` set in their hash.
pub open spec fn ones(ws: Seq<Seq<char>>, i: u64, k: nat) -> nat
    decreases k,
{
    if k == 0 {
        0
    } else {
        ones(ws, i, (k - 1) as nat) + if bit(fnv1a(ws[k - 1]), i) {
            1nat
        } else {
            0nat
        }
    }
}

/// Whether more than half of the words have bit `i` set in their hash.
pub open spec fn majority_bit(ws: Seq<Seq<char>>, i: u64) -> bool {
    2 * ones(ws, i, ws.len()) > ws.len()
}

/// The value whose bits `0..k` are the majority bits of `ws`, the others clear.
pub open spec fn fingerprint_of(ws: Seq<Seq<char>>, k: u64) -> u64
    decreases k,
{
    if k == 0 {
        0
    } else {
        fingerprint_of(ws, (k - 1) as u64) | if majority_bit(ws, (k - 1) as u64) {
            1u64 << ((k - 1) as u64)
        } else {
            0u64
        }
    }
}

/// The SimHash fingerprint of a text.
pub open spec fn fingerprint(text: Seq<char>) -> u64 {
    fingerprint_of(words(text), 64)
}

/// Number of bit positions among `0..k` where `x` and `y` differ.
pub open spec fn differing_bits(x: u64, y: u64, k: u64) -> nat
    decreases k,
{
    if k == 0 {
        0
    } else {
        differing_bits(x, y, (k - 1) as u64) + if bit(x, (k - 1) as u64) != bit(
            y,
            (k - 1) as u64,
        ) {
            1nat
        } else {
            0nat
        }
    }
}

/// Hamming distance of two 64-bit values.
pub open spec fn hamming(x: u64, y: u64) -> nat {
    differing_bits(x, y, 64)
}

/// FNV-1a hash of the characters of `w`.
pub fn fnv1a_hash(w: &Vec<char>) -> (r: u64)
    ensures
        r == fnv1a(w@),
{
    let mut h: u64 = FNV_OFFSET;
    let n = w.len();
    for i in 0..n
        invariant
            n == w@.len(),
            h == fnv1a(w@.take(i as int)),
    {
        assert(w@.take(i + 1).drop_last() == w@.take(i as int));
        let c = w[i];
        h = (h ^ (c as u32 as u64)).wrapping_mul(FNV_PRIME);
    }
    assert(w@.take(n as int) == w@);
    h
}

proof fn lemma_ones_bound(ws: Seq<Seq<char>>, i: u64, k: nat)
    ensures
        ones(ws, i, k) <= k,
    decreases k,
{
    if k > 0 {
        lemma_ones_bound(ws, i, (k - 1) as nat);
    }
}

/// The SimHash fingerprint of `text`.
pub fn simhash(text: &str) -> (r: u64)
    ensures
        r == fingerprint(text@),
{
    let chars = chars_of(text);
    let ws = split_words(&chars);
    let ghost wv = char_views(ws@);
    let n = ws.len();
    let mut counts: Vec<usize> = Vec::new();
    for b in 0..64u64
        invariant
            counts@.len() == b,
            forall|q: int| 0 <= q < b ==> counts@[q] == 0,
    {
        counts.push(0);
    }
    for t in 0..n
        invariant
            n == ws@.len(),
            wv == char_views(ws@),
            counts@.len() == 64,
            forall|q: int| 0 <= q < 64 ==> #[trigger] counts@[q] == ones(wv, q as u64, t as nat),
    {
        let h = fnv1a_hash(&ws[t]);
        assert(ws@[t as int]@ == wv[t as int]);
        for b in 0..64u64
            invariant
                t < n == ws@.len(),
                wv == char_views(ws@),
                h == fnv1a(wv[t as int]),
                counts@.len() == 64,
                forall|q: int|
                    0 <= q < b ==> #[trigger] counts@[q] == ones(wv, q as u64, (t + 1) as nat),
                forall|q: int|
                    b <= q < 64 ==> #[trigger] counts@[q] == ones(wv, q as u64, t as nat),
        {
            proof {
                lemma_ones_bound(wv, b, t as nat);
            }
            if (h >> b) & 1 == 1 {
                let c = counts[b as usize];
                counts.set(b as usize, c + 1);
            }
        }
    }
    assert(wv.len() == n);
    let mut fp: u64 = 0;
    for b in 0..64u64
        invariant
            n == wv.len(),
            counts@.len() == 64,
            forall|q: int| 0 <= q < 64 ==> #[trigger] counts@[q] == ones(wv, q as u64, n as nat),
            fp == fingerprint_of(wv, b),
    {
        let c = counts[b as usize];
        proof {
            lemma_ones_bound(wv, b, n as nat);
        }
        if c > n - c {
            fp = fp | (1u64 << b);
        } else {
            fp = fp | 0u64;
        }
    }
    fp
}

/// Number of bit positions where `x` and `y` differ.
pub fn hamming_distance(x: u64, y: u64) -> (r: u32)
    ensures
        r == hamming(x, y),
{
    let mut count: u32 = 0;
    for b in 0..64u64
        invariant
            count == differing_bits(x, y, b),
            count <= b,
    {
        let bx = (x >> b) & 1 == 1;
        let by = (y >> b) & 1 == 1;
        if bx != by {
            count = count + 1;
        }
    }
    count
}

proof fn lemma_bit_or_shifted(x: u64, j: u64, i: u64)
    by (bit_vector)
    requires
        i < 64,
        j < 64,
    ensures
        ((x | (1u64 << j)) >> i) & 1 == 1 <==> (((x >> i) & 1 == 1) || i == j),
        ((x | 0u64) >> i) & 1 == (x >> i) & 1,
        (0u64 >> i) & 1 != 1,
{
}

proof fn lemma_fingerprint_of_bits(ws: Seq<Seq<char>>, k: u64, i: u64)
    requires
        k <= 64,
        i < 64,
    ensures
        bit(fingerprint_of(ws, k), i) == (i < k && majority_bit(ws, i)),
    decreases k,
{
    lemma_bit_or_shifted(0, 0, i);
    if k > 0 {
        lemma_fingerprint_of_bits(ws, (k - 1) as u64, i);
        lemma_bit_or_shifted(fingerprint_of(ws, (k - 1) as u64), (k - 1) as u64, i);
    }
}

/// Bit `i` of a text's fingerprint is set exactly when more than half of the
/// text's words have bit `i` set in their hash.
pub proof fn lemma_fingerprint_bits(text: Seq<char>, i: u64)
    requires
        i < 64,
    ensures
        bit(fingerprint(text), i) == majority_bit(words(text), i),
{
    lemma_fingerprint_of_bits(words(text), 64, i);
}

proof fn lemma_differing_bits_self(x: u64, k: u64)
    ensures
        differing_bits(x, x, k) == 0,
    decreases k,
{
    if k > 0 {
        lemma_differing_bits_self(x, (k - 1) as u64);
    }
}

proof fn lemma_differing_bits_symmetric(x: u64, y: u64, k: u64)
    ensures
        differing_bits(x, y, k) == differing_bits(y, x, k),
    decreases k,
{
    if k > 0 {
        lemma_differing_bits_symmetric(x, y, (k - 1) as u64);
    }
}

/// A value is at distance 0 from itself.
pub proof fn lemma_hamming_self(x: u64)
    ensures
        hamming(x, x) == 0,
{
    lemma_differing_bits_self(x, 64);
}

/// Hamming distance does not depend on the order of its arguments.
pub proof fn lemma_hamming_symmetric(x: u64, y: u64)
    ensures
        hamming(x, y) == hamming(y, x),
{
    lemma_differing_bits_symmetric(x, y, 64);
}

proof fn lemma_low_bits_step(x: u64, y: u64, j: u64)
    by (bit_vector)
    requires
        j < 64,
        x & !(0xffff_ffff_ffff_ffffu64 << j) == y & !(0xffff_ffff_ffff_ffffu64 << j),
        ((x >> j) & 1 == 1) == ((y >> j) & 1 == 1),
    ensures
        j + 1 < 64 ==> x & !(0xffff_ffff_ffff_ffffu64 << ((j + 1) as u64)) == y & !(
        0xffff_ffff_ffff_ffffu64 << ((j + 1) as u64)),
        j == 63 ==> x == y,
{
}

proof fn lemma_low_bits_none(x: u64, y: u64)
    by (bit_vector)
    ensures
        x & !(0xffff_ffff_ffff_ffffu64 << 0u64) == y & !(0xffff_ffff_ffff_ffffu64 << 0u64),
{
}

/// Values that agree on bits `0..k` agree on their low `k` bits (all of
/// them when `k` is 64).
proof fn lemma_no_differing_bits(x: u64, y: u64, k: u64)
    requires
        k <= 64,
        differing_bits(x, y, k) == 0,
    ensures
        k < 64 ==> x & !(0xffff_ffff_ffff_ffffu64 << k) == y & !(0xffff_ffff_ffff_ffffu64 << k),
        k == 64 ==> x == y,
    decreases k,
{
    if k == 0 {
        lemma_low_bits_none(x, y);
    } else {
        lemma_no_differing_bits(x, y, (k - 1) as u64);
        lemma_low_bits_step(x, y, (k - 1) as u64);
    }
}

/// Distance 0 means equal: two values are at Hamming distance 0 exactly
/// when they are the same 64-bit value (a difference in any of the 64 bits,
/// high or low, counts).
pub proof fn lemma_hamming_zero_iff_equal(x: u64, y: u64)
    ensures
        (hamming(x, y) == 0) <==> (x == y),
{
    if x == y {
        lemma_differing_bits_self(x, 64);
    }
    if hamming(x, y) == 0 {
        lemma_no_differing_bits(x, y, 64);
    }
}

proof fn lemma_complement_bit(x: u64, i: u64)
    by (bit_vector)
    requires
        i < 64,
    ensures
        ((x >> i) & 1 == 1) != ((!x >> i) & 1 == 1),
{
}

proof fn lemma_differing_bits_complement(x: u64, k: u64)
    requires
        k <= 64,
    ensures
        differing_bits(x, !x, k) == k,
    decreases k,
{
    if k > 0 {
        lemma_differing_bits_complement(x, (k - 1) as u64);
        lemma_complement_bit(x, (k - 1) as u64);
    }
}

/// A value and its bitwise complement differ in all 64 bits.
pub proof fn lemma_hamming_complement(x: u64)
    ensures
        hamming(x, !x) == 64,
{
    lemma_differing_bits_complement(x, 64);
}

} // verus!
