//! Line-level deltas between two versions of a text: the lines of the old
//! version that are not on a longest common subsequence are reported as
//! removed (`-line`), those of the new version as added (`+line`).

use vstd::prelude::*;
use vstd::utf8::*;
use crate::lcs::{is_common_subsequence, lcs_indices, lcs_len, lcs_pairs, lemma_lcs_pairs_valid};
use crate::simhash::{
    fingerprint, hamming, hamming_distance, lemma_hamming_complement, lemma_hamming_self,
    lemma_hamming_symmetric, simhash,
};
use crate::text::{
    byte_length, decimal, join, lines, push_char, push_decimal, push_joined, split_lines,
    string_views,
};

verus! {

/// Above this many lines in either text no line diff is computed.
pub const MAX_DELTA_LINES: usize = 5000;

/// Two texts whose fingerprints differ in at most this many bits are near-duplicates.
pub const NEAR_DUPLICATE_MAX_DISTANCE: u32 = 20;

/// Whether texts `a` and `b` are close enough to attempt delta encoding.
pub open spec fn near_duplicate(a: Seq<char>, b: Seq<char>) -> bool {
    hamming(fingerprint(a), fingerprint(b)) <= NEAR_DUPLICATE_MAX_DISTANCE
}

/// Return true if two texts are close enough to attempt delta encoding.
pub fn is_near_duplicate(a: &str, b: &str) -> (r: bool)
    ensures
        r == near_duplicate(a@, b@),
{
    hamming_distance(simhash(a), simhash(b)) <= NEAR_DUPLICATE_MAX_DISTANCE
}

/// Whether some matched pair uses line `k` of the old text.
pub open spec fn matched_old(pairs: Seq<(usize, usize)>, k: int) -> bool {
    exists|t: int| 0 <= t < pairs.len() && (#[trigger] pairs[t]).0 == k
}

/// Whether some matched pair uses line `k` of the new text.
pub open spec fn matched_new(pairs: Seq<(usize, usize)>, k: int) -> bool {
    exists|t: int| 0 <= t < pairs.len() && (#[trigger] pairs[t]).1 == k
}

/// `-line` for each of the first `k` old lines that no pair uses, in order.
pub open spec fn removed_lines(a: Seq<Seq<char>>, pairs: Seq<(usize, usize)>, k: nat) -> Seq<
    Seq<char>,
>
    decreases k,
{
    if k == 0 {
        Seq::empty()
    } else {
        let rest = removed_lines(a, pairs, (k - 1) as nat);
        if matched_old(pairs, k - 1) {
            rest
        } else {
            rest.push(seq!['-'] + a[k - 1])
        }
    }
}

/// `+line` for each of the first `k` new lines that no pair uses, in order.
pub open spec fn added_lines(b: Seq<Seq<char>>, pairs: Seq<(usize, usize)>, k: nat) -> Seq<
    Seq<char>,
>
    decreases k,
{
    if k == 0 {
        Seq::empty()
    } else {
        let rest = added_lines(b, pairs, (k - 1) as nat);
        if matched_new(pairs, k - 1) {
            rest
        } else {
            rest.push(seq!['+'] + b[k - 1])
        }
    }
}

/// The delta lines between line sequences `a` (old) and `b` (new): removals
/// first, then additions.
pub open spec fn delta_lines(a: Seq<Seq<char>>, b: Seq<Seq<char>>) -> Seq<Seq<char>> {
    let p = lcs_pairs(a, b, a.len(), b.len());
    removed_lines(a, p, a.len()) + added_lines(b, p, b.len())
}

/// The first (at most) eight bytes of `h`, as characters.
pub open spec fn hash_prefix(h: Seq<char>) -> Seq<char> {
    let bytes = encode_utf8(h);
    let k = if bytes.len() < 8 {
        bytes.len() as int
    } else {
        8
    };
    decode_utf8(bytes.take(k))
}

/// Whether the first eight bytes of `h` (all of it, if shorter) end on a character boundary.
pub open spec fn hash_prefix_ok(h: Seq<char>) -> bool {
    let bytes = encode_utf8(h);
    let k = if bytes.len() < 8 {
        bytes.len() as int
    } else {
        8
    };
    is_char_boundary(bytes, k)
}

/// The delta text `compute_delta` produces.
pub open spec fn delta_text(h: Seq<char>, old: Seq<char>, new: Seq<char>) -> Seq<char> {
    let a = lines(old);
    let b = lines(new);
    let head = "\u{a7}delta:"@ + hash_prefix(h);
    if a.len() > MAX_DELTA_LINES || b.len() > MAX_DELTA_LINES {
        head + "\u{a7} [too large for delta, "@ + decimal(b.len()) + " lines]"@
    } else {
        let parts = delta_lines(a, b);
        if parts.len() == 0 {
            head + "\u{a7} (unchanged)"@
        } else {
            head + "\u{a7}\n"@ + join(parts, "\n"@)
        }
    }
}

/// Appends the first (at most) eight bytes of `h`.
fn push_hash_prefix(out: &mut String, h: &str)
    requires
        hash_prefix_ok(h@),
    ensures
        final(out)@ == old(out)@ + hash_prefix(h@),
{
    let blen = byte_length(h);
    let k = if blen < 8 {
        blen
    } else {
        8
    };
    let (p, _) = h.split_at(k);
    proof {
        encode_utf8_decode_utf8(p@);
    }
    out.append(p);
}

/// Marks, for each position below `len`, whether some pair uses it on the
/// chosen side (`old_side` for the old text, else the new text).
fn matched_mask(pairs: &Vec<(usize, usize)>, len: usize, old_side: bool) -> (r: Vec<bool>)
    requires
        forall|t: int|
            0 <= t < pairs@.len() ==> (if old_side {
                (#[trigger] pairs@[t]).0 < len
            } else {
                pairs@[t].1 < len
            }),
    ensures
        r@.len() == len,
        forall|k: int|
            0 <= k < len ==> #[trigger] r@[k] == (if old_side {
                matched_old(pairs@, k)
            } else {
                matched_new(pairs@, k)
            }),
{
    let mut mask: Vec<bool> = Vec::new();
    for k in 0..len
        invariant
            mask@.len() == k,
            forall|q: int| 0 <= q < k ==> !mask@[q],
    {
        mask.push(false);
    }
    let np = pairs.len();
    for t in 0..np
        invariant
            np == pairs@.len(),
            mask@.len() == len,
            forall|t2: int|
                0 <= t2 < pairs@.len() ==> (if old_side {
                    (#[trigger] pairs@[t2]).0 < len
                } else {
                    pairs@[t2].1 < len
                }),
            forall|k: int|
                0 <= k < len ==> #[trigger] mask@[k] == (exists|t2: int|
                    0 <= t2 < t && (if old_side {
                        (#[trigger] pairs@[t2]).0 == k
                    } else {
                        pairs@[t2].1 == k
                    })),
    {
        let p = pairs[t];
        let idx = if old_side {
            p.0
        } else {
            p.1
        };
        let ghost before = mask@;
        mask.set(idx, true);
        assert forall|k: int| 0 <= k < len implies #[trigger] mask@[k] == (exists|t2: int|
            0 <= t2 < t + 1 && (if old_side {
                (#[trigger] pairs@[t2]).0 == k
            } else {
                pairs@[t2].1 == k
            })) by {
            if k == idx {
                assert(pairs@[t as int] == p);
            } else {
                assert(mask@[k] == before[k]);
                if exists|t2: int|
                    0 <= t2 < t + 1 && (if old_side {
                        (#[trigger] pairs@[t2]).0 == k
                    } else {
                        pairs@[t2].1 == k
                    })
                {
                    let t2 = choose|t2: int|
                        0 <= t2 < t + 1 && (if old_side {
                            (#[trigger] pairs@[t2]).0 == k
                        } else {
                            pairs@[t2].1 == k
                        });
                    assert(t2 != t);
                }
            }
        }
    }
    mask
}

/// Appends to `parts` the line `prefix + lines[k]` for each `k` not marked in `mask`.
fn push_unmatched(
    parts: &mut Vec<String>,
    lines_v: &Vec<String>,
    mask: &Vec<bool>,
    prefix: char,
    old_side: bool,
    pairs: Ghost<Seq<(usize, usize)>>,
)
    requires
        mask@.len() == lines_v@.len(),
        forall|k: int|
            0 <= k < mask@.len() ==> #[trigger] mask@[k] == (if old_side {
                matched_old(pairs@, k)
            } else {
                matched_new(pairs@, k)
            }),
        prefix == (if old_side {
            '-'
        } else {
            '+'
        }),
    ensures
        string_views(final(parts)@) == string_views(old(parts)@) + (if old_side {
            removed_lines(string_views(lines_v@), pairs@, lines_v@.len())
        } else {
            added_lines(string_views(lines_v@), pairs@, lines_v@.len())
        }),
{
    let ghost start = string_views(parts@);
    let ghost lv = string_views(lines_v@);
    let n = lines_v.len();
    for k in 0..n
        invariant
            n == lines_v@.len() == mask@.len(),
            lv == string_views(lines_v@),
            forall|q: int|
                0 <= q < mask@.len() ==> #[trigger] mask@[q] == (if old_side {
                    matched_old(pairs@, q)
                } else {
                    matched_new(pairs@, q)
                }),
            prefix == (if old_side {
                '-'
            } else {
                '+'
            }),
            string_views(parts@) == start + (if old_side {
                removed_lines(lv, pairs@, k as nat)
            } else {
                added_lines(lv, pairs@, k as nat)
            }),
    {
        if !mask[k] {
            let mut part = String::new();
            push_char(&mut part, prefix);
            part.append(lines_v[k].as_str());
            let ghost before = parts@;
            parts.push(part);
            assert(string_views(parts@) == string_views(before).push(part@));
        }
    }
}

/// Compute a compact line-level delta between `old` and `new`.
/// Format: `§delta:HASH§\n-removed\n+added\n...`, with `(unchanged)` when
/// there is no line to report. Falls back to a "too large" notice when either
/// text has more than 5000 lines.
pub fn compute_delta(old_hash: &str, old: &str, new: &str) -> (r: String)
    requires
        hash_prefix_ok(old_hash@),
    ensures
        r@ == delta_text(old_hash@, old@, new@),
{
    let old_lines = split_lines(old);
    let new_lines = split_lines(new);
    let ghost a = lines(old@);
    let ghost b = lines(new@);
    let mut out = String::new();
    out.append("\u{a7}delta:");
    push_hash_prefix(&mut out, old_hash);
    if old_lines.len() > MAX_DELTA_LINES || new_lines.len() > MAX_DELTA_LINES {
        out.append("\u{a7} [too large for delta, ");
        push_decimal(&mut out, new_lines.len());
        out.append(" lines]");
        return out;
    }
    let pairs = lcs_indices(&old_lines, &new_lines);
    proof {
        lemma_lcs_pairs_valid(a, b, a.len(), b.len());
        assert(is_common_subsequence(a, b, pairs@, a.len(), b.len()));
    }
    let old_mask = matched_mask(&pairs, old_lines.len(), true);
    let new_mask = matched_mask(&pairs, new_lines.len(), false);
    let mut parts: Vec<String> = Vec::new();
    push_unmatched(&mut parts, &old_lines, &old_mask, '-', true, Ghost(pairs@));
    push_unmatched(&mut parts, &new_lines, &new_mask, '+', false, Ghost(pairs@));
    assert(string_views(parts@) == delta_lines(a, b));
    if parts.len() == 0 {
        out.append("\u{a7} (unchanged)");
        return out;
    }
    out.append("\u{a7}\n");
    push_joined(&mut out, &parts, "\n");
    out
}

// ---------------------------------------------------------------------------
// Laws
// ---------------------------------------------------------------------------

proof fn lemma_lcs_pairs_identical(a: Seq<Seq<char>>, i: nat)
    requires
        i <= a.len() <= usize::MAX,
    ensures
        lcs_pairs(a, a, i, i).len() == i,
        forall|k: int| 0 <= k < i ==> #[trigger] lcs_pairs(a, a, i, i)[k] == (k as usize, k as usize),
    decreases i,
{
    if i > 0 {
        lemma_lcs_pairs_identical(a, (i - 1) as nat);
        let prev = lcs_pairs(a, a, (i - 1) as nat, (i - 1) as nat);
        assert(lcs_pairs(a, a, i, i) == prev.push(((i - 1) as usize, (i - 1) as usize)));
    }
}

proof fn lemma_removed_none(a: Seq<Seq<char>>, pairs: Seq<(usize, usize)>, k: nat)
    requires
        forall|q: int| 0 <= q < k ==> matched_old(pairs, q),
    ensures
        removed_lines(a, pairs, k).len() == 0,
    decreases k,
{
    if k > 0 {
        lemma_removed_none(a, pairs, (k - 1) as nat);
    }
}

proof fn lemma_added_none(b: Seq<Seq<char>>, pairs: Seq<(usize, usize)>, k: nat)
    requires
        forall|q: int| 0 <= q < k ==> matched_new(pairs, q),
    ensures
        added_lines(b, pairs, k).len() == 0,
    decreases k,
{
    if k > 0 {
        lemma_added_none(b, pairs, (k - 1) as nat);
    }
}

proof fn lemma_removed_empty(a: Seq<Seq<char>>, pairs: Seq<(usize, usize)>, k: nat)
    requires
        removed_lines(a, pairs, k).len() == 0,
    ensures
        forall|q: int| 0 <= q < k ==> matched_old(pairs, q),
    decreases k,
{
    if k > 0 {
        lemma_removed_empty(a, pairs, (k - 1) as nat);
    }
}

proof fn lemma_added_empty(b: Seq<Seq<char>>, pairs: Seq<(usize, usize)>, k: nat)
    requires
        added_lines(b, pairs, k).len() == 0,
    ensures
        forall|q: int| 0 <= q < k ==> matched_new(pairs, q),
    decreases k,
{
    if k > 0 {
        lemma_added_empty(b, pairs, (k - 1) as nat);
    }
}

/// Whether `k` occurs in `s`.
spec fn hits(s: Seq<usize>, k: int) -> bool {
    exists|t: int| 0 <= t < s.len() && (#[trigger] s[t]) == k
}

/// A strictly increasing sequence of positions below `m` that hits every
/// position below `m` is `0, 1, ..., m - 1`.
proof fn lemma_increasing_cover(s: Seq<usize>, m: nat)
    requires
        forall|t: int| 0 <= t < s.len() ==> (#[trigger] s[t]) < m,
        forall|t1: int, t2: int| 0 <= t1 < t2 < s.len() ==> (#[trigger] s[t1]) < (#[trigger] s[t2]),
        forall|k: int| 0 <= k < m ==> #[trigger] hits(s, k),
    ensures
        s.len() == m,
        forall|t: int| 0 <= t < s.len() ==> (#[trigger] s[t]) == t,
{
    assert forall|t: int| 0 <= t < s.len() implies (#[trigger] s[t]) == t by {
        lemma_increasing_cover_at(s, m, t);
    }
    if s.len() > m {
        assert(s[m as int] == m);
    }
    if s.len() < m {
        assert(hits(s, m - 1));
        let t = choose|t: int| 0 <= t < s.len() && (#[trigger] s[t]) == (m - 1) as int;
        assert(s[t] == t);
    }
}

proof fn lemma_increasing_cover_at(s: Seq<usize>, m: nat, t: int)
    requires
        forall|t: int| 0 <= t < s.len() ==> (#[trigger] s[t]) < m,
        forall|t1: int, t2: int| 0 <= t1 < t2 < s.len() ==> (#[trigger] s[t1]) < (#[trigger] s[t2]),
        forall|k: int| 0 <= k < m ==> #[trigger] hits(s, k),
        0 <= t < s.len(),
    ensures
        s[t] == t,
    decreases t,
{
    if t > 0 {
        lemma_increasing_cover_at(s, m, t - 1);
        assert(s[t - 1] < s[t]);
    }
    assert(s[t] >= t);
    assert(t < m);
    assert(hits(s, t));
    let w = choose|w: int| 0 <= w < s.len() && (#[trigger] s[w]) == t;
    if w < t {
        lemma_increasing_cover_at(s, m, w);
    } else if w > t {
        assert(s[t] < s[w]);
    }
}

/// The delta of two line sequences is empty exactly when the sequences are equal.
pub proof fn lemma_delta_empty_iff_same_lines(a: Seq<Seq<char>>, b: Seq<Seq<char>>)
    requires
        a.len() <= usize::MAX,
        b.len() <= usize::MAX,
    ensures
        (delta_lines(a, b).len() == 0) <==> (a == b),
{
    let p = lcs_pairs(a, b, a.len(), b.len());
    if a == b {
        lemma_lcs_pairs_identical(a, a.len());
        assert forall|q: int| 0 <= q < a.len() implies matched_old(p, q) by {
            assert(p[q].0 == q);
        }
        assert forall|q: int| 0 <= q < b.len() implies matched_new(p, q) by {
            assert(p[q].1 == q);
        }
        lemma_removed_none(a, p, a.len());
        lemma_added_none(b, p, b.len());
    }
    if delta_lines(a, b).len() == 0 {
        lemma_lcs_pairs_valid(a, b, a.len(), b.len());
        lemma_removed_empty(a, p, a.len());
        lemma_added_empty(b, p, b.len());
        let s0 = p.map_values(|x: (usize, usize)| x.0);
        let s1 = p.map_values(|x: (usize, usize)| x.1);
        assert forall|k: int| 0 <= k < a.len() implies #[trigger] hits(s0, k) by {
            assert(matched_old(p, k));
            let t = choose|t: int| 0 <= t < p.len() && (#[trigger] p[t]).0 == k;
            assert(s0[t] == k);
        }
        assert forall|k: int| 0 <= k < b.len() implies #[trigger] hits(s1, k) by {
            assert(matched_new(p, k));
            let t = choose|t: int| 0 <= t < p.len() && (#[trigger] p[t]).1 == k;
            assert(s1[t] == k);
        }
        assert forall|t1: int, t2: int| 0 <= t1 < t2 < s0.len() implies (#[trigger] s0[t1]) < (
        #[trigger] s0[t2]) by {
            assert(p[t1].0 < p[t2].0);
        }
        assert forall|t1: int, t2: int| 0 <= t1 < t2 < s1.len() implies (#[trigger] s1[t1]) < (
        #[trigger] s1[t2]) by {
            assert(p[t1].1 < p[t2].1);
        }
        assert forall|t: int| 0 <= t < s0.len() implies (#[trigger] s0[t]) < a.len() by {
            assert(p[t].0 < a.len());
        }
        assert forall|t: int| 0 <= t < s1.len() implies (#[trigger] s1[t]) < b.len() by {
            assert(p[t].1 < b.len());
        }
        lemma_increasing_cover(s0, a.len());
        lemma_increasing_cover(s1, b.len());
        assert forall|k: int| 0 <= k < a.len() implies a[k] == b[k] by {
            assert(s0[k] == k);
            assert(s1[k] == k);
            assert(a[p[k].0 as int] == b[p[k].1 as int]);
        }
        assert(a =~= b);
    }
}

/// Every text is a near-duplicate of itself.
pub proof fn lemma_near_duplicate_reflexive(a: Seq<char>)
    ensures
        near_duplicate(a, a),
{
    lemma_hamming_self(fingerprint(a));
}

/// Being near-duplicates does not depend on the order of the texts.
pub proof fn lemma_near_duplicate_symmetric(a: Seq<char>, b: Seq<char>)
    ensures
        near_duplicate(a, b) == near_duplicate(b, a),
{
    lemma_hamming_symmetric(fingerprint(a), fingerprint(b));
}

/// Texts with the same fingerprint are near-duplicates; texts whose
/// fingerprints differ in every bit are not.
pub proof fn lemma_near_duplicate_by_fingerprint(a: Seq<char>, b: Seq<char>)
    ensures
        fingerprint(a) == fingerprint(b) ==> near_duplicate(a, b),
        fingerprint(b) == !fingerprint(a) ==> !near_duplicate(a, b),
{
    lemma_hamming_self(fingerprint(a));
    lemma_hamming_complement(fingerprint(a));
}

/// How many of the first `k` old lines some pair uses.
spec fn count_matched_old(pairs: Seq<(usize, usize)>, k: nat) -> nat
    decreases k,
{
    if k == 0 {
        0
    } else {
        count_matched_old(pairs, (k - 1) as nat) + if matched_old(pairs, k - 1) {
            1nat
        } else {
            0nat
        }
    }
}

proof fn lemma_removed_plus_matched(a: Seq<Seq<char>>, pairs: Seq<(usize, usize)>, k: nat)
    ensures
        removed_lines(a, pairs, k).len() + count_matched_old(pairs, k) == k,
    decreases k,
{
    if k > 0 {
        lemma_removed_plus_matched(a, pairs, (k - 1) as nat);
    }
}

proof fn lemma_count_matched_old_push(pairs: Seq<(usize, usize)>, k: nat)
    requires
        pairs.len() > 0,
        forall|t: int| 0 <= t < pairs.len() - 1 ==> (#[trigger] pairs[t]).0 < pairs.last().0,
    ensures
        count_matched_old(pairs, k) == count_matched_old(pairs.drop_last(), k) + if pairs.last().0
            < k {
            1nat
        } else {
            0nat
        },
    decreases k,
{
    let q = pairs.drop_last();
    let x = pairs.last();
    if k > 0 {
        lemma_count_matched_old_push(pairs, (k - 1) as nat);
        let v = k - 1;
        if matched_old(pairs, v) {
            let t = choose|t: int| 0 <= t < pairs.len() && (#[trigger] pairs[t]).0 == v;
            if t < pairs.len() - 1 {
                assert(q[t] == pairs[t]);
                assert(x.0 != v);
            }
        }
        if matched_old(q, v) {
            let t = choose|t: int| 0 <= t < q.len() && (#[trigger] q[t]).0 == v;
            assert(pairs[t] == q[t]);
            assert(x.0 != v);
        }
        if x.0 == v {
            assert(pairs[pairs.len() - 1] == x);
        }
    }
}

proof fn lemma_count_matched_old_none(pairs: Seq<(usize, usize)>, k: nat)
    requires
        pairs.len() == 0,
    ensures
        count_matched_old(pairs, k) == 0,
    decreases k,
{
    if k > 0 {
        lemma_count_matched_old_none(pairs, (k - 1) as nat);
    }
}

proof fn lemma_count_matched_old_all(pairs: Seq<(usize, usize)>, m: nat)
    requires
        forall|t: int| 0 <= t < pairs.len() ==> (#[trigger] pairs[t]).0 < m,
        forall|t1: int, t2: int|
            0 <= t1 < t2 < pairs.len() ==> (#[trigger] pairs[t1]).0 < (#[trigger] pairs[t2]).0,
    ensures
        count_matched_old(pairs, m) == pairs.len(),
    decreases pairs.len(),
{
    if pairs.len() > 0 {
        let q = pairs.drop_last();
        assert forall|t: int| 0 <= t < pairs.len() - 1 implies (#[trigger] pairs[t]).0
            < pairs.last().0 by {
            assert(pairs[t].0 < pairs[pairs.len() - 1].0);
        }
        lemma_count_matched_old_push(pairs, m);
        assert forall|t: int| 0 <= t < q.len() implies (#[trigger] q[t]).0 < m by {
            assert(q[t] == pairs[t]);
        }
        assert forall|t1: int, t2: int| 0 <= t1 < t2 < q.len() implies (#[trigger] q[t1]).0 < (
        #[trigger] q[t2]).0 by {
            assert(q[t1] == pairs[t1]);
            assert(q[t2] == pairs[t2]);
        }
        lemma_count_matched_old_all(q, m);
        assert(pairs.last() == pairs[pairs.len() - 1]);
        assert(pairs.last().0 < m);
        assert(count_matched_old(pairs, m) == count_matched_old(q, m) + 1);
    } else {
        lemma_count_matched_old_none(pairs, m);
    }
}

/// How many of the first `k` new lines some pair uses.
spec fn count_matched_new(pairs: Seq<(usize, usize)>, k: nat) -> nat
    decreases k,
{
    if k == 0 {
        0
    } else {
        count_matched_new(pairs, (k - 1) as nat) + if matched_new(pairs, k - 1) {
            1nat
        } else {
            0nat
        }
    }
}

proof fn lemma_added_plus_matched(b: Seq<Seq<char>>, pairs: Seq<(usize, usize)>, k: nat)
    ensures
        added_lines(b, pairs, k).len() + count_matched_new(pairs, k) == k,
    decreases k,
{
    if k > 0 {
        lemma_added_plus_matched(b, pairs, (k - 1) as nat);
    }
}

proof fn lemma_count_matched_new_push(pairs: Seq<(usize, usize)>, k: nat)
    requires
        pairs.len() > 0,
        forall|t: int| 0 <= t < pairs.len() - 1 ==> (#[trigger] pairs[t]).1 < pairs.last().1,
    ensures
        count_matched_new(pairs, k) == count_matched_new(pairs.drop_last(), k) + if pairs.last().1
            < k {
            1nat
        } else {
            0nat
        },
    decreases k,
{
    let q = pairs.drop_last();
    let x = pairs.last();
    if k > 0 {
        lemma_count_matched_new_push(pairs, (k - 1) as nat);
        let v = k - 1;
        if matched_new(pairs, v) {
            let t = choose|t: int| 0 <= t < pairs.len() && (#[trigger] pairs[t]).1 == v;
            if t < pairs.len() - 1 {
                assert(q[t] == pairs[t]);
                assert(x.1 != v);
            }
        }
        if matched_new(q, v) {
            let t = choose|t: int| 0 <= t < q.len() && (#[trigger] q[t]).1 == v;
            assert(pairs[t] == q[t]);
            assert(x.1 != v);
        }
        if x.1 == v {
            assert(pairs[pairs.len() - 1] == x);
        }
    }
}

proof fn lemma_count_matched_new_none(pairs: Seq<(usize, usize)>, k: nat)
    requires
        pairs.len() == 0,
    ensures
        count_matched_new(pairs, k) == 0,
    decreases k,
{
    if k > 0 {
        lemma_count_matched_new_none(pairs, (k - 1) as nat);
    }
}

proof fn lemma_count_matched_new_all(pairs: Seq<(usize, usize)>, m: nat)
    requires
        forall|t: int| 0 <= t < pairs.len() ==> (#[trigger] pairs[t]).1 < m,
        forall|t1: int, t2: int|
            0 <= t1 < t2 < pairs.len() ==> (#[trigger] pairs[t1]).1 < (#[trigger] pairs[t2]).1,
    ensures
        count_matched_new(pairs, m) == pairs.len(),
    decreases pairs.len(),
{
    if pairs.len() > 0 {
        let q = pairs.drop_last();
        assert forall|t: int| 0 <= t < pairs.len() - 1 implies (#[trigger] pairs[t]).1
            < pairs.last().1 by {
            assert(pairs[t].1 < pairs[pairs.len() - 1].1);
        }
        lemma_count_matched_new_push(pairs, m);
        assert forall|t: int| 0 <= t < q.len() implies (#[trigger] q[t]).1 < m by {
            assert(q[t] == pairs[t]);
        }
        assert forall|t1: int, t2: int| 0 <= t1 < t2 < q.len() implies (#[trigger] q[t1]).1 < (
        #[trigger] q[t2]).1 by {
            assert(q[t1] == pairs[t1]);
            assert(q[t2] == pairs[t2]);
        }
        lemma_count_matched_new_all(q, m);
        assert(pairs.last() == pairs[pairs.len() - 1]);
        assert(pairs.last().1 < m);
        assert(count_matched_new(pairs, m) == count_matched_new(q, m) + 1);
    } else {
        lemma_count_matched_new_none(pairs, m);
    }
}

/// The delta lists exactly the lines outside a longest common subsequence:
/// `|a| - L` removals and `|b| - L` additions, where `L` is the length of a
/// longest common subsequence of the two line sequences.
pub proof fn lemma_delta_size(a: Seq<Seq<char>>, b: Seq<Seq<char>>)
    requires
        a.len() <= usize::MAX,
        b.len() <= usize::MAX,
    ensures
        removed_lines(a, lcs_pairs(a, b, a.len(), b.len()), a.len()).len() == a.len() - lcs_len(
            a,
            b,
            a.len(),
            b.len(),
        ),
        added_lines(b, lcs_pairs(a, b, a.len(), b.len()), b.len()).len() == b.len() - lcs_len(
            a,
            b,
            a.len(),
            b.len(),
        ),
        delta_lines(a, b).len() == a.len() + b.len() - 2 * lcs_len(a, b, a.len(), b.len()),
{
    let p = lcs_pairs(a, b, a.len(), b.len());
    lemma_lcs_pairs_valid(a, b, a.len(), b.len());
    assert forall|t: int| 0 <= t < p.len() implies (#[trigger] p[t]).0 < a.len() && p[t].1
        < b.len() by {}
    lemma_count_matched_old_all(p, a.len());
    lemma_count_matched_new_all(p, b.len());
    lemma_removed_plus_matched(a, p, a.len());
    lemma_added_plus_matched(b, p, b.len());
}

/// Whether some matched pair uses position `k` on the chosen side.
pub open spec fn matched_on(pairs: Seq<(usize, usize)>, k: int, old_side: bool) -> bool {
    if old_side {
        matched_old(pairs, k)
    } else {
        matched_new(pairs, k)
    }
}

/// The positions below `k` that no matched pair uses on the chosen side, in
/// increasing order.
pub open spec fn unmatched(pairs: Seq<(usize, usize)>, k: nat, old_side: bool) -> Seq<int>
    decreases k,
{
    if k == 0 {
        Seq::empty()
    } else {
        let rest = unmatched(pairs, (k - 1) as nat, old_side);
        if matched_on(pairs, k - 1, old_side) {
            rest
        } else {
            rest.push(k - 1)
        }
    }
}

/// `u` lists, in increasing order, exactly the positions below `n` that no
/// pair uses on the chosen side.
pub open spec fn enumerates_unmatched(
    u: Seq<int>,
    pairs: Seq<(usize, usize)>,
    n: nat,
    old_side: bool,
) -> bool {
    &&& forall|i: int| 0 <= i < u.len() ==> 0 <= #[trigger] u[i] < n && !matched_on(pairs, u[i], old_side)
    &&& forall|i: int, j: int| 0 <= i < j < u.len() ==> #[trigger] u[i] < #[trigger] u[j]
    &&& forall|j: int| 0 <= j < n && !matched_on(pairs, j, old_side) ==> #[trigger] u.contains(j)
}

proof fn lemma_unmatched_enumerates(pairs: Seq<(usize, usize)>, k: nat, old_side: bool)
    ensures
        enumerates_unmatched(unmatched(pairs, k, old_side), pairs, k, old_side),
    decreases k,
{
    if k > 0 {
        let r = unmatched(pairs, (k - 1) as nat, old_side);
        lemma_unmatched_enumerates(pairs, (k - 1) as nat, old_side);
        let u = unmatched(pairs, k, old_side);
        assert forall|j: int| 0 <= j < k && !matched_on(pairs, j, old_side) implies #[trigger] u.contains(j) by {
            if j < k - 1 {
                assert(r.contains(j));
                let i = choose|i: int| 0 <= i < r.len() && r[i] == j;
                assert(u[i] == j);
            } else {
                assert(u[r.len() as int] == j);
            }
        }
    }
}

proof fn lemma_removed_shape(a: Seq<Seq<char>>, pairs: Seq<(usize, usize)>, k: nat)
    requires
        k <= a.len(),
    ensures
        removed_lines(a, pairs, k).len() == unmatched(pairs, k, true).len(),
        forall|i: int|
            0 <= i < unmatched(pairs, k, true).len() ==> #[trigger] removed_lines(a, pairs, k)[i]
                == seq!['-'] + a[unmatched(pairs, k, true)[i]],
    decreases k,
{
    if k > 0 {
        lemma_removed_shape(a, pairs, (k - 1) as nat);
        lemma_unmatched_enumerates(pairs, (k - 1) as nat, true);
    }
}

proof fn lemma_added_shape(b: Seq<Seq<char>>, pairs: Seq<(usize, usize)>, k: nat)
    requires
        k <= b.len(),
    ensures
        added_lines(b, pairs, k).len() == unmatched(pairs, k, false).len(),
        forall|i: int|
            0 <= i < unmatched(pairs, k, false).len() ==> #[trigger] added_lines(b, pairs, k)[i]
                == seq!['+'] + b[unmatched(pairs, k, false)[i]],
    decreases k,
{
    if k > 0 {
        lemma_added_shape(b, pairs, (k - 1) as nat);
        lemma_unmatched_enumerates(pairs, (k - 1) as nat, false);
    }
}

/// Each delta line is a whole line of one of the texts, exactly as it
/// stands, behind a one-character mark. With `p` the matched pairs (which
/// pair equal lines, in increasing order on both sides), `ua` the old
/// positions and `ub` the new positions that no pair uses (each in
/// increasing order): the delta is `-` followed by old line `ua[i]` for each
/// `i`, then `+` followed by new line `ub[i]` for each `i`. So the old text,
/// the pairs and the delta determine the new text.
pub proof fn lemma_delta_lines_are_whole_lines(a: Seq<Seq<char>>, b: Seq<Seq<char>>)
    requires
        a.len() <= usize::MAX,
        b.len() <= usize::MAX,
    ensures
        ({
            let p = lcs_pairs(a, b, a.len(), b.len());
            let ua = unmatched(p, a.len(), true);
            let ub = unmatched(p, b.len(), false);
            let d = delta_lines(a, b);
            &&& is_common_subsequence(a, b, p, a.len(), b.len())
            &&& enumerates_unmatched(ua, p, a.len(), true)
            &&& enumerates_unmatched(ub, p, b.len(), false)
            &&& d.len() == ua.len() + ub.len()
            &&& forall|i: int| 0 <= i < ua.len() ==> #[trigger] d[i] == seq!['-'] + a[ua[i]]
            &&& forall|i: int|
                0 <= i < ub.len() ==> #[trigger] d[ua.len() + i] == seq!['+'] + b[ub[i]]
        }),
{
    let p = lcs_pairs(a, b, a.len(), b.len());
    lemma_lcs_pairs_valid(a, b, a.len(), b.len());
    lemma_unmatched_enumerates(p, a.len(), true);
    lemma_unmatched_enumerates(p, b.len(), false);
    lemma_removed_shape(a, p, a.len());
    lemma_added_shape(b, p, b.len());
    let ua = unmatched(p, a.len(), true);
    let r = removed_lines(a, p, a.len());
    let ad = added_lines(b, p, b.len());
    let d = delta_lines(a, b);
    assert forall|i: int| 0 <= i < ua.len() implies #[trigger] d[i] == seq!['-'] + a[ua[i]] by {
        assert(d[i] == r[i]);
    }
    assert forall|i: int| 0 <= i < unmatched(p, b.len(), false).len() implies #[trigger] d[ua.len() + i]
        == seq!['+'] + b[unmatched(p, b.len(), false)[i]] by {
        assert(d[ua.len() + i] == ad[i]);
    }
}

/// Comparing a text with itself gives the `(unchanged)` delta (when it has
/// at most 5000 lines).
pub proof fn lemma_identical_texts_unchanged(h: Seq<char>, t: Seq<char>)
    requires
        lines(t).len() <= MAX_DELTA_LINES,
    ensures
        delta_text(h, t, t) == "\u{a7}delta:"@ + hash_prefix(h) + "\u{a7} (unchanged)"@,
{
    lemma_delta_empty_iff_same_lines(lines(t), lines(t));
}

} // verus!
