//! Longest common subsequence of two line sequences, by dynamic programming
//! and a backtrack that fixes which of the longest subsequences is chosen.

use vstd::prelude::*;
use crate::text::string_views;


verus! {

/// Length of a longest common subsequence of `a[..i]` and `b[..j]`
/// (the usual recurrence).
pub open spec fn lcs_len(a: Seq<Seq<char>>, b: Seq<Seq<char>>, i: nat, j: nat) -> nat
    decreases i + j,
{
    if i == 0 || j == 0 {
        0
    } else if a[i - 1] == b[j - 1] {
        lcs_len(a, b, (i - 1) as nat, (j - 1) as nat) + 1
    } else {
        let up = lcs_len(a, b, (i - 1) as nat, j);
        let left = lcs_len(a, b, i, (j - 1) as nat);
        if up >= left {
            up
        } else {
            left
        }
    }
}

/// The matched index pairs chosen by walking back from `(i, j)`: a match is
/// taken where the lines agree; otherwise the walk drops the last line of `a`
/// when that keeps a strictly longer subsequence, and the last line of `b` if not.
pub open spec fn lcs_pairs(a: Seq<Seq<char>>, b: Seq<Seq<char>>, i: nat, j: nat) -> Seq<
    (usize, usize),
>
    decreases i + j,
{
    if i == 0 || j == 0 {
        Seq::empty()
    } else if a[i - 1] == b[j - 1] {
        lcs_pairs(a, b, (i - 1) as nat, (j - 1) as nat).push(
            ((i - 1) as usize, (j - 1) as usize),
        )
    } else if lcs_len(a, b, (i - 1) as nat, j) > lcs_len(a, b, i, (j - 1) as nat) {
        lcs_pairs(a, b, (i - 1) as nat, j)
    } else {
        lcs_pairs(a, b, i, (j - 1) as nat)
    }
}

/// `s` pairs equal lines of `a[..i]` and `b[..j]`, increasing in both positions.
pub open spec fn is_common_subsequence(
    a: Seq<Seq<char>>,
    b: Seq<Seq<char>>,
    s: Seq<(usize, usize)>,
    i: nat,
    j: nat,
) -> bool {
    &&& forall|k: int|
        0 <= k < s.len() ==> {
            &&& (#[trigger] s[k]).0 < i
            &&& s[k].1 < j
            &&& s[k].0 < a.len()
            &&& s[k].1 < b.len()
            &&& a[s[k].0 as int] == b[s[k].1 as int]
        }
    &&& forall|k1: int, k2: int|
        0 <= k1 < k2 < s.len() ==> (#[trigger] s[k1]).0 < (#[trigger] s[k2]).0 && s[k1].1
            < s[k2].1
}

proof fn lemma_lcs_len_bounds(a: Seq<Seq<char>>, b: Seq<Seq<char>>, i: nat, j: nat)
    ensures
        lcs_len(a, b, i, j) <= i,
        lcs_len(a, b, i, j) <= j,
    decreases i + j,
{
    if i > 0 && j > 0 {
        lemma_lcs_len_bounds(a, b, (i - 1) as nat, (j - 1) as nat);
        lemma_lcs_len_bounds(a, b, (i - 1) as nat, j);
        lemma_lcs_len_bounds(a, b, i, (j - 1) as nat);
    }
}

/// The chosen pairs form a common subsequence whose length is `lcs_len`.
pub proof fn lemma_lcs_pairs_valid(a: Seq<Seq<char>>, b: Seq<Seq<char>>, i: nat, j: nat)
    requires
        i <= a.len() <= usize::MAX,
        j <= b.len() <= usize::MAX,
    ensures
        is_common_subsequence(a, b, lcs_pairs(a, b, i, j), i, j),
        lcs_pairs(a, b, i, j).len() == lcs_len(a, b, i, j),
    decreases i + j,
{
    if i > 0 && j > 0 {
        if a[i - 1] == b[j - 1] {
            lemma_lcs_pairs_valid(a, b, (i - 1) as nat, (j - 1) as nat);
            let prev = lcs_pairs(a, b, (i - 1) as nat, (j - 1) as nat);
            let s = lcs_pairs(a, b, i, j);
            assert(s == prev.push(((i - 1) as usize, (j - 1) as usize)));
            assert forall|k: int| 0 <= k < s.len() implies {
                &&& (#[trigger] s[k]).0 < i
                &&& s[k].1 < j
                &&& s[k].0 < a.len()
                &&& s[k].1 < b.len()
                &&& a[s[k].0 as int] == b[s[k].1 as int]
            } by {
                if k < prev.len() {
                    assert(s[k] == prev[k]);
                }
            }
            assert forall|k1: int, k2: int| 0 <= k1 < k2 < s.len() implies (#[trigger] s[k1]).0 < (
            #[trigger] s[k2]).0 && s[k1].1 < s[k2].1 by {
                assert(s[k1] == prev[k1]);
                if k2 < prev.len() {
                    assert(s[k2] == prev[k2]);
                }
            }
        } else if lcs_len(a, b, (i - 1) as nat, j) > lcs_len(a, b, i, (j - 1) as nat) {
            lemma_lcs_pairs_valid(a, b, (i - 1) as nat, j);
        } else {
            lemma_lcs_pairs_valid(a, b, i, (j - 1) as nat);
        }
    }
}

/// No common subsequence of `a[..i]` and `b[..j]` is longer than `lcs_len`.
pub proof fn lemma_lcs_len_optimal(
    a: Seq<Seq<char>>,
    b: Seq<Seq<char>>,
    s: Seq<(usize, usize)>,
    i: nat,
    j: nat,
)
    requires
        is_common_subsequence(a, b, s, i, j),
    ensures
        s.len() <= lcs_len(a, b, i, j),
    decreases i + j,
{
    if s.len() > 0 {
        let last = s.last();
        assert(last == s[s.len() - 1]);
        let t = s.drop_last();
        assert forall|k: int| 0 <= k < t.len() implies (#[trigger] t[k]).0 < last.0 && t[k].1
            < last.1 by {
            assert(t[k] == s[k]);
        }
        if a[i - 1] == b[j - 1] {
            assert(is_common_subsequence(a, b, t, (i - 1) as nat, (j - 1) as nat)) by {
                assert forall|k: int| 0 <= k < t.len() implies t[k] == s[k] by {}
            }
            lemma_lcs_len_optimal(a, b, t, (i - 1) as nat, (j - 1) as nat);
        } else if last.0 + 1 < i {
            assert(is_common_subsequence(a, b, s, (i - 1) as nat, j)) by {
                assert forall|k: int| 0 <= k < s.len() implies (#[trigger] s[k]).0 < i - 1 by {
                    if k < s.len() - 1 {
                        assert(t[k] == s[k]);
                    }
                }
            }
            lemma_lcs_len_optimal(a, b, s, (i - 1) as nat, j);
        } else {
            assert(last.1 + 1 < j);
            assert(is_common_subsequence(a, b, s, i, (j - 1) as nat)) by {
                assert forall|k: int| 0 <= k < s.len() implies (#[trigger] s[k]).1 < j - 1 by {
                    if k < s.len() - 1 {
                        assert(t[k] == s[k]);
                    }
                }
            }
            lemma_lcs_len_optimal(a, b, s, i, (j - 1) as nat);
        }
    }
}

/// `dp` holds `lcs_len` for every prefix pair up to row `rows`.
spec fn table_correct(
    dp: Seq<Vec<usize>>,
    sa: Seq<Seq<char>>,
    sb: Seq<Seq<char>>,
    rows: nat,
    n: nat,
) -> bool {
    &&& dp.len() == rows
    &&& forall|r: int| 0 <= r < rows ==> #[trigger] dp[r]@.len() == n + 1
    &&& forall|r: int, c: int|
        0 <= r < rows && 0 <= c <= n ==> #[trigger] dp[r]@[c] == lcs_len(
            sa,
            sb,
            r as nat,
            c as nat,
        )
}

/// The table of `lcs_len` for all prefixes of `a` and `b`.
fn lcs_table(a: &Vec<String>, b: &Vec<String>) -> (dp: Vec<Vec<usize>>)
    ensures
        table_correct(dp@, string_views(a@), string_views(b@), (a@.len() + 1) as nat, b@.len()),
{
    let ghost sa = string_views(a@);
    let ghost sb = string_views(b@);
    let m = a.len();
    let n = b.len();
    let mut dp: Vec<Vec<usize>> = Vec::new();
    let mut row0: Vec<usize> = Vec::new();
    row0.push(0);
    for j in 0..n
        invariant
            row0@.len() == j + 1,
            forall|c: int| 0 <= c <= j ==> row0@[c] == 0,
    {
        row0.push(0);
    }
    dp.push(row0);
    assert(table_correct(dp@, sa, sb, 1, n as nat));
    for i in 0..m
        invariant
            m == a@.len(),
            n == b@.len(),
            sa == string_views(a@),
            sb == string_views(b@),
            table_correct(dp@, sa, sb, (i + 1) as nat, n as nat),
    {
        let mut row: Vec<usize> = Vec::new();
        row.push(0);
        assert(dp@[i as int]@.len() == n + 1);
        for j in 0..n
            invariant
                m == a@.len(),
                n == b@.len(),
                i < m,
                sa == string_views(a@),
                sb == string_views(b@),
                table_correct(dp@, sa, sb, (i + 1) as nat, n as nat),
                row@.len() == j + 1,
                forall|c: int|
                    0 <= c <= j ==> #[trigger] row@[c] == lcs_len(
                        sa,
                        sb,
                        (i + 1) as nat,
                        c as nat,
                    ),
        {
            let prev = &dp[i];
            assert(prev@[j as int] == lcs_len(sa, sb, i as nat, j as nat));
            assert(prev@[j + 1] == lcs_len(sa, sb, i as nat, (j + 1) as nat));
            let v = if a[i] == b[j] {
                proof {
                    lemma_lcs_len_bounds(sa, sb, i as nat, j as nat);
                }
                prev[j] + 1
            } else {
                let up = prev[j + 1];
                let left = row[j];
                if up >= left {
                    up
                } else {
                    left
                }
            };
            row.push(v);
        }
        dp.push(row);
    }
    dp
}

/// The matched pairs of a longest common subsequence of `a` and `b`,
/// in increasing order (the one `lcs_pairs` describes).
pub fn lcs_indices(a: &Vec<String>, b: &Vec<String>) -> (r: Vec<(usize, usize)>)
    ensures
        r@ == lcs_pairs(string_views(a@), string_views(b@), a@.len(), b@.len()),
{
    let ghost sa = string_views(a@);
    let ghost sb = string_views(b@);
    let m = a.len();
    let n = b.len();
    let dp = lcs_table(a, b);
    let ghost target = lcs_pairs(sa, sb, m as nat, n as nat);
    let mut rev: Vec<(usize, usize)> = Vec::new();
    let mut i = m;
    let mut j = n;
    while i > 0 && j > 0
        invariant
            i <= m == a@.len(),
            j <= n == b@.len(),
            sa == string_views(a@),
            sb == string_views(b@),
            table_correct(dp@, sa, sb, (m + 1) as nat, n as nat),
            target == lcs_pairs(sa, sb, i as nat, j as nat) + rev@.reverse(),
        decreases i + j,
    {
        let ghost old_rev = rev@;
        if a[i - 1] == b[j - 1] {
            rev.push((i - 1, j - 1));
            assert(rev@.reverse() == seq![((i - 1) as usize, (j - 1) as usize)] + old_rev.reverse());
            assert(target == lcs_pairs(sa, sb, (i - 1) as nat, (j - 1) as nat) + rev@.reverse());
            i = i - 1;
            j = j - 1;
        } else {
            assert(dp@[i - 1]@[j as int] == lcs_len(sa, sb, (i - 1) as nat, j as nat));
            assert(dp@[i as int]@[j - 1] == lcs_len(sa, sb, i as nat, (j - 1) as nat));
            if dp[i - 1][j] > dp[i][j - 1] {
                i = i - 1;
            } else {
                j = j - 1;
            }
        }
    }
    assert(lcs_pairs(sa, sb, i as nat, j as nat) == Seq::<(usize, usize)>::empty());
    let len = rev.len();
    let mut out: Vec<(usize, usize)> = Vec::new();
    for k in 0..len
        invariant
            len == rev@.len(),
            out@ == rev@.reverse().take(k as int),
    {
        out.push(rev[len - 1 - k]);
        assert(out@ == rev@.reverse().take(k + 1));
    }
    assert(rev@.reverse().take(len as int) == rev@.reverse());
    assert(target == rev@.reverse());
    out
}

} // verus!
