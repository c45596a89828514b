//! Two-pass verifier: checks that a compressed output is a safe reduction of
//! the original (six invariants) and falls back to the original when it is not.
//!
//! Confidence and thresholds are exact fractions: the confidence is the number
//! of passed checks over the number of checks.

use vstd::prelude::*;
use crate::text::{
    byte_len, byte_length, chars_of, contains_chars, decimal, has_substring, lines,
    lowercase, push_decimal, split_lines, string_views, to_lowercase, trim, trim_str,
    char_views, contains_char, non_numeric_sep, segments, split_segments, split_words, words,
    Separator, lemma_words_len, lemma_byte_len_bound, all_substrings, lemma_filter_all_substrings,
    lemma_lines_substrings, lemma_segments_substrings, lemma_substring_trans, lemma_trim_substring,
    lemma_words_substrings, lemma_byte_len_substring,
};

verus! {

// ---------------------------------------------------------------------------
// Counting and rounding
// ---------------------------------------------------------------------------

/// How many of `items` do not occur in `hay`.
pub open spec fn count_missing(items: Seq<Seq<char>>, hay: Seq<char>) -> nat
    decreases items.len(),
{
    if items.len() == 0 {
        0
    } else {
        count_missing(items.drop_last(), hay) + if has_substring(hay, items.last()) {
            0nat
        } else {
            1nat
        }
    }
}

proof fn lemma_count_missing_push(items: Seq<Seq<char>>, x: Seq<char>, hay: Seq<char>)
    ensures
        count_missing(items.push(x), hay) == count_missing(items, hay) + if has_substring(hay, x) {
            0nat
        } else {
            1nat
        },
{
    assert(items.push(x).drop_last() == items);
}

proof fn lemma_count_missing_concat(a: Seq<Seq<char>>, b: Seq<Seq<char>>, hay: Seq<char>)
    ensures
        count_missing(a + b, hay) == count_missing(a, hay) + count_missing(b, hay),
    decreases b.len(),
{
    if b.len() > 0 {
        lemma_count_missing_concat(a, b.drop_last(), hay);
        assert((a + b).drop_last() == a + b.drop_last());
    } else {
        assert(a + b == a);
    }
}

proof fn lemma_count_missing_bound(items: Seq<Seq<char>>, hay: Seq<char>)
    ensures
        count_missing(items, hay) <= items.len(),
    decreases items.len(),
{
    if items.len() > 0 {
        lemma_count_missing_bound(items.drop_last(), hay);
    }
}

/// Why a check failed.
#[derive(Debug, PartialEq, Eq)]
pub enum Detail {
    /// A description of what was lost.
    Message(String),
    /// The output keeps `numerator` of the input's `denominator` bytes.
    Retention(Ratio),
    /// `numerator` of the input's `denominator` top-level JSON keys occur in the output.
    KeysRetained(Ratio),
}

/// What a failure detail holds, as values.
pub enum DetailView {
    Message(Seq<char>),
    Retention(Ratio),
    KeysRetained(Ratio),
}

/// The values a detail holds.
pub open spec fn detail_view(d: Detail) -> DetailView {
    match d {
        Detail::Message(s) => DetailView::Message(s@),
        Detail::Retention(r) => DetailView::Retention(r),
        Detail::KeysRetained(r) => DetailView::KeysRetained(r),
    }
}

/// The values an optional detail holds.
pub open spec fn opt_detail(o: Option<Detail>) -> Option<DetailView> {
    match o {
        Some(d) => Some(detail_view(d)),
        None => None,
    }
}

// ---------------------------------------------------------------------------
// Check 1: the output keeps at least a tenth of the input's bytes
// ---------------------------------------------------------------------------

/// Outcome of the retention check: `None` when it passes, else the kept
/// fraction of the input's bytes.
pub open spec fn retention_outcome(o: Seq<char>, c: Seq<char>) -> Option<DetailView> {
    let ob = byte_len(o);
    let cb = byte_len(c);
    if o.len() == 0 || 10 * cb >= ob {
        None
    } else {
        Some(DetailView::Retention(Ratio { numerator: cb as u64, denominator: ob as u64 }))
    }
}

fn retention_check(original: &str, compressed: &str) -> (r: Option<Detail>)
    ensures
        opt_detail(r) == retention_outcome(original@, compressed@),
{
    let ob = byte_length(original);
    let cb = byte_length(compressed);
    if original.is_empty() || (cb as u128) * 10 >= ob as u128 {
        return None;
    }
    Some(Detail::Retention(Ratio { numerator: cb as u64, denominator: ob as u64 }))
}

// ---------------------------------------------------------------------------
// Check 2: diagnostic lines are kept
// ---------------------------------------------------------------------------

/// Whether a lowercased line mentions `error:`, `warning:`, `fatal:`,
/// `panic:` or `exception:`.
pub open spec fn has_marker(lo: Seq<char>) -> bool {
    has_substring(lo, "error:"@) || has_substring(lo, "warning:"@) || has_substring(
        lo,
        "fatal:"@,
    ) || has_substring(lo, "panic:"@) || has_substring(lo, "exception:"@)
}

/// Whether a line is a diagnostic: its lowercase form has a marker.
pub open spec fn is_critical(l: Seq<char>) -> bool {
    has_marker(lowercase(l))
}

pub open spec fn critical_pred() -> spec_fn(Seq<char>) -> bool {
    |l: Seq<char>| is_critical(l)
}

/// Each line trimmed.
pub open spec fn trimmed_all(s: Seq<Seq<char>>) -> Seq<Seq<char>> {
    s.map_values(|l: Seq<char>| trim(l))
}

/// Number of diagnostic lines of `o` whose trimmed text is not in `c`.
pub open spec fn missing_critical(o: Seq<char>, c: Seq<char>) -> nat {
    count_missing(trimmed_all(lines(o).filter(critical_pred())), c)
}

/// Outcome of the diagnostic-lines check.
pub open spec fn error_lines_outcome(o: Seq<char>, c: Seq<char>) -> Option<DetailView> {
    let missing = missing_critical(o, c);
    if missing == 0 {
        None
    } else {
        Some(DetailView::Message(decimal(missing) + " critical line(s) dropped"@))
    }
}

/// Whether `line` is a diagnostic line.
fn is_critical_line(line: &str) -> (r: bool)
    ensures
        r == is_critical(line@),
{
    let lo = to_lowercase(line);
    has_diagnostic_marker(lo.as_str())
}

/// Whether a lowercased line `lower` has a diagnostic marker.
pub fn has_diagnostic_marker(lower: &str) -> (r: bool)
    ensures
        r == has_marker(lower@),
{
    let lc = chars_of(lower);
    contains_chars(&lc, &chars_of("error:")) || contains_chars(&lc, &chars_of("warning:"))
        || contains_chars(&lc, &chars_of("fatal:")) || contains_chars(&lc, &chars_of("panic:"))
        || contains_chars(&lc, &chars_of("exception:"))
}

/// Appends `count` and then `text`.
fn count_message(count: usize, text: &str) -> (r: Detail)
    ensures
        detail_view(r) == DetailView::Message(decimal(count as nat) + text@),
{
    let mut d = String::new();
    push_decimal(&mut d, count);
    d.append(text);
    Detail::Message(d)
}

fn error_lines_check(ls: &Vec<String>, comp: &Vec<char>, o: Ghost<Seq<char>>) -> (r: Option<Detail>)
    requires
        string_views(ls@) == lines(o@),
    ensures
        opt_detail(r) == error_lines_outcome(o@, comp@),
{
    let ghost lv = string_views(ls@);
    let mut missing: usize = 0;
    let n = ls.len();
    for k in 0..n
        invariant
            n == ls@.len(),
            lv == string_views(ls@),
            missing <= k,
            missing == count_missing(trimmed_all(lv.take(k as int).filter(critical_pred())), comp@),
    {
        let line = ls[k].as_str();
        assert(lv.take(k + 1) == lv.take(k as int).push(lv[k as int]));
        proof {
            lv.take(k as int).lemma_filter_push(lv[k as int], critical_pred());
        }
        let ghost before = lv.take(k as int).filter(critical_pred());
        if is_critical_line(line) {
            let t = trim_str(line);
            let tc = chars_of(t);
            let found = contains_chars(comp, &tc);
            proof {
                assert(trimmed_all(before.push(lv[k as int])) == trimmed_all(before).push(
                    trim(lv[k as int]),
                ));
                lemma_count_missing_push(trimmed_all(before), trim(lv[k as int]), comp@);
            }
            if !found {
                missing = missing + 1;
            }
        }
    }
    assert(lv.take(n as int) == lv);
    if missing == 0 {
        None
    } else {
        Some(count_message(missing, " critical line(s) dropped"))
    }
}

// ---------------------------------------------------------------------------
// Check 5: diff hunk headers are kept
// ---------------------------------------------------------------------------

/// Whether a line starts with `@@`.
pub open spec fn is_hunk_header(l: Seq<char>) -> bool {
    l.len() >= 2 && l[0] == '@' && l[1] == '@'
}

pub open spec fn hunk_pred() -> spec_fn(Seq<char>) -> bool {
    |l: Seq<char>| is_hunk_header(l)
}

/// Number of hunk header lines of `o` that are not in `c`.
pub open spec fn missing_hunks(o: Seq<char>, c: Seq<char>) -> nat {
    count_missing(lines(o).filter(hunk_pred()), c)
}

/// Outcome of the hunk-header check.
pub open spec fn diff_hunks_outcome(o: Seq<char>, c: Seq<char>) -> Option<DetailView> {
    let missing = missing_hunks(o, c);
    if missing == 0 {
        None
    } else {
        Some(DetailView::Message(decimal(missing) + " @@ hunk header(s) missing"@))
    }
}

fn diff_hunks_check(ls: &Vec<String>, comp: &Vec<char>, o: Ghost<Seq<char>>) -> (r: Option<Detail>)
    requires
        string_views(ls@) == lines(o@),
    ensures
        opt_detail(r) == diff_hunks_outcome(o@, comp@),
{
    let ghost lv = string_views(ls@);
    let mut missing: usize = 0;
    let n = ls.len();
    for k in 0..n
        invariant
            n == ls@.len(),
            lv == string_views(ls@),
            missing <= k,
            missing == count_missing(lv.take(k as int).filter(hunk_pred()), comp@),
    {
        let lc = chars_of(ls[k].as_str());
        assert(lv.take(k + 1) == lv.take(k as int).push(lv[k as int]));
        proof {
            lv.take(k as int).lemma_filter_push(lv[k as int], hunk_pred());
        }
        let ghost before = lv.take(k as int).filter(hunk_pred());
        if lc.len() >= 2 && lc[0] == '@' && lc[1] == '@' {
            let found = contains_chars(comp, &lc);
            proof {
                lemma_count_missing_push(before, lv[k as int], comp@);
            }
            if !found {
                missing = missing + 1;
            }
        }
    }
    assert(lv.take(n as int) == lv);
    if missing == 0 {
        None
    } else {
        Some(count_message(missing, " @@ hunk header(s) missing"))
    }
}

// ---------------------------------------------------------------------------
// Check 3: file paths are kept
// ---------------------------------------------------------------------------

/// Whether a text contains `/` or `\`.
pub open spec fn has_path_sep(s: Seq<char>) -> bool {
    s.contains('/') || s.contains('\\')
}

/// Lines that may hold file paths: with a path separator, a `.`, and under 200 bytes.
pub open spec fn is_path_line(l: Seq<char>) -> bool {
    has_path_sep(l) && l.contains('.') && byte_len(l) < 200
}

pub open spec fn path_line_pred() -> spec_fn(Seq<char>) -> bool {
    |l: Seq<char>| is_path_line(l)
}

pub open spec fn path_token_pred() -> spec_fn(Seq<char>) -> bool {
    |w: Seq<char>| has_path_sep(w)
}

/// The words with a path separator of each line, in order.
pub open spec fn path_tokens(ls: Seq<Seq<char>>) -> Seq<Seq<char>>
    decreases ls.len(),
{
    if ls.len() == 0 {
        Seq::empty()
    } else {
        path_tokens(ls.drop_last()) + words(ls.last()).filter(path_token_pred())
    }
}

/// At most `n` first elements of `s`.
pub open spec fn take_at_most<A>(s: Seq<A>, n: int) -> Seq<A> {
    if s.len() <= n {
        s
    } else {
        s.take(n)
    }
}

/// The first 20 path lines of `o`.
pub open spec fn path_lines(o: Seq<char>) -> Seq<Seq<char>> {
    take_at_most(lines(o).filter(path_line_pred()), 20)
}

/// Number of path tokens of `o` that are not in `c`.
pub open spec fn missing_paths(o: Seq<char>, c: Seq<char>) -> nat {
    count_missing(path_tokens(path_lines(o)), c)
}

/// Outcome of the file-path check.
pub open spec fn file_paths_outcome(o: Seq<char>, c: Seq<char>) -> Option<DetailView> {
    let missing = missing_paths(o, c);
    if missing == 0 {
        None
    } else {
        Some(DetailView::Message(decimal(missing) + " file path(s) missing"@))
    }
}

/// Whether `line` is a path line.
fn is_path_line_exec(line: &str, lc: &Vec<char>) -> (r: bool)
    requires
        lc@ == line@,
    ensures
        r == is_path_line(line@),
{
    (contains_char(lc, '/') || contains_char(lc, '\\')) && contains_char(lc, '.') && byte_length(
        line,
    ) < 200
}

/// Number of path tokens of one line missing from `comp`.
fn missing_tokens_of_line(lc: &Vec<char>, comp: &Vec<char>) -> (r: usize)
    ensures
        r == count_missing(words(lc@).filter(path_token_pred()), comp@),
        r <= lc@.len(),
{
    let ws = split_words(lc);
    let ghost wv = char_views(ws@);
    proof {
        wv.lemma_filter_len(path_token_pred());
        lemma_words_len(lc@);
    }
    let mut missing: usize = 0;
    let n = ws.len();
    for j in 0..n
        invariant
            n == ws@.len(),
            wv == char_views(ws@),
            wv.len() <= lc@.len(),
            missing <= j,
            missing == count_missing(wv.take(j as int).filter(path_token_pred()), comp@),
    {
        let w = &ws[j];
        assert(wv.take(j + 1) == wv.take(j as int).push(wv[j as int]));
        proof {
            wv.take(j as int).lemma_filter_push(wv[j as int], path_token_pred());
        }
        if contains_char(w, '/') || contains_char(w, '\\') {
            proof {
                lemma_count_missing_push(
                    wv.take(j as int).filter(path_token_pred()),
                    wv[j as int],
                    comp@,
                );
            }
            if !contains_chars(comp, w) {
                missing = missing + 1;
            }
        }
    }
    assert(wv.take(n as int) == wv);
    missing
}

fn file_paths_check(ls: &Vec<String>, comp: &Vec<char>, o: Ghost<Seq<char>>) -> (r: Option<Detail>)
    requires
        string_views(ls@) == lines(o@),
    ensures
        opt_detail(r) == file_paths_outcome(o@, comp@),
{
    let ghost lv = string_views(ls@);
    let mut missing: usize = 0;
    let mut taken: usize = 0;
    let n = ls.len();
    for k in 0..n
        invariant
            n == ls@.len(),
            lv == string_views(ls@),
            taken <= 20,
            taken == take_at_most(lv.take(k as int).filter(path_line_pred()), 20).len(),
            missing <= 200 * taken,
            missing == count_missing(
                path_tokens(take_at_most(lv.take(k as int).filter(path_line_pred()), 20)),
                comp@,
            ),
    {
        let line = ls[k].as_str();
        let lc = chars_of(line);
        let ghost f = lv.take(k as int).filter(path_line_pred());
        assert(lv.take(k + 1) == lv.take(k as int).push(lv[k as int]));
        proof {
            lv.take(k as int).lemma_filter_push(lv[k as int], path_line_pred());
        }
        if is_path_line_exec(line, &lc) {
            if taken < 20 {
                let m = missing_tokens_of_line(&lc, comp);
                proof {
                    let fp = f.push(lv[k as int]);
                    assert(take_at_most(f, 20) == f);
                    assert(take_at_most(fp, 20) == fp);
                    assert(fp.drop_last() == f);
                    lemma_count_missing_concat(
                        path_tokens(f),
                        words(lv[k as int]).filter(path_token_pred()),
                        comp@,
                    );
                    lemma_byte_len_bound(lc@);
                }
                missing = missing + m;
                taken = taken + 1;
            } else {
                proof {
                    let fp = f.push(lv[k as int]);
                    assert(take_at_most(fp, 20) == take_at_most(f, 20));
                }
            }
        }
    }
    assert(lv.take(n as int) == lv);
    if missing == 0 {
        None
    } else {
        Some(count_message(missing, " file path(s) missing"))
    }
}

// ---------------------------------------------------------------------------
// Check 6: numeric values are kept
// ---------------------------------------------------------------------------

/// Number of occurrences of `c` in `s`.
pub open spec fn count_char(s: Seq<char>, c: char) -> nat
    decreases s.len(),
{
    if s.len() == 0 {
        0
    } else {
        count_char(s.drop_last(), c) + if s.last() == c {
            1nat
        } else {
            0nat
        }
    }
}

/// Number of ASCII digits in `s`.
pub open spec fn count_digits(s: Seq<char>) -> nat
    decreases s.len(),
{
    if s.len() == 0 {
        0
    } else {
        count_digits(s.drop_last()) + if '0' <= s.last() && s.last() <= '9' {
            1nat
        } else {
            0nat
        }
    }
}

/// Whether a text made of ASCII digits, `.` and `-` is a decimal number that
/// `f64`'s `FromStr` accepts: an optional `-`, then digits with at most one
/// `.` and at least one digit.
pub open spec fn float_literal(s: Seq<char>) -> bool {
    let body = if s.len() > 0 && s[0] == '-' {
        s.drop_first()
    } else {
        s
    };
    count_char(body, '-') == 0 && count_char(body, '.') <= 1 && count_digits(body) > 0
}

/// Numeric tokens that are checked: at least two characters and a number.
pub open spec fn is_numeric_token(s: Seq<char>) -> bool {
    s.len() >= 2 && float_literal(s)
}

pub open spec fn numeric_token_pred() -> spec_fn(Seq<char>) -> bool {
    |s: Seq<char>| is_numeric_token(s)
}

/// The first ten numeric tokens of `o`: pieces between characters that are
/// not digits, `.` or `-`.
pub open spec fn numeric_tokens(o: Seq<char>) -> Seq<Seq<char>> {
    take_at_most(segments(o, non_numeric_sep()).filter(numeric_token_pred()), 10)
}

/// Number of numeric tokens of `o` that are not in `c`.
pub open spec fn missing_numbers(o: Seq<char>, c: Seq<char>) -> nat {
    count_missing(numeric_tokens(o), c)
}

/// Outcome of the numeric-value check.
pub open spec fn numeric_values_outcome(o: Seq<char>, c: Seq<char>) -> Option<DetailView> {
    let missing = missing_numbers(o, c);
    if missing == 0 {
        None
    } else {
        Some(DetailView::Message(decimal(missing) + " numeric value(s) altered"@))
    }
}

/// Whether `s` is a numeric token.
fn is_numeric_token_exec(s: &Vec<char>) -> (r: bool)
    ensures
        r == is_numeric_token(s@),
{
    let n = s.len();
    if n < 2 {
        return false;
    }
    let start: usize = if s[0] == '-' {
        1
    } else {
        0
    };
    let ghost body = if s@[0] == '-' {
        s@.drop_first()
    } else {
        s@
    };
    assert(body == s@.subrange(start as int, n as int));
    let mut dashes: usize = 0;
    let mut dots: usize = 0;
    let mut digits: usize = 0;
    let mut i = start;
    while i < n
        invariant
            start <= i <= n == s@.len(),
            body == s@.subrange(start as int, n as int),
            dashes == count_char(body.take(i - start), '-'),
            dots == count_char(body.take(i - start), '.'),
            digits == count_digits(body.take(i - start)),
            dashes <= i,
            dots <= i,
            digits <= i,
        decreases n - i,
    {
        let c = s[i];
        assert(body.take(i + 1 - start).drop_last() == body.take(i - start));
        assert(body.take(i + 1 - start).last() == c);
        if c == '-' {
            dashes = dashes + 1;
        } else if c == '.' {
            dots = dots + 1;
        } else if '0' <= c && c <= '9' {
            digits = digits + 1;
        }
        i = i + 1;
    }
    assert(body.take(n - start) == body);
    dashes == 0 && dots <= 1 && digits > 0
}

fn numeric_values_check(ochars: &Vec<char>, comp: &Vec<char>) -> (r: Option<Detail>)
    ensures
        opt_detail(r) == numeric_values_outcome(ochars@, comp@),
{
    let pieces = split_segments(ochars, Separator::NonNumeric);
    let ghost pv = char_views(pieces@);
    let mut missing: usize = 0;
    let mut taken: usize = 0;
    let n = pieces.len();
    for k in 0..n
        invariant
            n == pieces@.len(),
            pv == char_views(pieces@),
            pv == segments(ochars@, non_numeric_sep()),
            taken <= 10,
            taken == take_at_most(pv.take(k as int).filter(numeric_token_pred()), 10).len(),
            missing <= taken,
            missing == count_missing(
                take_at_most(pv.take(k as int).filter(numeric_token_pred()), 10),
                comp@,
            ),
    {
        let p = &pieces[k];
        let ghost f = pv.take(k as int).filter(numeric_token_pred());
        assert(pv.take(k + 1) == pv.take(k as int).push(pv[k as int]));
        proof {
            pv.take(k as int).lemma_filter_push(pv[k as int], numeric_token_pred());
        }
        if is_numeric_token_exec(p) {
            if taken < 10 {
                proof {
                    let fp = f.push(pv[k as int]);
                    assert(take_at_most(f, 10) == f);
                    assert(take_at_most(fp, 10) == fp);
                    lemma_count_missing_push(f, pv[k as int], comp@);
                }
                if !contains_chars(comp, p) {
                    missing = missing + 1;
                }
                taken = taken + 1;
            } else {
                proof {
                    let fp = f.push(pv[k as int]);
                    assert(take_at_most(fp, 10) == take_at_most(f, 10));
                }
            }
        }
    }
    assert(pv.take(n as int) == pv);
    if missing == 0 {
        None
    } else {
        Some(count_message(missing, " numeric value(s) altered"))
    }
}

// ---------------------------------------------------------------------------
// Check 4: top-level JSON keys are mostly kept
// ---------------------------------------------------------------------------

/// The top-level keys of `text` when serde_json parses it as a JSON object
/// (`None` when it does not parse, or parses to another kind of value).
pub uninterp spec fn json_object_keys_of(text: Seq<char>) -> Option<Seq<Seq<char>>>;

/// Calls `serde_json::from_str::<serde_json::Value>` and, for an object,
/// hands back its keys; the result is named `json_object_keys_of`.
#[verifier::external_body]
fn json_object_keys(text: &str) -> (r: Option<Vec<String>>)
    ensures
        json_object_keys_of(text@) == (match r {
            Some(v) => Some(string_views(v@)),
            None => None,
        }),
{
    match serde_json::from_str::<serde_json::Value>(text) {
        Ok(serde_json::Value::Object(map)) => Some(map.into_iter().map(|(k, _)| k).collect()),
        Ok(_) => None,
        Err(_) => None,
    }
}

/// Outcome of the key count for a list of top-level keys: at least half of
/// the keys must occur in `c` (an empty list passes); else the fraction kept.
pub open spec fn keys_outcome(keys: Seq<Seq<char>>, c: Seq<char>) -> Option<DetailView> {
    if keys.len() == 0 {
        None
    } else {
        let present = keys.len() - count_missing(keys, c);
        if 2 * present >= keys.len() {
            None
        } else {
            Some(
                DetailView::KeysRetained(
                    Ratio { numerator: present as u64, denominator: keys.len() as u64 },
                ),
            )
        }
    }
}

/// Outcome of the JSON-key check: for an input that starts with `{` and
/// parses as an object, the key count of its top-level keys.
pub open spec fn json_keys_outcome(o: Seq<char>, c: Seq<char>) -> Option<DetailView> {
    let t = trim(o);
    if t.len() > 0 && t[0] == '{' {
        match json_object_keys_of(t) {
            Some(keys) => keys_outcome(keys, c),
            None => None,
        }
    } else {
        None
    }
}

/// The key count for the top-level keys `keys` of a JSON object and the
/// characters `comp` of the compressed output.
pub fn keys_check(keys: &Vec<String>, comp: &Vec<char>) -> (r: Option<Detail>)
    ensures
        opt_detail(r) == keys_outcome(string_views(keys@), comp@),
{
    let ghost kv = string_views(keys@);
    let n = keys.len();
    if n == 0 {
        return None;
    }
    let mut missing: usize = 0;
    for i in 0..n
        invariant
            n == keys@.len(),
            kv == string_views(keys@),
            missing <= i,
            missing == count_missing(kv.take(i as int), comp@),
    {
        let kc = chars_of(keys[i].as_str());
        assert(kv.take(i + 1) == kv.take(i as int).push(kv[i as int]));
        proof {
            lemma_count_missing_push(kv.take(i as int), kv[i as int], comp@);
        }
        if !contains_chars(comp, &kc) {
            missing = missing + 1;
        }
    }
    assert(kv.take(n as int) == kv);
    let present = n - missing;
    if (present as u128) * 2 >= n as u128 {
        return None;
    }
    Some(Detail::KeysRetained(Ratio { numerator: present as u64, denominator: n as u64 }))
}

fn json_keys_check(original: &str, comp: &Vec<char>) -> (r: Option<Detail>)
    ensures
        opt_detail(r) == json_keys_outcome(original@, comp@),
{
    let t = trim_str(original);
    let tc = chars_of(t);
    if !(tc.len() > 0 && tc[0] == '{') {
        return None;
    }
    match json_object_keys(t) {
        Some(keys) => keys_check(&keys, comp),
        None => None,
    }
}

// ---------------------------------------------------------------------------
// Results, confidence and the verifier
// ---------------------------------------------------------------------------

/// A fraction `numerator / denominator`.
#[derive(Clone, Copy, Debug, PartialEq, Eq)]
pub struct Ratio {
    pub numerator: u64,
    pub denominator: u64,
}

/// A fraction with a positive denominator.
pub open spec fn ratio_valid(r: Ratio) -> bool {
    r.denominator > 0
}

/// The product of two `u64` values.
fn mul_wide(a: u64, b: u64) -> (r: u128)
    ensures
        r == a * b,
{
    assert((a as u128) * (b as u128) <= u64::MAX * u64::MAX) by (nonlinear_arith)
        requires
            a <= u64::MAX,
            b <= u64::MAX,
    ;
    (a as u128) * (b as u128)
}

/// `x >= y`, compared by cross-multiplication (exact for positive denominators).
pub open spec fn at_least(x: Ratio, y: Ratio) -> bool {
    x.numerator * y.denominator >= y.numerator * x.denominator
}

/// The outcome of each check, with its name, in the order the checks run.
pub open spec fn outcomes(o: Seq<char>, c: Seq<char>) -> Seq<(Seq<char>, Option<DetailView>)> {
    seq![
        ("min_retention"@, retention_outcome(o, c)),
        ("error_lines"@, error_lines_outcome(o, c)),
        ("file_paths"@, file_paths_outcome(o, c)),
        ("json_keys"@, json_keys_outcome(o, c)),
        ("diff_hunks"@, diff_hunks_outcome(o, c)),
        ("numeric_values"@, numeric_values_outcome(o, c)),
    ]
}

/// Names of the checks that passed, in order.
pub open spec fn passed_of(outs: Seq<(Seq<char>, Option<DetailView>)>) -> Seq<Seq<char>>
    decreases outs.len(),
{
    if outs.len() == 0 {
        Seq::empty()
    } else {
        let rest = passed_of(outs.drop_last());
        if outs.last().1 is None {
            rest.push(outs.last().0)
        } else {
            rest
        }
    }
}

/// Names and details of the checks that failed, in order.
pub open spec fn failed_of(outs: Seq<(Seq<char>, Option<DetailView>)>) -> Seq<
    (Seq<char>, DetailView),
>
    decreases outs.len(),
{
    if outs.len() == 0 {
        Seq::empty()
    } else {
        let rest = failed_of(outs.drop_last());
        match outs.last().1 {
            Some(d) => rest.push((outs.last().0, d)),
            None => rest,
        }
    }
}

/// The character sequences of a list of (name, detail) strings.
pub open spec fn pair_views(v: Seq<(String, Detail)>) -> Seq<(Seq<char>, DetailView)> {
    v.map_values(|p: (String, Detail)| (p.0@, detail_view(p.1)))
}

/// The passed checks, the failed checks with their details, and the
/// confidence: passed checks over all checks.
pub struct VerifyResult {
    pub confidence: Ratio,
    pub passed: Vec<String>,
    pub failed: Vec<(String, Detail)>,
}

/// No failed check is the diagnostic-lines check.
pub open spec fn critical_ok(failed: Seq<(Seq<char>, DetailView)>) -> bool {
    forall|k: int| 0 <= k < failed.len() ==> (#[trigger] failed[k]).0 != "error_lines"@
}

impl VerifyResult {
    /// Whether no failed check is the diagnostic-lines check (dropping
    /// diagnostics is never safe).
    pub fn diagnostics_kept(&self) -> (r: bool)
        ensures
            r == critical_ok(pair_views(self.failed@)),
    {
        let ghost fv = pair_views(self.failed@);
        let key = "error_lines".to_owned();
        let n = self.failed.len();
        for k in 0..n
            invariant
                n == self.failed@.len(),
                fv == pair_views(self.failed@),
                key@ == "error_lines"@,
                forall|q: int| 0 <= q < k ==> (#[trigger] fv[q]).0 != "error_lines"@,
        {
            if self.failed[k].0 == key {
                assert(fv[k as int].0 == "error_lines"@);
                return false;
            }
        }
        true
    }

    /// Safe when no diagnostic line was dropped (a hard blocker) and the
    /// confidence reaches `threshold`.
    pub fn is_safe(&self, threshold: Ratio) -> (r: bool)
        ensures
            r == (critical_ok(pair_views(self.failed@)) && at_least(self.confidence, threshold)),
    {
        if !self.diagnostics_kept() {
            return false;
        }
        mul_wide(self.confidence.numerator, threshold.denominator) >= mul_wide(
            threshold.numerator,
            self.confidence.denominator,
        )
    }
}

/// Records the outcome of one check.
fn record(
    passed: &mut Vec<String>,
    failed: &mut Vec<(String, Detail)>,
    name: &str,
    outcome: Option<Detail>,
    outs: Ghost<Seq<(Seq<char>, Option<DetailView>)>>,
)
    requires
        string_views(old(passed)@) == passed_of(outs@),
        pair_views(old(failed)@) == failed_of(outs@),
    ensures
        string_views(final(passed)@) == passed_of(outs@.push((name@, opt_detail(outcome)))),
        pair_views(final(failed)@) == failed_of(outs@.push((name@, opt_detail(outcome)))),
        final(passed)@.len() <= old(passed)@.len() + 1,
{
    let ghost next = outs@.push((name@, opt_detail(outcome)));
    assert(next.drop_last() =~= outs@);
    assert(next.last() == (name@, opt_detail(outcome)));
    match outcome {
        None => {
            let ghost before = passed@;
            passed.push(name.to_owned());
            assert(string_views(passed@) == string_views(before).push(name@));
        },
        Some(d) => {
            let ghost before = failed@;
            let ghost dv = detail_view(d);
            failed.push((name.to_owned(), d));
            assert(pair_views(failed@) == pair_views(before).push((name@, dv)));
        },
    }
}

/// Whether the verification of `c` against `o` is safe at `threshold`.
pub open spec fn safe(o: Seq<char>, c: Seq<char>, threshold: Ratio) -> bool {
    let outs = outcomes(o, c);
    critical_ok(failed_of(outs)) && at_least(
        Ratio { numerator: passed_of(outs).len() as u64, denominator: 6 },
        threshold,
    )
}

proof fn lemma_passed_failed_len(outs: Seq<(Seq<char>, Option<DetailView>)>)
    ensures
        passed_of(outs).len() + failed_of(outs).len() == outs.len(),
    decreases outs.len(),
{
    if outs.len() > 0 {
        lemma_passed_failed_len(outs.drop_last());
    }
}

proof fn lemma_failed_none(outs: Seq<(Seq<char>, Option<DetailView>)>)
    requires
        forall|k: int| 0 <= k < outs.len() ==> (#[trigger] outs[k]).1 is None,
    ensures
        failed_of(outs).len() == 0,
    decreases outs.len(),
{
    if outs.len() > 0 {
        assert forall|k: int| 0 <= k < outs.drop_last().len() implies (
        #[trigger] outs.drop_last()[k]).1 is None by {
            assert(outs.drop_last()[k] == outs[k]);
        }
        lemma_failed_none(outs.drop_last());
        assert(outs[outs.len() - 1].1 is None);
    }
}

/// Every check is reported exactly once, as passed or as failed.
pub proof fn lemma_each_check_reported_once(o: Seq<char>, c: Seq<char>)
    ensures
        passed_of(outcomes(o, c)).len() + failed_of(outcomes(o, c)).len() == 6,
{
    lemma_passed_failed_len(outcomes(o, c));
}

proof fn lemma_failed_prefix(outs: Seq<(Seq<char>, Option<DetailView>)>, j: int, k: int)
    requires
        0 <= j <= k <= outs.len(),
    ensures
        failed_of(outs.take(j)).len() <= failed_of(outs.take(k)).len(),
        forall|i: int|
            0 <= i < failed_of(outs.take(j)).len() ==> #[trigger] failed_of(outs.take(k))[i]
                == failed_of(outs.take(j))[i],
    decreases k - j,
{
    if k > j {
        lemma_failed_prefix(outs, j, k - 1);
        assert(outs.take(k).drop_last() == outs.take(k - 1));
    }
}

/// Dropping a diagnostic line is never safe, whatever the threshold.
pub proof fn lemma_dropped_diagnostic_never_safe(o: Seq<char>, c: Seq<char>, threshold: Ratio)
    requires
        missing_critical(o, c) > 0,
    ensures
        !safe(o, c, threshold),
{
    let outs = outcomes(o, c);
    let f1 = failed_of(outs.take(1));
    let f2 = failed_of(outs.take(2));
    assert(outs.take(2).drop_last() == outs.take(1));
    assert(f2 == f1.push(("error_lines"@, error_lines_outcome(o, c)->0)));
    lemma_failed_prefix(outs, 2, 6);
    assert(outs.take(6) == outs);
    let f = failed_of(outs);
    assert(f[f1.len() as int].0 == "error_lines"@);
}

proof fn lemma_count_missing_none(items: Seq<Seq<char>>, hay: Seq<char>)
    requires
        all_substrings(items, hay),
    ensures
        count_missing(items, hay) == 0,
    decreases items.len(),
{
    if items.len() > 0 {
        assert forall|k: int| 0 <= k < items.drop_last().len() implies has_substring(
            hay,
            #[trigger] items.drop_last()[k],
        ) by {
            assert(items.drop_last()[k] == items[k]);
        }
        lemma_count_missing_none(items.drop_last(), hay);
        assert(has_substring(hay, items[items.len() - 1]));
    }
}

proof fn lemma_take_at_most_substrings(items: Seq<Seq<char>>, n: int, hay: Seq<char>)
    requires
        all_substrings(items, hay),
        0 <= n,
    ensures
        all_substrings(take_at_most(items, n), hay),
{
    assert forall|k: int| 0 <= k < take_at_most(items, n).len() implies has_substring(
        hay,
        #[trigger] take_at_most(items, n)[k],
    ) by {
        assert(take_at_most(items, n)[k] == items[k]);
    }
}

proof fn lemma_path_tokens_substrings(ls: Seq<Seq<char>>, hay: Seq<char>)
    requires
        all_substrings(ls, hay),
    ensures
        all_substrings(path_tokens(ls), hay),
    decreases ls.len(),
{
    if ls.len() > 0 {
        let init = ls.drop_last();
        let last = ls.last();
        assert forall|k: int| 0 <= k < init.len() implies has_substring(hay, #[trigger] init[k]) by {
            assert(init[k] == ls[k]);
        }
        lemma_path_tokens_substrings(init, hay);
        assert(has_substring(hay, ls[ls.len() - 1]));
        lemma_words_substrings(last);
        let ws = words(last);
        assert forall|k: int| 0 <= k < ws.len() implies has_substring(hay, #[trigger] ws[k]) by {
            lemma_substring_trans(hay, last, ws[k]);
        }
        lemma_filter_all_substrings(ws, path_token_pred(), hay);
        let a = path_tokens(init);
        let b = ws.filter(path_token_pred());
        assert forall|k: int| 0 <= k < (a + b).len() implies has_substring(
            hay,
            #[trigger] (a + b)[k],
        ) by {
            if k < a.len() {
                assert((a + b)[k] == a[k]);
            } else {
                assert((a + b)[k] == b[k - a.len()]);
            }
        }
    }
}

proof fn lemma_count_missing_mono(items: Seq<Seq<char>>, c1: Seq<char>, c2: Seq<char>)
    requires
        has_substring(c2, c1),
    ensures
        count_missing(items, c2) <= count_missing(items, c1),
    decreases items.len(),
{
    if items.len() > 0 {
        lemma_count_missing_mono(items.drop_last(), c1, c2);
        if has_substring(c1, items.last()) {
            lemma_substring_trans(c2, c1, items.last());
        }
    }
}

proof fn lemma_passed_mono(
    outs1: Seq<(Seq<char>, Option<DetailView>)>,
    outs2: Seq<(Seq<char>, Option<DetailView>)>,
)
    requires
        outs1.len() == outs2.len(),
        forall|k: int| 0 <= k < outs1.len() ==> (#[trigger] outs1[k]).0 == outs2[k].0,
        forall|k: int| 0 <= k < outs1.len() ==> (#[trigger] outs1[k]).1 is None ==> outs2[k].1 is None,
    ensures
        passed_of(outs1).len() <= passed_of(outs2).len(),
        forall|n: Seq<char>| passed_of(outs1).contains(n) ==> #[trigger] passed_of(outs2).contains(n),
    decreases outs1.len(),
{
    if outs1.len() > 0 {
        let i1 = outs1.drop_last();
        let i2 = outs2.drop_last();
        assert forall|k: int| 0 <= k < i1.len() implies (#[trigger] i1[k]).0 == i2[k].0 by {
            assert(i1[k] == outs1[k]);
            assert(i2[k] == outs2[k]);
        }
        assert forall|k: int| 0 <= k < i1.len() && (#[trigger] i1[k]).1 is None implies i2[k].1 is None by {
            assert(i1[k] == outs1[k]);
            assert(i2[k] == outs2[k]);
        }
        lemma_passed_mono(i1, i2);
        let l = outs1.len() - 1;
        assert(outs1.last() == outs1[l]);
        assert(outs2.last() == outs2[l]);
        let p1 = passed_of(i1);
        let p2 = passed_of(i2);
        let q1 = passed_of(outs1);
        let q2 = passed_of(outs2);
        if outs1.last().1 is None {
            assert(q1 == p1.push(outs1.last().0));
            assert(q2 == p2.push(outs2.last().0));
        } else {
            assert(q1 == p1);
            if outs2.last().1 is None {
                assert(q2 == p2.push(outs2.last().0));
            } else {
                assert(q2 == p2);
            }
        }
        assert forall|n: Seq<char>| q1.contains(n) implies #[trigger] q2.contains(n) by {
            let j1 = choose|j: int| 0 <= j < q1.len() && q1[j] == n;
            if j1 < p1.len() {
                assert(p1[j1] == n);
                assert(p1.contains(n));
                assert(p2.contains(n));
                let j = choose|j: int| 0 <= j < p2.len() && p2[j] == n;
                assert(q2[j] == n);
            } else {
                assert(n == outs1.last().0);
                assert(q2[p2.len() as int] == n);
            }
        }
    }
}

/// A compressed text that contains another never fails a check the other
/// passes: every check `c1` passes, `c2` passes too, so `c2` passes at least
/// as many checks and its confidence is at least as high.
pub proof fn lemma_more_kept_never_fails_more(o: Seq<char>, c1: Seq<char>, c2: Seq<char>)
    requires
        has_substring(c2, c1),
    ensures
        forall|k: int|
            0 <= k < 6 ==> (#[trigger] outcomes(o, c1)[k]).1 is None ==> outcomes(o, c2)[k].1 is None,
        forall|n: Seq<char>|
            passed_of(outcomes(o, c1)).contains(n) ==> #[trigger] passed_of(outcomes(o, c2)).contains(
                n,
            ),
        passed_of(outcomes(o, c1)).len() <= passed_of(outcomes(o, c2)).len(),
        at_least(
            Ratio { numerator: passed_of(outcomes(o, c2)).len() as u64, denominator: 6 },
            Ratio { numerator: passed_of(outcomes(o, c1)).len() as u64, denominator: 6 },
        ),
{
    lemma_byte_len_substring(c2, c1);
    lemma_count_missing_mono(trimmed_all(lines(o).filter(critical_pred())), c1, c2);
    lemma_count_missing_mono(path_tokens(path_lines(o)), c1, c2);
    lemma_count_missing_mono(lines(o).filter(hunk_pred()), c1, c2);
    lemma_count_missing_mono(numeric_tokens(o), c1, c2);
    let t = trim(o);
    if t.len() > 0 && t[0] == '{' {
        if let Some(keys) = json_object_keys_of(t) {
            lemma_count_missing_mono(keys, c1, c2);
            lemma_count_missing_bound(keys, c1);
            lemma_count_missing_bound(keys, c2);
        }
    }
    let o1 = outcomes(o, c1);
    let o2 = outcomes(o, c2);
    assert forall|k: int| 0 <= k < 6 && (#[trigger] o1[k]).1 is None implies o2[k].1 is None by {}
    lemma_passed_mono(o1, o2);
    lemma_passed_failed_len(o1);
    lemma_passed_failed_len(o2);
    assert(o1.len() == 6 && o2.len() == 6);
    let n1 = passed_of(o1).len();
    let n2 = passed_of(o2).len();
    assert(n1 <= 6 && n2 <= 6 && n1 <= n2);
    assert((n2 as u64) * 6 >= (n1 as u64) * 6);
}

/// Comparing a text with itself passes the retention, diagnostic-line,
/// file-path, hunk-header and numeric-value checks.
pub proof fn lemma_self_comparison_passes(o: Seq<char>)
    ensures
        retention_outcome(o, o) is None,
        error_lines_outcome(o, o) is None,
        file_paths_outcome(o, o) is None,
        diff_hunks_outcome(o, o) is None,
        numeric_values_outcome(o, o) is None,
        json_keys_outcome(o, o) is None ==> failed_of(outcomes(o, o)).len() == 0 && passed_of(
            outcomes(o, o),
        ).len() == 6,
{
    let ls = lines(o);
    lemma_lines_substrings(o);
    // diagnostic lines
    let crit = ls.filter(critical_pred());
    lemma_filter_all_substrings(ls, critical_pred(), o);
    let tr = trimmed_all(crit);
    assert forall|k: int| 0 <= k < tr.len() implies has_substring(o, #[trigger] tr[k]) by {
        lemma_trim_substring(crit[k]);
        lemma_substring_trans(o, crit[k], tr[k]);
    }
    lemma_count_missing_none(tr, o);
    // file paths
    lemma_filter_all_substrings(ls, path_line_pred(), o);
    lemma_take_at_most_substrings(ls.filter(path_line_pred()), 20, o);
    lemma_path_tokens_substrings(path_lines(o), o);
    lemma_count_missing_none(path_tokens(path_lines(o)), o);
    // hunk headers
    lemma_filter_all_substrings(ls, hunk_pred(), o);
    lemma_count_missing_none(ls.filter(hunk_pred()), o);
    // numbers
    lemma_segments_substrings(o, non_numeric_sep());
    let segs = segments(o, non_numeric_sep());
    lemma_filter_all_substrings(segs, numeric_token_pred(), o);
    lemma_take_at_most_substrings(segs.filter(numeric_token_pred()), 10, o);
    lemma_count_missing_none(numeric_tokens(o), o);
    let outs = outcomes(o, o);
    if json_keys_outcome(o, o) is None {
        assert forall|k: int| 0 <= k < outs.len() implies (#[trigger] outs[k]).1 is None by {}
        lemma_failed_none(outs);
        lemma_passed_failed_len(outs);
    }
}

/// Lowering the threshold never turns a safe result unsafe: if `r` is safe
/// at `t2` and `t1 <= t2` (fractions with positive denominators), `r` is
/// safe at `t1`.
pub proof fn lemma_is_safe_monotone(r: VerifyResult, t1: Ratio, t2: Ratio)
    requires
        ratio_valid(t1),
        ratio_valid(t2),
        at_least(t2, t1),
        critical_ok(pair_views(r.failed@)) && at_least(r.confidence, t2),
    ensures
        critical_ok(pair_views(r.failed@)) && at_least(r.confidence, t1),
{
    let xn = r.confidence.numerator as int;
    let xd = r.confidence.denominator as int;
    let an = t1.numerator as int;
    let ad = t1.denominator as int;
    let bn = t2.numerator as int;
    let bd = t2.denominator as int;
    assert(xn * ad >= an * xd) by (nonlinear_arith)
        requires
            xn * bd >= bn * xd,
            bn * ad >= an * bd,
            bd > 0,
            ad > 0,
            xd >= 0,
            xn >= 0,
            an >= 0,
            bn >= 0,
    {
        assert(xn * bd * ad >= bn * xd * ad);
        assert(bn * ad * xd >= an * bd * xd);
        assert(xn * ad * bd >= an * xd * bd);
    }
}

proof fn lemma_count_missing_pos(items: Seq<Seq<char>>, hay: Seq<char>, j: int)
    requires
        0 <= j < items.len(),
        !has_substring(hay, items[j]),
    ensures
        count_missing(items, hay) > 0,
    decreases items.len(),
{
    if j < items.len() - 1 {
        assert(items.drop_last()[j] == items[j]);
        lemma_count_missing_pos(items.drop_last(), hay, j);
    }
}

/// Whether line `l` starts with the two characters `@@`.
pub open spec fn starts_with_at_at(l: Seq<char>) -> bool {
    seq!['@', '@'].is_prefix_of(l)
}

/// The hunk-header check fails exactly when some line of the original that
/// starts with `@@` (whatever follows, such as a function name) does not
/// occur in the compressed text.
pub proof fn lemma_hunk_headers_decide(o: Seq<char>, c: Seq<char>)
    ensures
        (diff_hunks_outcome(o, c) is Some) <==> (exists|j: int|
            0 <= j < lines(o).len() && starts_with_at_at(#[trigger] lines(o)[j]) && !has_substring(
                c,
                lines(o)[j],
            )),
{
    let ls = lines(o);
    let f = ls.filter(hunk_pred());
    #[allow(deprecated)]
    ls.filter_lemma(hunk_pred());
    if exists|j: int| 0 <= j < ls.len() && starts_with_at_at(#[trigger] ls[j]) && !has_substring(c, ls[j]) {
        let j = choose|j: int| 0 <= j < ls.len() && starts_with_at_at(#[trigger] ls[j]) && !has_substring(c, ls[j]);
        assert(ls[j].subrange(0, 2)[0] == ls[j][0] && ls[j].subrange(0, 2)[1] == ls[j][1]);
        assert(hunk_pred()(ls[j]));
        ls.lemma_filter_contains(hunk_pred(), j);
        let i = choose|i: int| 0 <= i < f.len() && f[i] == ls[j];
        lemma_count_missing_pos(f, c, i);
    } else {
        assert forall|i: int| 0 <= i < f.len() implies has_substring(c, #[trigger] f[i]) by {
            assert(hunk_pred()(f[i]));
            assert(f.contains(f[i]));
            ls.lemma_filter_contains_rev(hunk_pred(), f[i]);
            let j = choose|j: int| 0 <= j < ls.len() && ls[j] == f[i];
            assert(ls[j].subrange(0, 2) =~= seq!['@', '@']);
            assert(starts_with_at_at(ls[j]));
        }
        lemma_count_missing_none(f, c);
    }
}

/// The markers whose presence in a lowercased line makes it a diagnostic.
pub open spec fn diagnostic_markers() -> Seq<Seq<char>> {
    seq!["error:"@, "warning:"@, "fatal:"@, "panic:"@, "exception:"@]
}

/// Whether `lo` contains one of the diagnostic markers.
pub open spec fn mentions_marker(lo: Seq<char>) -> bool {
    exists|m: int| 0 <= m < diagnostic_markers().len() && has_substring(lo, #[trigger] diagnostic_markers()[m])
}

proof fn lemma_mentions_marker(lo: Seq<char>)
    ensures
        mentions_marker(lo) == has_marker(lo),
{
    let ms = diagnostic_markers();
    assert(ms[0] == "error:"@);
    assert(ms[1] == "warning:"@);
    assert(ms[2] == "fatal:"@);
    assert(ms[3] == "panic:"@);
    assert(ms[4] == "exception:"@);
    if mentions_marker(lo) {
        let m = choose|m: int| 0 <= m < ms.len() && has_substring(lo, #[trigger] ms[m]);
        assert(0 <= m < 5);
    }
}

/// The diagnostic-line check fails exactly when some line of the original
/// whose lowercase form contains `error:`, `warning:`, `fatal:`, `panic:` or
/// `exception:` does not occur, trimmed, in the compressed text.
pub proof fn lemma_diagnostic_lines_decide(o: Seq<char>, c: Seq<char>)
    ensures
        (error_lines_outcome(o, c) is Some) <==> (exists|j: int|
            0 <= j < lines(o).len() && mentions_marker(lowercase(#[trigger] lines(o)[j]))
                && !has_substring(c, trim(lines(o)[j]))),
{
    let ls = lines(o);
    let f = ls.filter(critical_pred());
    let tf = trimmed_all(f);
    #[allow(deprecated)]
    ls.filter_lemma(critical_pred());
    if exists|j: int|
        0 <= j < ls.len() && mentions_marker(lowercase(#[trigger] ls[j])) && !has_substring(
            c,
            trim(ls[j]),
        ) {
        let j = choose|j: int|
            0 <= j < ls.len() && mentions_marker(lowercase(#[trigger] ls[j])) && !has_substring(
                c,
                trim(ls[j]),
            );
        lemma_mentions_marker(lowercase(ls[j]));
        assert(critical_pred()(ls[j]));
        ls.lemma_filter_contains(critical_pred(), j);
        let i = choose|i: int| 0 <= i < f.len() && f[i] == ls[j];
        assert(tf[i] == trim(ls[j]));
        lemma_count_missing_pos(tf, c, i);
    } else {
        assert forall|i: int| 0 <= i < tf.len() implies has_substring(c, #[trigger] tf[i]) by {
            assert(critical_pred()(f[i]));
            assert(f.contains(f[i]));
            ls.lemma_filter_contains_rev(critical_pred(), f[i]);
            let j = choose|j: int| 0 <= j < ls.len() && ls[j] == f[i];
            lemma_mentions_marker(lowercase(ls[j]));
            assert(mentions_marker(lowercase(ls[j])));
            assert(tf[i] == trim(ls[j]));
        }
        lemma_count_missing_none(tf, c);
    }
}

/// The retention check passes when the original is empty or the compressed
/// text keeps at least a tenth of its bytes; otherwise it fails with the
/// kept fraction, compressed bytes over original bytes.
pub proof fn lemma_retention_decides(o: Seq<char>, c: Seq<char>)
    ensures
        o.len() == 0 ==> retention_outcome(o, c) is None,
        byte_len(c) * 10 >= byte_len(o) ==> retention_outcome(o, c) is None,
        o.len() > 0 && byte_len(c) * 10 < byte_len(o) ==> retention_outcome(o, c) == Some(
            DetailView::Retention(
                Ratio { numerator: byte_len(c) as u64, denominator: byte_len(o) as u64 },
            ),
        ),
{
}

/// Whether some check of `outs` named `n` failed.
spec fn failed_by_some(outs: Seq<(Seq<char>, Option<DetailView>)>, n: Seq<char>) -> bool {
    exists|k: int| 0 <= k < outs.len() && outs[k].1 is Some && n == outs[k].0
}

proof fn lemma_failed_names(outs: Seq<(Seq<char>, Option<DetailView>)>)
    ensures
        forall|i: int|
            0 <= i < failed_of(outs).len() ==> #[trigger] failed_by_some(outs, failed_of(outs)[i].0),
    decreases outs.len(),
{
    if outs.len() > 0 {
        let init = outs.drop_last();
        lemma_failed_names(init);
        let f = failed_of(outs);
        let g = failed_of(init);
        let last = outs.len() - 1;
        assert(outs[last] == outs.last());
        assert forall|i: int| 0 <= i < f.len() implies #[trigger] failed_by_some(outs, f[i].0) by {
            match outs.last().1 {
                Some(d) => {
                    assert(f == g.push((outs.last().0, d)));
                    if i < g.len() {
                        assert(f[i] == g[i]);
                        assert(failed_by_some(init, g[i].0));
                        let k = choose|k: int|
                            0 <= k < init.len() && init[k].1 is Some && g[i].0 == init[k].0;
                        assert(init[k] == outs[k]);
                        assert(outs[k].1 is Some && f[i].0 == outs[k].0);
                    } else {
                        assert(outs[last].1 is Some && f[i].0 == outs[last].0);
                    }
                },
                None => {
                    assert(f == g);
                    assert(failed_by_some(init, g[i].0));
                    let k = choose|k: int|
                        0 <= k < init.len() && init[k].1 is Some && g[i].0 == init[k].0;
                    assert(init[k] == outs[k]);
                    assert(outs[k].1 is Some && f[i].0 == outs[k].0);
                },
            }
        }
    }
}

/// A compression is safe exactly when no diagnostic line of the original is
/// missing from it and its confidence (passed checks over six) reaches the
/// threshold: a compression below the threshold is never kept, whatever
/// else it preserves.
pub proof fn lemma_safe_exactly_when(o: Seq<char>, c: Seq<char>, threshold: Ratio)
    ensures
        safe(o, c, threshold) <==> (missing_critical(o, c) == 0 && at_least(
            Ratio { numerator: passed_of(outcomes(o, c)).len() as u64, denominator: 6 },
            threshold,
        )),
{
    if missing_critical(o, c) > 0 {
        lemma_dropped_diagnostic_never_safe(o, c, threshold);
    } else {
        let outs = outcomes(o, c);
        let f = failed_of(outs);
        lemma_failed_names(outs);
        reveal_strlit("min_retention");
        reveal_strlit("error_lines");
        reveal_strlit("file_paths");
        reveal_strlit("json_keys");
        reveal_strlit("diff_hunks");
        reveal_strlit("numeric_values");
        assert("error_lines"@.len() == 11);
        assert forall|i: int| 0 <= i < f.len() implies (#[trigger] f[i]).0 != "error_lines"@ by {
            assert(failed_by_some(outs, f[i].0));
            let k = choose|k: int| 0 <= k < outs.len() && outs[k].1 is Some && f[i].0 == outs[k].0;
            if k == 0 {
                assert(outs[k].0 == "min_retention"@);
                assert("min_retention"@.len() == 13);
            } else if k == 1 {
                assert(outs[k].1 is None);
            } else if k == 2 {
                assert(outs[k].0 == "file_paths"@);
                assert("file_paths"@.len() == 10);
            } else if k == 3 {
                assert(outs[k].0 == "json_keys"@);
                assert("json_keys"@.len() == 9);
            } else if k == 4 {
                assert(outs[k].0 == "diff_hunks"@);
                assert("diff_hunks"@.len() == 10);
            } else {
                assert(outs[k].0 == "numeric_values"@);
                assert("numeric_values"@.len() == 14);
            }
        }
    }
}

/// Runs the checks with a confidence threshold.
pub struct Verifier {
    pub threshold: Ratio,
}

impl Default for Verifier {
    /// The verifier with the default threshold of 3/5.
    fn default() -> (r: Self)
        ensures
            r.threshold == (Ratio { numerator: 3, denominator: 5 }),
    {
        Verifier::new()
    }
}

impl Verifier {
    /// The verifier with the default threshold of 3/5.
    pub fn new() -> (r: Self)
        ensures
            r.threshold == (Ratio { numerator: 3, denominator: 5 }),
    {
        Verifier { threshold: Ratio { numerator: 3, denominator: 5 } }
    }

    /// Verify that `compressed` is a safe reduction of `original`.
    /// Returns a `VerifyResult` with per-check details.
    pub fn verify(&self, original: &str, compressed: &str) -> (r: VerifyResult)
        ensures
            string_views(r.passed@) == passed_of(outcomes(original@, compressed@)),
            pair_views(r.failed@) == failed_of(outcomes(original@, compressed@)),
            r.confidence == (Ratio {
                numerator: passed_of(outcomes(original@, compressed@)).len() as u64,
                denominator: 6,
            }),
    {
        let ghost o = original@;
        let ghost c = compressed@;
        let comp = chars_of(compressed);
        let ochars = chars_of(original);
        let ls = split_lines(original);
        let mut passed: Vec<String> = Vec::new();
        let mut failed: Vec<(String, Detail)> = Vec::new();
        let ghost outs = outcomes(o, c);
        assert(passed_of(outs.take(0)) == Seq::<Seq<char>>::empty());
        assert(failed_of(outs.take(0)) == Seq::<(Seq<char>, DetailView)>::empty());
        assert(string_views(passed@) == Seq::<Seq<char>>::empty());
        assert(pair_views(failed@) == Seq::<(Seq<char>, DetailView)>::empty());

        let r1 = retention_check(original, compressed);
        assert(outs.take(1) == outs.take(0).push(("min_retention"@, opt_detail(r1))));
        record(&mut passed, &mut failed, "min_retention", r1, Ghost(outs.take(0)));

        let r2 = error_lines_check(&ls, &comp, Ghost(o));
        assert(outs.take(2) == outs.take(1).push(("error_lines"@, opt_detail(r2))));
        record(&mut passed, &mut failed, "error_lines", r2, Ghost(outs.take(1)));

        let r3 = file_paths_check(&ls, &comp, Ghost(o));
        assert(outs.take(3) == outs.take(2).push(("file_paths"@, opt_detail(r3))));
        record(&mut passed, &mut failed, "file_paths", r3, Ghost(outs.take(2)));

        let r4 = json_keys_check(original, &comp);
        assert(outs.take(4) == outs.take(3).push(("json_keys"@, opt_detail(r4))));
        record(&mut passed, &mut failed, "json_keys", r4, Ghost(outs.take(3)));

        let r5 = diff_hunks_check(&ls, &comp, Ghost(o));
        assert(outs.take(5) == outs.take(4).push(("diff_hunks"@, opt_detail(r5))));
        record(&mut passed, &mut failed, "diff_hunks", r5, Ghost(outs.take(4)));

        let r6 = numeric_values_check(&ochars, &comp);
        assert(outs.take(6) == outs.take(5).push(("numeric_values"@, opt_detail(r6))));
        record(&mut passed, &mut failed, "numeric_values", r6, Ghost(outs.take(5)));

        assert(outs.take(6) == outs);
        let np = passed.len();
        VerifyResult {
            confidence: Ratio { numerator: np as u64, denominator: 6 },
            passed,
            failed,
        }
    }

    /// `compressed` when it verifies as safe at this verifier's threshold, else `input`.
    pub fn compress_or_original(&self, input: &str, compressed: String) -> (r: String)
        ensures
            r@ == (if safe(input@, compressed@, self.threshold) {
                compressed@
            } else {
                input@
            }),
    {
        let result = self.verify(input, compressed.as_str());
        if result.is_safe(self.threshold) {
            compressed
        } else {
            input.to_owned()
        }
    }

    /// Apply compression `compress` to `input`. If verification fails, return `input` unchanged.
    pub fn verified_compress<F: FnOnce(&str) -> String>(&self, input: &str, compress: F) -> (r:
        String)
        requires
            call_requires(compress, (input,)),
        ensures
            exists|c: String|
                call_ensures(compress, (input,), c) && r@ == (if safe(input@, c@, self.threshold) {
                    c@
                } else {
                    input@
                }),
    {
        let compressed = compress(input);
        self.compress_or_original(input, compressed)
    }
}

} // verus!
