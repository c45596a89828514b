//! Character-level text utilities shared by the filters.
//!
//! Text is modelled as a sequence of `char`s (the view of `str` and `String`).
//! Byte lengths, where a rule speaks of them, are the length of the UTF-8
//! encoding of that sequence.

use vstd::prelude::*;
use vstd::utf8::*;
use vstd::string::StringSliceAdditionalSpecFns;

verus! {

// ---------------------------------------------------------------------------
// Trusted items from std
// ---------------------------------------------------------------------------

/// Whether a character has the Unicode `White_Space` property (listed in the
/// Unicode Character Database file `PropList.txt`): the controls U+0009 to
/// U+000D and U+0085, the space U+0020, the no-break spaces U+00A0 and
/// U+202F, U+1680, the spaces U+2000 to U+200A, the line and paragraph
/// separators U+2028 and U+2029, U+205F and U+3000.
pub open spec fn white_space(c: char) -> bool {
    let n = c as u32;
    ||| 0x9 <= n <= 0xd
    ||| n == 0x20
    ||| n == 0x85
    ||| n == 0xa0
    ||| n == 0x1680
    ||| 0x2000 <= n <= 0x200a
    ||| n == 0x2028
    ||| n == 0x2029
    ||| n == 0x202f
    ||| n == 0x205f
    ||| n == 0x3000
}

/// Calls `char::is_whitespace`, which the documentation says returns whether
/// the character has the Unicode `White_Space` property.
#[verifier::external_body]
pub(crate) fn is_white_space(c: char) -> (r: bool)
    ensures
        r == white_space(c),
{
    c.is_whitespace()
}

/// The lowercase form of a text, as `str::to_lowercase` computes it (the
/// Unicode lowercase mapping, where the mapping of a capital sigma depends
/// on the characters around it).
pub uninterp spec fn lowercase(s: Seq<char>) -> Seq<char>;

/// Calls `str::to_lowercase`; its result is named `lowercase`.
#[verifier::external_body]
pub(crate) fn to_lowercase(s: &str) -> (r: String)
    ensures
        r@ == lowercase(s@),
{
    s.to_lowercase()
}

/// Appends one character with `String::push`, which the documentation says
/// adds the character to the end of the string.
#[verifier::external_body]
pub(crate) fn push_char(s: &mut String, c: char)
    ensures
        final(s)@ == old(s)@.push(c),
{
    s.push(c)
}

// ---------------------------------------------------------------------------
// Characters
// ---------------------------------------------------------------------------

/// The characters of `s`, in order.
pub fn chars_of(s: &str) -> (r: Vec<char>)
    ensures
        r@ == s@,
{
    let mut v: Vec<char> = Vec::new();
    for c in it: s.chars()
        invariant
            v@ == it.seq().take(it.index()),
    {
        v.push(c);
    }
    v
}

/// A string holding the first `n` characters of `v`.
pub fn string_from_chars(v: &Vec<char>, n: usize) -> (r: String)
    requires
        n <= v@.len(),
    ensures
        r@ == v@.take(n as int),
{
    let mut s = String::new();
    let mut i: usize = 0;
    while i < n
        invariant
            i <= n <= v@.len(),
            s@ == v@.take(i as int),
        decreases n - i,
    {
        push_char(&mut s, v[i]);
        i = i + 1;
        assert(v@.take(i as int) == v@.take((i - 1) as int).push(v@[i - 1]));
    }
    s
}

/// Number of bytes of the UTF-8 encoding of a character sequence.
pub open spec fn byte_len(s: Seq<char>) -> int {
    encode_utf8(s).len() as int
}

/// Number of bytes of `s` (what `str::len` gives).
pub fn byte_length(s: &str) -> (r: usize)
    ensures
        r == byte_len(s@),
        r as int == s.spec_bytes().len(),
{
    let bytes = s.as_bytes();
    bytes.len()
}

// ---------------------------------------------------------------------------
// Trimming
// ---------------------------------------------------------------------------

/// `s` without its leading white space.
pub open spec fn trim_start(s: Seq<char>) -> Seq<char>
    decreases s.len(),
{
    if s.len() > 0 && white_space(s[0]) {
        trim_start(s.drop_first())
    } else {
        s
    }
}

/// `s` without its trailing white space.
pub open spec fn trim_end(s: Seq<char>) -> Seq<char>
    decreases s.len(),
{
    if s.len() > 0 && white_space(s.last()) {
        trim_end(s.drop_last())
    } else {
        s
    }
}

/// `s` without leading and trailing white space (what `str::trim` gives).
pub open spec fn trim(s: Seq<char>) -> Seq<char> {
    trim_end(trim_start(s))
}

proof fn lemma_trim_start_skip(s: Seq<char>, i: int)
    requires
        0 <= i <= s.len(),
        forall|k: int| 0 <= k < i ==> white_space(#[trigger] s[k]),
    ensures
        trim_start(s) == trim_start(s.subrange(i, s.len() as int)),
    decreases i,
{
    if i > 0 {
        lemma_trim_start_skip(s.drop_first(), i - 1);
        assert(s.drop_first().subrange(i - 1, s.drop_first().len() as int) == s.subrange(
            i,
            s.len() as int,
        ));
    } else {
        assert(s.subrange(0, s.len() as int) == s);
    }
}

proof fn lemma_trim_end_take(s: Seq<char>, j: int)
    requires
        0 <= j <= s.len(),
        forall|k: int| j <= k < s.len() ==> white_space(#[trigger] s[k]),
    ensures
        trim_end(s) == trim_end(s.subrange(0, j)),
    decreases s.len() - j,
{
    if j < s.len() {
        lemma_trim_end_take(s.drop_last(), j);
        assert(s.drop_last().subrange(0, j) == s.subrange(0, j));
    } else {
        assert(s.subrange(0, j) == s);
    }
}

/// Positions `(a, b)` such that `chars[a..b]` is `chars` trimmed.
pub fn trim_bounds(chars: &Vec<char>) -> (r: (usize, usize))
    ensures
        r.0 <= r.1 <= chars@.len(),
        chars@.subrange(r.0 as int, r.1 as int) == trim(chars@),
{
    let n = chars.len();
    let mut a: usize = 0;
    while a < n && is_white_space(chars[a])
        invariant
            a <= n == chars@.len(),
            forall|k: int| 0 <= k < a ==> white_space(#[trigger] chars@[k]),
        decreases n - a,
    {
        a = a + 1;
    }
    let mut b: usize = n;
    while b > a && is_white_space(chars[b - 1])
        invariant
            a <= b <= n == chars@.len(),
            forall|k: int| b <= k < n ==> white_space(#[trigger] chars@[k]),
        decreases b - a,
    {
        b = b - 1;
    }
    proof {
        let s = chars@;
        lemma_trim_start_skip(s, a as int);
        let t = s.subrange(a as int, n as int);
        if a < n {
            assert(!white_space(t[0]));
        }
        assert(trim_start(t) == t);
        lemma_trim_end_take(t, (b - a) as int);
        assert(t.subrange(0, (b - a) as int) == s.subrange(a as int, b as int));
        let u = s.subrange(a as int, b as int);
        if b > a {
            assert(!white_space(u.last()));
        }
        assert(trim_end(u) == u);
    }
    (a, b)
}

/// `s` with leading and trailing white space removed.
pub fn trim_str(s: &str) -> (r: &str)
    ensures
        r@ == trim(s@),
{
    let chars = chars_of(s);
    let (a, b) = trim_bounds(&chars);
    s.substring_char(a, b)
}

// ---------------------------------------------------------------------------
// Splitting
// ---------------------------------------------------------------------------

/// A separator predicate used to cut text into pieces.
pub enum Separator {
    /// `'\n'`.
    Newline,
    /// Any character with the `White_Space` property.
    WhiteSpace,
    /// Any character that is neither an ASCII digit, `'.'` nor `'-'`.
    NonNumeric,
}

/// Characters that may occur in a numeric token: ASCII digits, `'.'` and `'-'`.
pub open spec fn numeric_char(c: char) -> bool {
    ('0' <= c && c <= '9') || c == '.' || c == '-'
}

pub open spec fn newline_sep() -> spec_fn(char) -> bool {
    |c: char| c == '\n'
}

pub open spec fn white_sep() -> spec_fn(char) -> bool {
    |c: char| white_space(c)
}

pub open spec fn non_numeric_sep() -> spec_fn(char) -> bool {
    |c: char| !numeric_char(c)
}

/// The predicate a separator stands for.
pub open spec fn sep_pred(k: Separator) -> spec_fn(char) -> bool {
    match k {
        Separator::Newline => newline_sep(),
        Separator::WhiteSpace => white_sep(),
        Separator::NonNumeric => non_numeric_sep(),
    }
}

/// Whether `c` is a separator of kind `k`.
pub fn is_separator(k: &Separator, c: char) -> (r: bool)
    ensures
        r == sep_pred(*k)(c),
{
    match k {
        Separator::Newline => c == '\n',
        Separator::WhiteSpace => is_white_space(c),
        Separator::NonNumeric => !(('0' <= c && c <= '9') || c == '.' || c == '-'),
    }
}

/// Scanning `s` from the left: the pieces closed by a separator so far,
/// and the piece still open.
pub open spec fn seg_scan(s: Seq<char>, sep: spec_fn(char) -> bool) -> (Seq<Seq<char>>, Seq<char>)
    decreases s.len(),
{
    if s.len() == 0 {
        (Seq::empty(), Seq::empty())
    } else {
        let prev = seg_scan(s.drop_last(), sep);
        if sep(s.last()) {
            (prev.0.push(prev.1), Seq::empty())
        } else {
            (prev.0, prev.1.push(s.last()))
        }
    }
}

/// The pieces of `s` between separators, empty ones included: what
/// `str::split` with a character predicate yields. There is always at least one.
pub open spec fn segments(s: Seq<char>, sep: spec_fn(char) -> bool) -> Seq<Seq<char>> {
    let st = seg_scan(s, sep);
    st.0.push(st.1)
}

/// The character sequences held by a vector of character vectors.
pub open spec fn char_views(v: Seq<Vec<char>>) -> Seq<Seq<char>> {
    v.map_values(|x: Vec<char>| x@)
}

/// The character sequences held by a vector of strings.
pub open spec fn string_views(v: Seq<String>) -> Seq<Seq<char>> {
    v.map_values(|x: String| x@)
}

/// The pieces of `chars` cut at every separator of kind `kind`.
pub fn split_segments(chars: &Vec<char>, kind: Separator) -> (r: Vec<Vec<char>>)
    ensures
        char_views(r@) == segments(chars@, sep_pred(kind)),
{
    let ghost sep = sep_pred(kind);
    let mut done: Vec<Vec<char>> = Vec::new();
    let mut cur: Vec<char> = Vec::new();
    let n = chars.len();
    for i in 0..n
        invariant
            n == chars@.len(),
            sep == sep_pred(kind),
            char_views(done@) == seg_scan(chars@.take(i as int), sep).0,
            cur@ == seg_scan(chars@.take(i as int), sep).1,
    {
        let c = chars[i];
        assert(chars@.take(i + 1).drop_last() == chars@.take(i as int));
        if is_separator(&kind, c) {
            let ghost old_done = done@;
            done.push(cur);
            assert(char_views(done@) == char_views(old_done).push(cur@));
            cur = Vec::new();
        } else {
            cur.push(c);
        }
    }
    assert(chars@.take(n as int) == chars@);
    let ghost old_done = done@;
    done.push(cur);
    assert(char_views(done@) == char_views(old_done).push(cur@));
    done
}

/// `l` without one trailing carriage return.
pub open spec fn strip_cr(l: Seq<char>) -> Seq<char> {
    if l.len() > 0 && l.last() == '\r' {
        l.drop_last()
    } else {
        l
    }
}

/// The lines of `s`, as `str::lines` yields them: pieces between `'\n'`,
/// a `'\r'` right before a `'\n'` dropped, and no final empty line after a
/// terminating `'\n'` (so the empty text has no line).
pub open spec fn lines(s: Seq<char>) -> Seq<Seq<char>> {
    let segs = segments(s, newline_sep());
    let n = segs.len() as int;
    let k = if segs.last().len() == 0 {
        n - 1
    } else {
        n
    };
    Seq::new(
        k as nat,
        |i: int|
            if i < n - 1 {
                strip_cr(segs[i])
            } else {
                segs[i]
            },
    )
}

/// The lines of `s` (see `lines`).
pub fn split_lines(s: &str) -> (r: Vec<String>)
    ensures
        string_views(r@) == lines(s@),
{
    let chars = chars_of(s);
    let segs = split_segments(&chars, Separator::Newline);
    let ghost sv = segments(s@, newline_sep());
    assert(char_views(segs@) == sv);
    let n = segs.len();
    assert(segs@[n - 1]@ == sv[n - 1]);
    let k = if segs[n - 1].len() == 0 {
        n - 1
    } else {
        n
    };
    let mut out: Vec<String> = Vec::new();
    for i in 0..k
        invariant
            k <= n == segs@.len() == sv.len(),
            k == lines(s@).len(),
            char_views(segs@) == sv,
            sv == segments(s@, newline_sep()),
            out@.len() == i,
            forall|j: int| 0 <= j < i ==> #[trigger] out@[j]@ == lines(s@)[j],
    {
        let seg = &segs[i];
        assert(seg@ == sv[i as int]);
        let len = seg.len();
        let strip = i + 1 < n && len > 0 && seg[len - 1] == '\r';
        let line = if strip {
            string_from_chars(seg, len - 1)
        } else {
            string_from_chars(seg, len)
        };
        assert(seg@.take(len as int) == seg@);
        out.push(line);
    }
    assert(string_views(out@) == lines(s@));
    out
}

/// The non-empty pieces of `s` between white space: what `str::split_whitespace` yields.
pub open spec fn words(s: Seq<char>) -> Seq<Seq<char>> {
    segments(s, white_sep()).filter(nonempty())
}

pub open spec fn nonempty() -> spec_fn(Seq<char>) -> bool {
    |w: Seq<char>| w.len() > 0
}

proof fn lemma_seg_scan_words(s: Seq<char>)
    ensures
        seg_scan(s, white_sep()).0.filter(nonempty()).len() + (if seg_scan(s, white_sep()).1.len()
            > 0 {
            1int
        } else {
            0int
        }) <= s.len(),
    decreases s.len(),
{
    if s.len() > 0 {
        lemma_seg_scan_words(s.drop_last());
        let prev = seg_scan(s.drop_last(), white_sep());
        prev.0.lemma_filter_push(prev.1, nonempty());
    }
}

/// A text has at most as many words as characters.
pub proof fn lemma_words_len(s: Seq<char>)
    ensures
        words(s).len() <= s.len(),
{
    lemma_seg_scan_words(s);
    let st = seg_scan(s, white_sep());
    st.0.lemma_filter_push(st.1, nonempty());
}

/// A text has at least as many bytes as characters.
pub proof fn lemma_byte_len_bound(s: Seq<char>)
    ensures
        s.len() <= byte_len(s),
    decreases s.len(),
{
    if s.len() > 0 {
        lemma_byte_len_bound(s.drop_first());
    }
}

/// The words of `chars` (see `words`).
pub fn split_words(chars: &Vec<char>) -> (r: Vec<Vec<char>>)
    ensures
        char_views(r@) == words(chars@),
{
    let segs = split_segments(chars, Separator::WhiteSpace);
    let ghost sv = char_views(segs@);
    let mut out: Vec<Vec<char>> = Vec::new();
    let n = segs.len();
    for i in 0..n
        invariant
            n == segs@.len(),
            sv == char_views(segs@),
            char_views(out@) == sv.take(i as int).filter(nonempty()),
    {
        assert(sv.take(i + 1) == sv.take(i as int).push(sv[i as int]));
        proof { sv.take(i as int).lemma_filter_push(sv[i as int], nonempty()); }
        if segs[i].len() > 0 {
            let ghost old_out = out@;
            out.push(segs[i].clone());
            assert(char_views(out@) == char_views(old_out).push(sv[i as int]));
        }
    }
    assert(sv.take(n as int) == sv);
    out
}

// ---------------------------------------------------------------------------
// Searching
// ---------------------------------------------------------------------------

/// Whether `needle` occurs in `hay` as a contiguous piece (what `str::contains` decides).
pub open spec fn has_substring(hay: Seq<char>, needle: Seq<char>) -> bool {
    exists|i: int|
        0 <= i && i + needle.len() <= hay.len() && #[trigger] hay.subrange(i, i + needle.len())
            == needle
}

/// The encoding of two texts one after the other is as long as both encodings.
pub proof fn lemma_byte_len_concat(a: Seq<char>, b: Seq<char>)
    ensures
        byte_len(a + b) == byte_len(a) + byte_len(b),
    decreases a.len(),
{
    if a.len() > 0 {
        lemma_byte_len_concat(a.drop_first(), b);
        assert((a + b).drop_first() == a.drop_first() + b);
        assert((a + b)[0] == a[0]);
    } else {
        assert(a + b == b);
    }
}

/// A piece of a text has no more bytes than the text.
pub proof fn lemma_byte_len_substring(s: Seq<char>, w: Seq<char>)
    requires
        has_substring(s, w),
    ensures
        byte_len(w) <= byte_len(s),
{
    let i = choose|i: int|
        0 <= i && i + w.len() <= s.len() && #[trigger] s.subrange(i, i + w.len()) == w;
    let pre = s.subrange(0, i);
    let post = s.subrange(i + w.len(), s.len() as int);
    assert(s == pre + w + post);
    lemma_byte_len_concat(pre + w, post);
    lemma_byte_len_concat(pre, w);
}

/// Every piece of text taken from positions `i..j` occurs in it.
pub proof fn lemma_subrange_is_substring(s: Seq<char>, i: int, j: int)
    requires
        0 <= i <= j <= s.len(),
    ensures
        has_substring(s, s.subrange(i, j)),
{
    let w = s.subrange(i, j);
    assert(s.subrange(i, i + w.len()) == w);
}

/// A piece of a piece of `s` is a piece of `s`.
pub proof fn lemma_substring_trans(s: Seq<char>, w: Seq<char>, v: Seq<char>)
    requires
        has_substring(s, w),
        has_substring(w, v),
    ensures
        has_substring(s, v),
{
    let i = choose|i: int|
        0 <= i && i + w.len() <= s.len() && #[trigger] s.subrange(i, i + w.len()) == w;
    let j = choose|j: int|
        0 <= j && j + v.len() <= w.len() && #[trigger] w.subrange(j, j + v.len()) == v;
    assert(s.subrange(i + j, i + j + v.len()) == v);
}

/// Whether every element of `items` occurs in `hay`.
pub open spec fn all_substrings(items: Seq<Seq<char>>, hay: Seq<char>) -> bool {
    forall|k: int| 0 <= k < items.len() ==> has_substring(hay, #[trigger] items[k])
}

/// Filtering keeps only elements that were there.
pub proof fn lemma_filter_all_substrings(
    items: Seq<Seq<char>>,
    pred: spec_fn(Seq<char>) -> bool,
    hay: Seq<char>,
)
    requires
        all_substrings(items, hay),
    ensures
        all_substrings(items.filter(pred), hay),
    decreases items.len(),
{
    reveal(Seq::filter);
    if items.len() > 0 {
        lemma_filter_all_substrings(items.drop_last(), pred, hay);
        let rest = items.drop_last().filter(pred);
        assert(items[items.len() - 1] == items.last());
        assert forall|k: int| 0 <= k < items.filter(pred).len() implies has_substring(
            hay,
            #[trigger] items.filter(pred)[k],
        ) by {
            if k < rest.len() {
                assert(items.filter(pred)[k] == rest[k]);
            }
        }
    }
}

proof fn lemma_seg_scan_substrings(s: Seq<char>, sep: spec_fn(char) -> bool)
    ensures
        all_substrings(seg_scan(s, sep).0, s),
        seg_scan(s, sep).1.len() <= s.len(),
        seg_scan(s, sep).1 == s.subrange(s.len() - seg_scan(s, sep).1.len(), s.len() as int),
    decreases s.len(),
{
    if s.len() > 0 {
        let t = s.drop_last();
        lemma_seg_scan_substrings(t, sep);
        lemma_subrange_is_substring(s, 0, t.len() as int);
        assert(s.subrange(0, t.len() as int) == t);
        let prev = seg_scan(t, sep);
        assert forall|k: int| 0 <= k < prev.0.len() implies has_substring(s, #[trigger] prev.0[k]) by {
            lemma_substring_trans(s, t, prev.0[k]);
        }
        if sep(s.last()) {
            lemma_subrange_is_substring(t, t.len() - prev.1.len(), t.len() as int);
            lemma_substring_trans(s, t, prev.1);
            let d = prev.0.push(prev.1);
            assert forall|k: int| 0 <= k < d.len() implies has_substring(s, #[trigger] d[k]) by {
                if k < prev.0.len() {
                    assert(d[k] == prev.0[k]);
                }
            }
            assert(s.subrange(s.len() as int, s.len() as int) == Seq::<char>::empty());
        } else {
            assert(prev.1.push(s.last()) == s.subrange(
                s.len() - prev.1.len() - 1,
                s.len() as int,
            ));
        }
    }
}

/// Every piece cut from `s` occurs in `s`.
pub proof fn lemma_segments_substrings(s: Seq<char>, sep: spec_fn(char) -> bool)
    ensures
        all_substrings(segments(s, sep), s),
{
    lemma_seg_scan_substrings(s, sep);
    let st = seg_scan(s, sep);
    lemma_subrange_is_substring(s, s.len() - st.1.len(), s.len() as int);
    let d = st.0.push(st.1);
    assert forall|k: int| 0 <= k < d.len() implies has_substring(s, #[trigger] d[k]) by {
        if k < st.0.len() {
            assert(d[k] == st.0[k]);
        }
    }
}

/// Every line of `s` occurs in `s`.
pub proof fn lemma_lines_substrings(s: Seq<char>)
    ensures
        all_substrings(lines(s), s),
{
    let segs = segments(s, newline_sep());
    lemma_segments_substrings(s, newline_sep());
    assert forall|k: int| 0 <= k < lines(s).len() implies has_substring(s, #[trigger] lines(s)[k]) by {
        let x = segs[k];
        if x.len() > 0 && x.last() == '\r' {
            lemma_subrange_is_substring(x, 0, x.len() - 1);
            assert(x.drop_last() == x.subrange(0, x.len() - 1));
            lemma_substring_trans(s, x, x.drop_last());
        }
    }
}

/// Every word of `s` occurs in `s`.
pub proof fn lemma_words_substrings(s: Seq<char>)
    ensures
        all_substrings(words(s), s),
{
    lemma_segments_substrings(s, white_sep());
    lemma_filter_all_substrings(segments(s, white_sep()), nonempty(), s);
}

proof fn lemma_trim_start_substring(s: Seq<char>)
    ensures
        has_substring(s, trim_start(s)),
    decreases s.len(),
{
    if s.len() > 0 && white_space(s[0]) {
        lemma_trim_start_substring(s.drop_first());
        lemma_subrange_is_substring(s, 1, s.len() as int);
        assert(s.drop_first() == s.subrange(1, s.len() as int));
        lemma_substring_trans(s, s.drop_first(), trim_start(s.drop_first()));
    } else {
        lemma_subrange_is_substring(s, 0, s.len() as int);
        assert(s.subrange(0, s.len() as int) == s);
    }
}

proof fn lemma_trim_end_substring(s: Seq<char>)
    ensures
        has_substring(s, trim_end(s)),
    decreases s.len(),
{
    if s.len() > 0 && white_space(s.last()) {
        lemma_trim_end_substring(s.drop_last());
        lemma_subrange_is_substring(s, 0, s.len() - 1);
        assert(s.drop_last() == s.subrange(0, s.len() - 1));
        lemma_substring_trans(s, s.drop_last(), trim_end(s.drop_last()));
    } else {
        lemma_subrange_is_substring(s, 0, s.len() as int);
        assert(s.subrange(0, s.len() as int) == s);
    }
}

/// A trimmed text occurs in the text.
pub proof fn lemma_trim_substring(s: Seq<char>)
    ensures
        has_substring(s, trim(s)),
{
    lemma_trim_start_substring(s);
    lemma_trim_end_substring(trim_start(s));
    lemma_substring_trans(s, trim_start(s), trim(s));
}

/// Whether `c` occurs in `v`.
pub fn contains_char(v: &Vec<char>, c: char) -> (r: bool)
    ensures
        r == v@.contains(c),
{
    let n = v.len();
    for i in 0..n
        invariant
            n == v@.len(),
            forall|k: int| 0 <= k < i ==> v@[k] != c,
    {
        if v[i] == c {
            assert(v@[i as int] == c);
            return true;
        }
    }
    false
}

/// Whether `needle` occurs at position `i` of `hay`.
fn matches_at(hay: &Vec<char>, needle: &Vec<char>, i: usize) -> (r: bool)
    requires
        i + needle@.len() <= hay@.len(),
    ensures
        r == (hay@.subrange(i as int, i + needle@.len()) == needle@),
{
    let m = needle.len();
    let mut k: usize = 0;
    while k < m
        invariant
            i + m <= hay@.len(),
            hay@.len() == hay.len(),
            m == needle@.len(),
            k <= m,
            forall|t: int| 0 <= t < k ==> hay@[i + t] == needle@[t],
        decreases m - k,
    {
        if hay[i + k] != needle[k] {
            assert(hay@.subrange(i as int, i + m)[k as int] != needle@[k as int]);
            return false;
        }
        k = k + 1;
    }
    assert(hay@.subrange(i as int, i + m) == needle@);
    true
}

/// Whether `needle` occurs in `hay`.
pub fn contains_chars(hay: &Vec<char>, needle: &Vec<char>) -> (r: bool)
    ensures
        r == has_substring(hay@, needle@),
{
    let h = hay.len();
    let m = needle.len();
    if m > h {
        return false;
    }
    let mut i: usize = 0;
    loop
        invariant
            m <= h,
            h == hay@.len(),
            m == needle@.len(),
            i <= h - m,
            forall|t: int| 0 <= t < i ==> #[trigger] hay@.subrange(t, t + m) != needle@,
        ensures
            forall|t: int| 0 <= t <= h - m ==> #[trigger] hay@.subrange(t, t + m) != needle@,
        decreases h - m - i,
    {
        if matches_at(hay, needle, i) {
            return true;
        }
        if i == h - m {
            break;
        }
        i = i + 1;
    }
    false
}

// ---------------------------------------------------------------------------
// Building output
// ---------------------------------------------------------------------------

/// The decimal digit for `d < 10`.
pub open spec fn digit_char(d: nat) -> char {
    ((d + 48) as u8) as char
}

/// The decimal representation of `n`, without leading zeros.
pub open spec fn decimal(n: nat) -> Seq<char>
    decreases n,
{
    if n < 10 {
        seq![digit_char(n)]
    } else {
        decimal(n / 10).push(digit_char(n % 10))
    }
}

/// Appends the decimal representation of `n`.
pub fn push_decimal(s: &mut String, n: usize)
    ensures
        final(s)@ == old(s)@ + decimal(n as nat),
    decreases n,
{
    if n >= 10 {
        push_decimal(s, n / 10);
    }
    let d = (n % 10) as u8;
    push_char(s, (d + 48) as char);
}

/// The pieces of `parts` with `sep` between consecutive ones.
pub open spec fn join(parts: Seq<Seq<char>>, sep: Seq<char>) -> Seq<char>
    decreases parts.len(),
{
    if parts.len() == 0 {
        Seq::empty()
    } else if parts.len() == 1 {
        parts[0]
    } else {
        join(parts.drop_last(), sep) + sep + parts.last()
    }
}

/// Appends the strings of `parts`, separated by `sep`.
pub fn push_joined(out: &mut String, parts: &Vec<String>, sep: &str)
    ensures
        final(out)@ == old(out)@ + join(string_views(parts@), sep@),
{
    let ghost start = out@;
    let ghost pv = string_views(parts@);
    let n = parts.len();
    for i in 0..n
        invariant
            n == parts@.len(),
            pv == string_views(parts@),
            out@ == start + join(pv.take(i as int), sep@),
    {
        assert(pv.take(i + 1).drop_last() == pv.take(i as int));
        if i > 0 {
            out.append(sep);
        }
        out.append(parts[i].as_str());
        assert(pv.take(i + 1).last() == parts@[i as int]@);
        if i == 0 {
            assert(join(pv.take(0), sep@) == Seq::<char>::empty());
            assert(out@ == start + join(pv.take(1), sep@));
        } else {
            assert(out@ == start + join(pv.take(i as int), sep@) + sep@ + pv.take(i + 1).last());
        }
    }
    assert(pv.take(n as int) == pv);
}

} // verus!
