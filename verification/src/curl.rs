//! Filtering of curl response bodies: long plain-text bodies shown on a
//! terminal are cut to about 500 bytes (at a character boundary) with a note
//! of the full size; JSON documents and piped output pass through whole.

use vstd::prelude::*;
use vstd::utf8::*;
use crate::text::{byte_len, byte_length, chars_of, decimal, push_decimal, trim, trim_str};

verus! {

/// Bodies of at least this many bytes may be truncated.
pub const MAX_RESPONSE_SIZE: usize = 500;

/// What the curl filter shows: the body to print and the hint line that
/// points at the saved full output, if one is to be printed.
pub struct FilterResult {
    pub content: String,
    pub tee_hint: Option<String>,
}

/// Whether a (trimmed) body looks like a JSON object or array.
pub open spec fn looks_like_json(t: Seq<char>) -> bool {
    t.len() > 0 && ((t[0] == '{' && t.last() == '}') || (t[0] == '[' && t.last() == ']'))
}

/// Whether a trimmed body is truncated: on a terminal, not JSON, at least
/// `MAX_RESPONSE_SIZE` bytes, and only when a hint to the full output exists.
pub open spec fn should_truncate(t: Seq<char>, is_tty: bool, has_hint: bool) -> bool {
    is_tty && !looks_like_json(t) && byte_len(t) >= MAX_RESPONSE_SIZE && has_hint
}

/// The largest character boundary of `bytes` that is at most `k`.
pub open spec fn cut_point(bytes: Seq<u8>, k: int) -> int
    decreases k,
{
    if k <= 0 {
        0
    } else if is_char_boundary(bytes, k) {
        k
    } else {
        cut_point(bytes, k - 1)
    }
}

/// A truncated body: the longest prefix of at most `MAX_RESPONSE_SIZE` bytes
/// that ends on a character boundary, then `... (N bytes total)`.
pub open spec fn truncated(t: Seq<char>) -> Seq<char> {
    let bytes = encode_utf8(t);
    decode_utf8(bytes.take(cut_point(bytes, MAX_RESPONSE_SIZE as int))) + "... ("@ + decimal(
        bytes.len(),
    ) + " bytes total)"@
}

/// The content the filter shows for `raw`.
pub open spec fn filtered_content(raw: Seq<char>, is_tty: bool, has_hint: bool) -> Seq<char> {
    let t = trim(raw);
    if should_truncate(t, is_tty, has_hint) {
        truncated(t)
    } else {
        t
    }
}

/// Filters a curl response body. `tee_hint` is the hint line for the saved
/// full output, if it was saved; it is kept only when the body is truncated,
/// so that it never reaches pipes or JSON parsers.
pub fn filter_curl_output(raw: &str, is_tty: bool, tee_hint: Option<String>) -> (r: FilterResult)
    ensures
        r.content@ == filtered_content(raw@, is_tty, tee_hint is Some),
        r.tee_hint == (if should_truncate(trim(raw@), is_tty, tee_hint is Some) {
            tee_hint
        } else {
            None
        }),
{
    let trimmed = trim_str(raw);
    let chars = chars_of(trimmed);
    let n = chars.len();
    let looks_like_json = n > 0 && ((chars[0] == '{' && chars[n - 1] == '}') || (chars[0] == '['
        && chars[n - 1] == ']'));
    let len = byte_length(trimmed);
    let should = is_tty && !looks_like_json && len >= MAX_RESPONSE_SIZE && tee_hint.is_some();
    if !should {
        return FilterResult { content: trimmed.to_owned(), tee_hint: None };
    }
    let ghost bytes = encode_utf8(trimmed@);
    proof {
        encode_utf8_valid_utf8(trimmed@);
        is_char_boundary_start_end_of_seq(bytes);
    }
    let mut end = MAX_RESPONSE_SIZE;
    while !trimmed.is_char_boundary(end)
        invariant
            end <= MAX_RESPONSE_SIZE <= len,
            len == bytes.len(),
            bytes == encode_utf8(trimmed@),
            is_char_boundary(bytes, 0),
            cut_point(bytes, MAX_RESPONSE_SIZE as int) == cut_point(bytes, end as int),
        decreases end,
    {
        end = end - 1;
    }
    let (prefix, _) = trimmed.split_at(end);
    proof {
        encode_utf8_decode_utf8(prefix@);
    }
    let mut content = String::new();
    content.append(prefix);
    content.append("... (");
    push_decimal(&mut content, len);
    content.append(" bytes total)");
    FilterResult { content, tee_hint }
}

proof fn lemma_cut_point(bytes: Seq<u8>, k: int)
    requires
        valid_utf8(bytes),
        k <= bytes.len(),
    ensures
        0 <= cut_point(bytes, k),
        cut_point(bytes, k) <= k || k < 0,
        is_char_boundary(bytes, cut_point(bytes, k)),
    decreases k,
{
    is_char_boundary_start_end_of_seq(bytes);
    if k > 0 && !is_char_boundary(bytes, k) {
        lemma_cut_point(bytes, k - 1);
    }
}

/// A JSON body is never truncated, and no hint is shown for it.
pub proof fn lemma_json_never_truncated(raw: Seq<char>, is_tty: bool, has_hint: bool)
    requires
        looks_like_json(trim(raw)),
    ensures
        !should_truncate(trim(raw), is_tty, has_hint),
        filtered_content(raw, is_tty, has_hint) == trim(raw),
{
}

/// On a terminal, with a hint to the saved output, a body of at least
/// `MAX_RESPONSE_SIZE` bytes passes whole only when it is delimited like a
/// JSON document: it starts with `{` and ends with `}`, or starts with `[`
/// and ends with `]`. Any other such body (a log whose lines start with `[`,
/// a text that opens with `{` but is cut off) is truncated.
pub proof fn lemma_long_body_kept_only_if_delimited(raw: Seq<char>)
    requires
        byte_len(trim(raw)) >= MAX_RESPONSE_SIZE,
    ensures
        ({
            let t = trim(raw);
            &&& !should_truncate(t, true, true) <==> (t.len() > 0 && ((t[0] == '{' && t[t.len()
                - 1] == '}') || (t[0] == '[' && t[t.len() - 1] == ']')))
            &&& should_truncate(t, true, true) ==> filtered_content(raw, true, true) == truncated(t)
        }),
{
}

/// A body shorter than `MAX_RESPONSE_SIZE` bytes (after trimming), or one
/// for which no full output was saved, is shown whole, and no hint is shown.
pub proof fn lemma_short_or_unsaved_body_whole(raw: Seq<char>, is_tty: bool, has_hint: bool)
    requires
        byte_len(trim(raw)) < MAX_RESPONSE_SIZE || !has_hint,
    ensures
        !should_truncate(trim(raw), is_tty, has_hint),
        filtered_content(raw, is_tty, has_hint) == trim(raw),
{
}

/// Output that does not go to a terminal is never truncated, and no hint is shown.
pub proof fn lemma_pipe_never_truncated(raw: Seq<char>, has_hint: bool)
    ensures
        !should_truncate(trim(raw), false, has_hint),
        filtered_content(raw, false, has_hint) == trim(raw),
{
}

/// A truncated body keeps a prefix of the body of at most
/// `MAX_RESPONSE_SIZE` bytes, followed by the note of the full size.
pub proof fn lemma_truncated_keeps_prefix(t: Seq<char>)
    requires
        byte_len(t) >= MAX_RESPONSE_SIZE,
    ensures
        exists|p: Seq<char>|
            #![trigger t.take(p.len() as int)]
            {
                &&& p.len() <= t.len()
                &&& t.take(p.len() as int) == p
                &&& byte_len(p) <= MAX_RESPONSE_SIZE
                &&& truncated(t) == p + "... ("@ + decimal(byte_len(t) as nat) + " bytes total)"@
            },
{
    let bytes = encode_utf8(t);
    encode_utf8_valid_utf8(t);
    lemma_cut_point(bytes, MAX_RESPONSE_SIZE as int);
    let cut = cut_point(bytes, MAX_RESPONSE_SIZE as int);
    let head = bytes.subrange(0, cut);
    let rest = bytes.subrange(cut, bytes.len() as int);
    decode_utf8_split(bytes, cut);
    encode_utf8_decode_utf8(t);
    valid_utf8_split(bytes, cut);
    decode_utf8_encode_utf8(head);
    assert(bytes.take(cut) == head);
    let p = decode_utf8(head);
    assert(t == p + decode_utf8(rest));
    assert(t.take(p.len() as int) == p);
    assert(byte_len(p) == cut);
}

/// The message shown when curl fails: its trimmed error output, or its
/// trimmed standard output when the error output is blank.
pub open spec fn failure_message_text(stdout: Seq<char>, stderr: Seq<char>) -> Seq<char> {
    if trim(stderr).len() == 0 {
        trim(stdout)
    } else {
        trim(stderr)
    }
}

/// The message shown when curl fails (see `failure_message_text`).
pub fn failure_message(stdout: &str, stderr: &str) -> (r: String)
    ensures
        r@ == failure_message_text(stdout@, stderr@),
{
    let e = trim_str(stderr);
    if e.is_empty() {
        trim_str(stdout).to_owned()
    } else {
        e.to_owned()
    }
}

} // verus!
