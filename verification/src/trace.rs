//! Thinking extraction, char-boundary arithmetic and the token estimate that
//! every length-sensitive scorer uses.

use vstd::prelude::*;
use vstd::utf8::*;

use crate::text::{
    chars_of, count_words, find_chars_from, find_from, lemma_trim_idempotent, non_space_count,
    slice_chars, string_from_chars, trim_bounds, trim_chars, trim_seq, word_count,
};

verus! {

/// The content between the first `open` tag and the first `close` tag after
/// it, trimmed; `None` when either tag is missing.
pub open spec fn tagged_content(raw: Seq<char>, open: Seq<char>, close: Seq<char>) -> Option<
    Seq<char>,
> {
    match find_from(raw, open, 0) {
        Some(s) => {
            let content_start = s + open.len();
            match find_from(raw, close, content_start) {
                Some(e) => Some(trim_seq(raw.subrange(content_start, e))),
                None => None,
            }
        },
        None => None,
    }
}

/// The reasoning text of a raw trace: the trimmed content of whichever
/// complete `<think>` or `<reasoning>` pair opens first in the text (a pair is
/// the first open tag of its kind and the first close tag after it), or the
/// whole trimmed text when neither pair is complete.
pub open spec fn thinking_of(raw: Seq<char>) -> Seq<char> {
    match tagged_content(raw, "<think>"@, "</think>"@) {
        Some(t) => match tagged_content(raw, "<reasoning>"@, "</reasoning>"@) {
            Some(r) => if find_from(raw, "<reasoning>"@, 0)->0 < find_from(raw, "<think>"@, 0)->0 {
                r
            } else {
                t
            },
            None => t,
        },
        None => match tagged_content(raw, "<reasoning>"@, "</reasoning>"@) {
            Some(r) => r,
            None => trim_seq(raw),
        },
    }
}

/// Exec counterpart of `tagged_content` over already-split characters.
pub(crate) fn tagged_content_of(raw: &Vec<char>, open: &str, close: &str) -> (r: Option<
    Vec<char>,
>)
    ensures
        match tagged_content(raw@, open@, close@) {
            Some(t) => r is Some && r->0@ == t,
            None => r is None,
        },
{
    let open_cs = chars_of(open);
    let close_cs = chars_of(close);
    let n = raw.len();
    match find_chars_from(raw, &open_cs, 0) {
        Some(s) => {
            assert(s + open_cs@.len() <= n);
            let content_start = s + open_cs.len();
            match find_chars_from(raw, &close_cs, content_start) {
                Some(e) => {
                    let inner = slice_chars(raw, content_start, e);
                    let t = trim_chars(&inner);
                    Some(t)
                },
                None => None,
            }
        },
        None => None,
    }
}

/// Extract the reasoning from a raw trace (see `thinking_of`).
pub fn extract_thinking(raw: &str) -> (r: String)
    ensures
        r@ == thinking_of(raw@),
{
    let cs = chars_of(raw);
    let think = tagged_content_of(&cs, "<think>", "</think>");
    let reasoning = tagged_content_of(&cs, "<reasoning>", "</reasoning>");
    let found = match (think, reasoning) {
        (Some(t), Some(r)) => {
            let think_open = chars_of("<think>");
            let reasoning_open = chars_of("<reasoning>");
            match (find_chars_from(&cs, &think_open, 0), find_chars_from(&cs, &reasoning_open, 0)) {
                (Some(ts), Some(rs)) => if rs < ts {
                    r
                } else {
                    t
                },
                _ => t,
            }
        },
        (Some(t), None) => t,
        (None, Some(r)) => r,
        (None, None) => trim_chars(&cs),
    };
    string_from_chars(found.as_slice())
}

/// Find the largest valid char boundary at or before `index`.
pub fn floor_char_boundary(s: &str, index: usize) -> (r: usize)
    ensures
        r <= index,
        r <= encode_utf8(s@).len(),
        is_char_boundary(encode_utf8(s@), r as int),
        forall|k: int|
            r < k <= index && k <= encode_utf8(s@).len() ==> !is_char_boundary(
                encode_utf8(s@),
                k,
            ),
{
    proof {
        encode_utf8_valid_utf8(s@);
    }
    let bytes = s.as_bytes();
    let len = bytes.len();
    let mut i = if index < len {
        index
    } else {
        len
    };
    while i > 0 && !s.is_char_boundary(i)
        invariant
            i <= index,
            i <= len,
            len == encode_utf8(s@).len(),
            valid_utf8(encode_utf8(s@)),
            forall|k: int| i < k <= index && k <= len ==> !is_char_boundary(encode_utf8(s@), k),
        decreases i,
    {
        i = i - 1;
    }
    i
}

/// Common CJK scripts that are written without spaces between words.
pub open spec fn is_cjk(c: char) -> bool {
    let v = c as u32;
    ||| (0x3400 <= v && v <= 0x4dbf)
    ||| (0x4e00 <= v && v <= 0x9fff)
    ||| (0x3040 <= v && v <= 0x30ff)
    ||| (0xac00 <= v && v <= 0xd7af)
}

pub open spec fn has_cjk_seq(s: Seq<char>) -> bool {
    exists|i: int| 0 <= i < s.len() && is_cjk(s[i])
}

pub fn has_cjk(cs: &Vec<char>) -> (r: bool)
    ensures
        r == has_cjk_seq(cs@),
{
    let n = cs.len();
    let mut i: usize = 0;
    while i < n
        invariant
            i <= n,
            n == cs@.len(),
            forall|k: int| 0 <= k < i ==> !is_cjk(cs@[k]),
        decreases n - i,
    {
        let v = cs[i] as u32;
        if (0x3400 <= v && v <= 0x4dbf) || (0x4e00 <= v && v <= 0x9fff) || (0x3040 <= v && v
            <= 0x30ff) || (0xac00 <= v && v <= 0xd7af) {
            return true;
        }
        i = i + 1;
    }
    false
}

/// The token estimate of a text: 0 for blank text; the whitespace word count
/// (at least 1) when there are two or more words or no CJK characters; and
/// otherwise half the non-space characters (at least 1), since CJK text
/// puts no spaces between words.
pub open spec fn token_estimate(s: Seq<char>) -> nat {
    if trim_seq(s).len() == 0 {
        0
    } else if word_count(s) >= 2 || !has_cjk_seq(s) {
        if word_count(s) >= 1 {
            word_count(s)
        } else {
            1
        }
    } else if non_space_count(s) / 2 >= 1 {
        non_space_count(s) / 2
    } else {
        1
    }
}

/// `token_estimate` over already-split characters.
pub fn token_estimate_chars(cs: &Vec<char>) -> (r: usize)
    ensures
        r == token_estimate(cs@),
{
    let (lo, hi) = trim_bounds(cs);
    if lo == hi {
        return 0;
    }
    let (words, solid) = count_words(cs);
    if words >= 2 || !has_cjk(cs) {
        if words >= 1 {
            words
        } else {
            1
        }
    } else if solid / 2 >= 1 {
        solid / 2
    } else {
        1
    }
}

/// Estimated number of tokens (words) in `text` (see `token_estimate`).
pub fn estimated_token_count(text: &str) -> (r: usize)
    ensures
        r == token_estimate(text@),
{
    let cs = chars_of(text);
    token_estimate_chars(&cs)
}

/// The extracted thinking never starts or ends with whitespace.
pub proof fn thinking_is_trimmed(raw: Seq<char>)
    ensures
        trim_seq(thinking_of(raw)) == thinking_of(raw),
{
    if let Some(s) = find_from(raw, "<think>"@, 0) {
        if let Some(e) = find_from(raw, "</think>"@, s + "<think>"@.len()) {
            lemma_trim_idempotent(raw.subrange(s + "<think>"@.len(), e));
        }
    }
    if let Some(s) = find_from(raw, "<reasoning>"@, 0) {
        if let Some(e) = find_from(raw, "</reasoning>"@, s + "<reasoning>"@.len()) {
            lemma_trim_idempotent(raw.subrange(s + "<reasoning>"@.len(), e));
        }
    }
    lemma_trim_idempotent(raw);
}

/// A text is estimated at zero tokens exactly when it is blank.
pub proof fn zero_tokens_iff_blank(s: Seq<char>)
    ensures
        (token_estimate(s) == 0) == (trim_seq(s).len() == 0),
{
}

} // verus!
