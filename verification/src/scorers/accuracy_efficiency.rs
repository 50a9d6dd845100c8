//! Answer normalization for the accuracy dimension.

use vstd::prelude::*;

use crate::text::{
    chars_equal, chars_of, lowercase, slice_chars, string_from_chars, to_lowercase, trim_bounds, trim_chars,
    trim_seq,
};

verus! {

/// `s` without its trailing run of `.` and `,`.
pub open spec fn trim_end_punct(s: Seq<char>) -> Seq<char>
    decreases s.len(),
{
    if s.len() > 0 && (s.last() == '.' || s.last() == ',') {
        trim_end_punct(s.drop_last())
    } else {
        s
    }
}

/// An answer as it is compared: trimmed, trailing `.`/`,` dropped, trimmed
/// again and lowercased.
pub open spec fn normalized_answer(s: Seq<char>) -> Seq<char> {
    lowercase(trim_seq(trim_end_punct(trim_seq(s))))
}

/// Normalize an answer for comparison (see `normalized_answer`).
pub fn normalize_answer(s: &str) -> (r: String)
    ensures
        r@ == normalized_answer(s@),
{
    let cs = chars_of(s);
    let (lo, hi) = trim_bounds(&cs);
    let mut end = hi;
    while end > lo && (cs[end - 1] == '.' || cs[end - 1] == ',')
        invariant
            lo <= end <= hi <= cs@.len(),
            trim_end_punct(cs@.subrange(lo as int, hi as int)) == trim_end_punct(
                cs@.subrange(lo as int, end as int),
            ),
        decreases end - lo,
    {
        assert(cs@.subrange(lo as int, end as int).drop_last() =~= cs@.subrange(
            lo as int,
            end - 1,
        ));
        end = end - 1;
    }
    assert(trim_end_punct(cs@.subrange(lo as int, end as int)) == cs@.subrange(
        lo as int,
        end as int,
    ));
    let core = slice_chars(&cs, lo, end);
    let t = trim_chars(&core);
    let ts = string_from_chars(t.as_slice());
    to_lowercase(ts.as_str())
}

/// Whether two answers are equal once normalized (see `normalized_answer`).
pub fn answers_equal(answer: &str, expected: &str) -> (r: bool)
    ensures
        r == (normalized_answer(answer@) == normalized_answer(expected@)),
{
    let a = normalize_answer(answer);
    let b = normalize_answer(expected);
    let ac = chars_of(a.as_str());
    let bc = chars_of(b.as_str());
    chars_equal(&ac, &bc)
}

} // verus!
