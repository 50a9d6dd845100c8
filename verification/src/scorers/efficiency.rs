//! Restart / backtrack detection, shared by the efficiency dimension and the
//! span annotations.

use vstd::prelude::*;
use vstd::utf8::*;

use crate::text::str_views;

verus! {

/// The restart / backtrack patterns, in the order they are applied.
pub open spec fn restart_patterns() -> Seq<Seq<char>> {
    seq![
        r"(?i)\bwait,?\s+(let me|i need to|actually)"@,
        r"(?i)\blet me (reconsider|restart|start over|try again|redo|rethink)"@,
        r"(?i)\bactually,?\s+(no|wait|let me|that's wrong)"@,
        r"(?i)\b(hmm+|ugh),?\s+let me"@,
        r"(?i)\bi (made|see) an error"@,
        r"(?i)\bthat('s| is) (wrong|incorrect|not right),?\s+(let|i)"@,
        r"(?i)\bon second thought"@,
        r"(?i)\blet me approach this differently"@,
        r"(?i)\bi need to restart"@,
        r"(?i)\bno wait,"@,
        r"(?i)\bactually i was wrong"@,
        r"(?i)\blet me recalculate"@,
    ]
}

/// The restart patterns as regular-expression sources.
pub fn restart_pattern_list() -> (r: Vec<&'static str>)
    ensures
        str_views(r@) == restart_patterns(),
{
    let r = vec![
        r"(?i)\bwait,?\s+(let me|i need to|actually)",
        r"(?i)\blet me (reconsider|restart|start over|try again|redo|rethink)",
        r"(?i)\bactually,?\s+(no|wait|let me|that's wrong)",
        r"(?i)\b(hmm+|ugh),?\s+let me",
        r"(?i)\bi (made|see) an error",
        r"(?i)\bthat('s| is) (wrong|incorrect|not right),?\s+(let|i)",
        r"(?i)\bon second thought",
        r"(?i)\blet me approach this differently",
        r"(?i)\bi need to restart",
        r"(?i)\bno wait,",
        r"(?i)\bactually i was wrong",
        r"(?i)\blet me recalculate",
    ];
    assert(str_views(r@) =~= restart_patterns());
    r
}

/// Name for the `(start, end)` byte spans of the successive non-overlapping
/// matches that `regex::Regex::find_iter` reports for `pattern` in `haystack`
/// (empty when `pattern` does not compile).
pub uninterp spec fn regex_match_spans(pattern: Seq<char>, haystack: Seq<char>) -> Seq<
    (usize, usize),
>;

/// Compiles `pattern` with `regex::Regex::new` and collects the spans of
/// `Regex::find_iter` over `haystack`. The regex crate documents that every
/// `Match::start` and `Match::end` satisfies `start <= end` and falls on a
/// UTF-8 char boundary of the haystack at which it may be sliced; that is all
/// this claims beyond naming the result. A pattern that fails to compile
/// yields no spans.
#[verifier::external_body]
fn regex_find_spans(pattern: &str, haystack: &str) -> (r: Vec<(usize, usize)>)
    ensures
        r@ == regex_match_spans(pattern@, haystack@),
        forall|k: int|
            0 <= k < r@.len() ==> {
                &&& r@[k].0 <= r@[k].1 <= encode_utf8(haystack@).len()
                &&& is_char_boundary(encode_utf8(haystack@), r@[k].0 as int)
                &&& is_char_boundary(encode_utf8(haystack@), r@[k].1 as int)
            },
{
    match regex::Regex::new(pattern) {
        Ok(re) => re.find_iter(haystack).map(|m| (m.start(), m.end())).collect(),
        Err(_) => Vec::new(),
    }
}

/// Spans of the first `k` patterns of `pats`, pattern by pattern.
pub open spec fn spans_of_patterns(pats: Seq<Seq<char>>, t: Seq<char>, k: int) -> Seq<
    (usize, usize),
>
    decreases k,
{
    if k <= 0 {
        seq![]
    } else {
        spans_of_patterns(pats, t, k - 1) + regex_match_spans(pats[k - 1], t)
    }
}

/// Every restart-pattern match in `t`: all matches of the first pattern,
/// then of the second, and so on.
pub open spec fn restart_spans(t: Seq<char>) -> Seq<(usize, usize)> {
    spans_of_patterns(restart_patterns(), t, restart_patterns().len() as int)
}

/// The restart spans of `text` (see `restart_spans`); each lies on char
/// boundaries of `text`.
pub fn find_restart_spans(text: &str) -> (r: Vec<(usize, usize)>)
    ensures
        r@ == restart_spans(text@),
        forall|k: int|
            0 <= k < r@.len() ==> {
                &&& r@[k].0 <= r@[k].1 <= encode_utf8(text@).len()
                &&& is_char_boundary(encode_utf8(text@), r@[k].0 as int)
                &&& is_char_boundary(encode_utf8(text@), r@[k].1 as int)
            },
{
    let pats = restart_pattern_list();
    let mut out: Vec<(usize, usize)> = Vec::new();
    let mut i: usize = 0;
    while i < pats.len()
        invariant
            i <= pats@.len(),
            str_views(pats@) == restart_patterns(),
            out@ == spans_of_patterns(restart_patterns(), text@, i as int),
            forall|k: int|
                0 <= k < out@.len() ==> {
                    &&& out@[k].0 <= out@[k].1 <= encode_utf8(text@).len()
                    &&& is_char_boundary(encode_utf8(text@), out@[k].0 as int)
                    &&& is_char_boundary(encode_utf8(text@), out@[k].1 as int)
                },
        decreases pats@.len() - i,
    {
        let mut found = regex_find_spans(pats[i], text);
        assert(pats@[i as int]@ == restart_patterns()[i as int]);
        out.append(&mut found);
        i = i + 1;
    }
    out
}

/// Number of restart / backtrack phrases in `text`.
pub fn restart_count(text: &str) -> (r: usize)
    ensures
        r == restart_spans(text@).len(),
{
    find_restart_spans(text).len()
}

} // verus!
