//! The rubric sent to the optional LLM judge, and how its reply is cut into
//! candidate numbers.

use vstd::prelude::*;

use crate::bench::leaderboard::{ascii_lower, ascii_lowercase_chars};
use crate::text::{chars_of, push_str, slice_chars, string_from_chars};

verus! {

/// What the judge is told before the problem.
pub const JUDGE_INTRO: &'static str = "You are grading the QUALITY of a reasoning trace — how efficiently and \
     soundly it reasons, not merely whether the final answer is right.\n\n\
     Problem:\n";

/// Between the problem and the reasoning.
pub const JUDGE_REASONING: &'static str = "\n\n\
     Reasoning:\n";

/// Between the reasoning and the final answer.
pub const JUDGE_ANSWER: &'static str = "\n\n\
     Final answer:\n";

/// After the final answer: the scale and the one-line reply format.
pub const JUDGE_RUBRIC: &'static str = "\n\n\
     Rate the reasoning from 0 to 100, where 100 is concise, correct, \
     well-structured reasoning and 0 is rambling, repetitive, circular, or \
     incoherent. Consider redundant restarts and padding as negatives. \
     Reply with exactly one line:\nSCORE: <number>";

/// The judge prompt for one trace: the rubric around the problem, the
/// reasoning and the final answer, in that order.
pub open spec fn judge_prompt_text(problem: Seq<char>, thinking: Seq<char>, answer: Seq<char>) -> Seq<
    char,
> {
    JUDGE_INTRO@ + problem + JUDGE_REASONING@ + thinking + JUDGE_ANSWER@ + answer + JUDGE_RUBRIC@
}

/// The rubric sent to the judge for one trace. Asks for a single parseable line.
pub fn judge_prompt(problem: &str, thinking: &str, answer: &str) -> (r: String)
    ensures
        r@ == judge_prompt_text(problem@, thinking@, answer@),
{
    let mut out = String::new();
    push_str(&mut out, JUDGE_INTRO);
    push_str(&mut out, problem);
    push_str(&mut out, JUDGE_REASONING);
    push_str(&mut out, thinking);
    push_str(&mut out, JUDGE_ANSWER);
    push_str(&mut out, answer);
    push_str(&mut out, JUDGE_RUBRIC);
    out
}


/// The numeric tokens of `s[i..]`, the current token being `cur`: runs of
/// ASCII digits holding at most one `.`. Any other character, or a second
/// `.`, ends the current token (and is itself dropped); empty tokens are not
/// kept.
pub open spec fn tokens_from(s: Seq<char>, i: int, cur: Seq<char>) -> Seq<Seq<char>>
    decreases s.len() - i,
{
    if i >= s.len() {
        if cur.len() > 0 {
            seq![cur]
        } else {
            seq![]
        }
    } else if ('0' <= s[i] && s[i] <= '9') || (s[i] == '.' && !cur.contains('.')) {
        tokens_from(s, i + 1, cur.push(s[i]))
    } else {
        (if cur.len() > 0 {
            seq![cur]
        } else {
            seq![]
        }) + tokens_from(s, i + 1, seq![])
    }
}

/// The candidate numbers of a judge reply, in order, as text.
pub open spec fn number_tokens_of(s: Seq<char>) -> Seq<Seq<char>> {
    tokens_from(s, 0, seq![])
}

/// The numeric tokens of `s` (see `number_tokens_of`).
pub fn number_tokens(s: &str) -> (r: Vec<String>)
    ensures
        crate::bench::leaderboard::string_views(r@) == number_tokens_of(s@),
{
    let cs = chars_of(s);
    let mut out: Vec<String> = Vec::new();
    let mut cur: Vec<char> = Vec::new();
    let mut has_dot = false;
    let mut i: usize = 0;
    while i < cs.len()
        invariant
            i <= cs@.len(),
            cs@ == s@,
            has_dot == cur@.contains('.'),
            crate::bench::leaderboard::string_views(out@) + tokens_from(cs@, i as int, cur@)
                == number_tokens_of(s@),
        decreases cs@.len() - i,
    {
        let c = cs[i];
        if ('0' <= c && c <= '9') || (c == '.' && !has_dot) {
            proof {
                assert(cur@.push(c).contains('.') == (cur@.contains('.') || c == '.')) by {
                    if cur@.push(c).contains('.') {
                        let w = choose|w: int| 0 <= w < cur@.push(c).len() && cur@.push(c)[w] == '.';
                        if w < cur@.len() {
                            assert(cur@[w] == '.');
                        }
                    }
                    if cur@.contains('.') {
                        let w = choose|w: int| 0 <= w < cur@.len() && cur@[w] == '.';
                        assert(cur@.push(c)[w] == '.');
                    }
                    if c == '.' {
                        assert(cur@.push(c)[cur@.len() as int] == '.');
                    }
                }
            }
            cur.push(c);
            has_dot = has_dot || c == '.';
        } else {
            let ghost before = out@;
            let ghost old_cur = cur@;
            if cur.len() > 0 {
                out.push(string_from_chars(cur.as_slice()));
                assert(crate::bench::leaderboard::string_views(out@) =~= crate::bench::leaderboard::string_views(before).push(old_cur));
            }
            assert(crate::bench::leaderboard::string_views(out@) + tokens_from(cs@, i + 1, seq![])
                =~= crate::bench::leaderboard::string_views(before) + tokens_from(cs@, i as int, old_cur));
            cur = Vec::new();
            has_dot = false;
            assert(cur@ =~= Seq::<char>::empty());
        }
        i = i + 1;
    }
    let ghost before = out@;
    if cur.len() > 0 {
        out.push(string_from_chars(cur.as_slice()));
        assert(crate::bench::leaderboard::string_views(out@) =~= crate::bench::leaderboard::string_views(before).push(cur@));
    } else {
        assert(crate::bench::leaderboard::string_views(out@) + tokens_from(cs@, i as int, cur@)
            =~= crate::bench::leaderboard::string_views(out@));
    }
    out
}

/// What follows the first `score` (in any ASCII case) of a judge reply.
pub open spec fn after_score_word(text: Seq<char>) -> Option<Seq<char>> {
    match crate::text::find_from(ascii_lower(text), "score"@, 0) {
        Some(i) => Some(text.subrange(i + 5, text.len() as int)),
        None => None,
    }
}

/// The text after the first `score` of a judge reply (see `after_score_word`).
pub fn score_section(text: &str) -> (r: Option<String>)
    ensures
        match after_score_word(text@) {
            Some(t) => r is Some && r->0@ == t,
            None => r is None,
        },
{
    let lower = ascii_lowercase_chars(text);
    let word = chars_of("score");
    proof {
        reveal_strlit("score");
    }
    match crate::text::find_chars_from(&lower, &word, 0) {
        Some(i) => {
            let cs = chars_of(text);
            assert(lower@.len() == text@.len());
            assert(word@.len() == 5);
            let n = cs.len();
            assert(i + 5 <= n);
            let rest = slice_chars(&cs, i + 5, n);
            Some(string_from_chars(rest.as_slice()))
        },
        None => None,
    }
}

} // verus!
