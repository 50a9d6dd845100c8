//! Turning model completions into (thinking, answer) pairs.

use vstd::prelude::*;

use crate::bench::model::Completion;
use crate::bench::taskset::Task;
use crate::text::{
    capped, chars_at, chars_of, contains_chars, contains_seq, occurs_at, push_str, slice_chars,
    string_from_chars, trim_chars, trim_seq,
};
use crate::trace::{estimated_token_count, extract_thinking, thinking_of, token_estimate};

verus! {

/// One task's `k` sampled attempts. Each sample is a completion or an error.
/// With `k = 1` this is a single attempt; with `k > 1` it drives pass@k.
pub struct TaskAttempts {
    pub task: Task,
    pub samples: Vec<Result<Completion, String>>,
}

/// Last occurrence of `p` in `h` starting at or before `i`.
pub open spec fn rfind_from(h: Seq<char>, p: Seq<char>, i: int) -> Option<int>
    decreases i + 1,
{
    if i < 0 {
        None
    } else if occurs_at(h, p, i) {
        Some(i)
    } else {
        rfind_from(h, p, i - 1)
    }
}

/// Last occurrence of `p` in `h`.
pub open spec fn rfind(h: Seq<char>, p: Seq<char>) -> Option<int> {
    rfind_from(h, p, h.len() - p.len())
}

/// The thinking of a completion: the `<think>` content as `thinking_of`
/// extracts it when the text has a `<think>` tag, else empty.
pub open spec fn completion_thinking(raw: Seq<char>) -> Seq<char> {
    if contains_seq(raw, "<think>"@) {
        thinking_of(raw)
    } else {
        seq![]
    }
}

/// The answer of a completion: what follows its last `</think>`, trimmed, or
/// the whole trimmed text without one.
pub open spec fn completion_answer(raw: Seq<char>) -> Seq<char> {
    match rfind(raw, "</think>"@) {
        Some(i) => trim_seq(raw.subrange(i + "</think>"@.len(), raw.len() as int)),
        None => trim_seq(raw),
    }
}

/// Last occurrence of `p` in `h` (see `rfind`).
pub fn rfind_chars(h: &Vec<char>, p: &Vec<char>) -> (r: Option<usize>)
    ensures
        match rfind(h@, p@) {
            Some(i) => r == Some(i as usize) && occurs_at(h@, p@, i),
            None => r is None,
        },
{
    let n = h.len();
    let k = p.len();
    if k > n {
        return None;
    }
    let mut i = n - k;
    loop
        invariant
            i <= n - k,
            k == p@.len(),
            n == h@.len(),
            k <= n,
            rfind(h@, p@) == rfind_from(h@, p@, i as int),
        decreases i,
    {
        if chars_at(h, p, i) {
            return Some(i);
        }
        if i == 0 {
            return None;
        }
        i = i - 1;
    }
}

/// Split a raw completion into (thinking, answer) (see `completion_thinking`
/// and `completion_answer`).
pub fn split_completion(raw: &str) -> (r: (String, String))
    ensures
        r.0@ == completion_thinking(raw@),
        r.1@ == completion_answer(raw@),
{
    let cs = chars_of(raw);
    let open = chars_of("<think>");
    let close = chars_of("</think>");
    let thinking = if contains_chars(&cs, &open) {
        extract_thinking(raw)
    } else {
        String::new()
    };
    let n = cs.len();
    let k = close.len();
    let found = rfind_chars(&cs, &close);
    let answer_chars = match found {
        Some(i) => {
            let rest = slice_chars(&cs, i + k, n);
            trim_chars(&rest)
        },
        None => trim_chars(&cs),
    };
    (thinking, string_from_chars(answer_chars.as_slice()))
}

/// Tokens of one completion: the endpoint's count when it reported one,
/// otherwise the estimated tokens of its thinking plus its answer (flagged
/// as estimated).
pub open spec fn sample_tokens_of(c: (Seq<char>, Option<usize>)) -> (nat, bool) {
    match c.1 {
        Some(n) => (n as nat, false),
        None => (
            capped(
                token_estimate(completion_thinking(c.0)) + token_estimate(completion_answer(c.0)),
            ),
            true,
        ),
    }
}

/// Token count of one sample (see `sample_tokens_of`).
pub fn sample_tokens(c: &Completion) -> (r: (usize, bool))
    ensures
        (r.0 as nat, r.1) == sample_tokens_of(c@),
{
    match c.completion_tokens {
        Some(n) => (n, false),
        None => {
            let (thinking, answer) = split_completion(c.text.as_str());
            let a = estimated_token_count(thinking.as_str());
            let b = estimated_token_count(answer.as_str());
            let total = if a > usize::MAX - b {
                usize::MAX
            } else {
                a + b
            };
            (total, true)
        },
    }
}

pub open spec fn sample_views(samples: Seq<Result<Completion, String>>) -> Seq<
    Result<(Seq<char>, Option<usize>), Seq<char>>,
> {
    samples.map_values(
        |s: Result<Completion, String>|
            match s {
                Ok(c) => Ok(c@),
                Err(e) => Err(e@),
            },
    )
}

/// The message of the first failed sample, or `"no samples"` when none failed.
pub open spec fn first_error_of(samples: Seq<Result<(Seq<char>, Option<usize>), Seq<char>>>) -> Seq<
    char,
>
    decreases samples.len(),
{
    if samples.len() == 0 {
        "no samples"@
    } else {
        match samples[0] {
            Err(e) => e,
            Ok(_) => first_error_of(samples.drop_first()),
        }
    }
}

/// The error surfaced for a task whose samples all failed (see `first_error_of`).
pub fn first_error(samples: &Vec<Result<Completion, String>>) -> (r: String)
    ensures
        r@ == first_error_of(sample_views(samples@)),
{
    let ghost all = sample_views(samples@);
    let mut i: usize = 0;
    assert(all.skip(0) =~= all);
    while i < samples.len()
        invariant
            i <= samples@.len(),
            all == sample_views(samples@),
            first_error_of(all) == first_error_of(all.skip(i as int)),
        decreases samples@.len() - i,
    {
        assert(all.skip(i as int).drop_first() =~= all.skip(i + 1));
        match &samples[i] {
            Err(e) => {
                return e.clone();
            },
            Ok(_) => {},
        }
        i = i + 1;
    }
    let mut out = String::new();
    push_str(&mut out, "no samples");
    out
}

/// The first successful sample of a task, if any.
pub fn first_success(samples: &Vec<Result<Completion, String>>) -> (r: Option<usize>)
    ensures
        match r {
            Some(i) => i < samples@.len() && samples@[i as int] is Ok && forall|j: int|
                0 <= j < i ==> samples@[j] is Err,
            None => forall|j: int| 0 <= j < samples@.len() ==> samples@[j] is Err,
        },
{
    let mut i: usize = 0;
    while i < samples.len()
        invariant
            i <= samples@.len(),
            forall|j: int| 0 <= j < i ==> samples@[j] is Err,
        decreases samples@.len() - i,
    {
        if samples[i].is_ok() {
            return Some(i);
        }
        i = i + 1;
    }
    None
}

/// What the samples of one task add up to.
pub struct TaskTally {
    /// Samples whose answer matched.
    pub samples_correct: usize,
    /// Tokens over all counted samples (at most `usize::MAX`).
    pub tokens: usize,
    /// Whether any counted sample's tokens were estimated.
    pub tokens_estimated: bool,
}

/// Correct samples among `outcomes[..k]` (each `(correct, tokens, estimated)`).
pub open spec fn correct_upto(outcomes: Seq<(bool, usize, bool)>, k: int) -> nat
    decreases k,
{
    if k <= 0 {
        0
    } else {
        correct_upto(outcomes, k - 1) + if outcomes[k - 1].0 {
            1nat
        } else {
            0nat
        }
    }
}

pub open spec fn tokens_upto(outcomes: Seq<(bool, usize, bool)>, k: int) -> nat
    decreases k,
{
    if k <= 0 {
        0
    } else {
        tokens_upto(outcomes, k - 1) + outcomes[k - 1].1 as nat
    }
}

pub open spec fn tally_holds(outcomes: Seq<(bool, usize, bool)>, r: TaskTally) -> bool {
    &&& r.samples_correct == correct_upto(outcomes, outcomes.len() as int)
    &&& r.tokens == capped(tokens_upto(outcomes, outcomes.len() as int))
    &&& r.tokens_estimated == exists|i: int| 0 <= i < outcomes.len() && outcomes[i].2
}

proof fn lemma_correct_bounded(outcomes: Seq<(bool, usize, bool)>, k: int)
    requires
        0 <= k,
    ensures
        correct_upto(outcomes, k) <= k,
    decreases k,
{
    if k > 0 {
        lemma_correct_bounded(outcomes, k - 1);
    }
}

/// Add up the successful samples of one task; pass@k holds when
/// `samples_correct > 0`.
pub fn tally_samples(outcomes: &Vec<(bool, usize, bool)>) -> (r: TaskTally)
    ensures
        tally_holds(outcomes@, r),
{
    let mut correct: usize = 0;
    let mut tokens: usize = 0;
    let mut estimated = false;
    let mut i: usize = 0;
    while i < outcomes.len()
        invariant
            i <= outcomes@.len(),
            correct == correct_upto(outcomes@, i as int),
            tokens == capped(tokens_upto(outcomes@, i as int)),
            estimated == exists|j: int| 0 <= j < i && outcomes@[j].2,
        decreases outcomes@.len() - i,
    {
        proof {
            lemma_correct_bounded(outcomes@, i as int);
        }
        let (ok, n, est) = outcomes[i];
        if ok {
            correct = correct + 1;
        }
        tokens = if tokens > usize::MAX - n {
            usize::MAX
        } else {
            tokens + n
        };
        proof {
            if estimated {
                let w = choose|j: int| 0 <= j < i && outcomes@[j].2;
                assert(0 <= w < i + 1 && outcomes@[w].2);
            }
            if est {
                assert(outcomes@[i as int].2);
            }
        }
        estimated = estimated || est;
        i = i + 1;
    }
    TaskTally { samples_correct: correct, tokens, tokens_estimated: estimated }
}

/// What a task's row reports, from the outcomes of its answered samples
/// (each `(correct, tokens, estimated)`).
pub enum TaskVerdict {
    /// No sample was answered: the row carries an error and is not scored.
    Errored,
    /// Some sample was answered: the task is solved when any answered sample
    /// is correct (pass@k), and `tally` adds the samples up.
    Scored { solved: bool, tally: TaskTally },
}

/// The verdict on a task whose answered samples had `outcomes`.
pub fn task_verdict(outcomes: &Vec<(bool, usize, bool)>) -> (r: TaskVerdict)
    ensures
        outcomes@.len() == 0 <==> r is Errored,
        match r {
            TaskVerdict::Scored { solved, tally } => tally_holds(outcomes@, tally) && solved == (
            correct_upto(outcomes@, outcomes@.len() as int) > 0),
            TaskVerdict::Errored => true,
        },
{
    if outcomes.len() == 0 {
        TaskVerdict::Errored
    } else {
        let tally = tally_samples(outcomes);
        TaskVerdict::Scored { solved: tally.samples_correct > 0, tally }
    }
}

} // verus!
