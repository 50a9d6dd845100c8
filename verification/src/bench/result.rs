//! What a result artifact records: its task set, the file name a model
//! gets, and the counts over a run's rows.

use vstd::prelude::*;

use vstd::utf8::*;

use crate::bench::leaderboard::byte_prefix;
use crate::text::{capped, chars_of, push_char, push_str};

verus! {

#[derive(Debug, Clone)]
pub struct TaskSetMeta {
    pub name: String,
    pub sha256: String,
    pub n: usize,
}

/// A model name made safe for a file name: ASCII letters, digits, `-` and
/// `.` are kept, every other character becomes `_`.
pub open spec fn slug_char(c: char) -> char {
    if ('a' <= c && c <= 'z') || ('A' <= c && c <= 'Z') || ('0' <= c && c <= '9') || c == '-'
        || c == '.' {
        c
    } else {
        '_'
    }
}

pub open spec fn slug_of(model: Seq<char>) -> Seq<char> {
    model.map_values(|c: char| slug_char(c))
}

/// The file-name form of a model name (see `slug_of`).
pub fn model_slug(model: &str) -> (r: String)
    ensures
        r@ == slug_of(model@),
{
    let cs = chars_of(model);
    let mut out = String::new();
    let mut i: usize = 0;
    while i < cs.len()
        invariant
            i <= cs@.len(),
            cs@ == model@,
            out@ == slug_of(cs@.take(i as int)),
        decreases cs@.len() - i,
    {
        let c = cs[i];
        let k = if ('a' <= c && c <= 'z') || ('A' <= c && c <= 'Z') || ('0' <= c && c <= '9')
            || c == '-' || c == '.' {
            c
        } else {
            '_'
        };
        push_char(&mut out, k);
        assert(slug_of(cs@.take(i + 1)) =~= slug_of(cs@.take(i as int)).push(slug_char(cs@[i as int])));
        i = i + 1;
    }
    assert(cs@.take(cs@.len() as int) =~= cs@);
    out
}

/// How many bytes of a digest a result's file name keeps: six, or all of a
/// shorter one.
pub open spec fn short_len(sha: Seq<char>) -> int {
    if encode_utf8(sha).len() < 6 {
        encode_utf8(sha).len() as int
    } else {
        6
    }
}

/// The first `short_len` bytes of a digest, as characters.
pub open spec fn short_digest(sha: Seq<char>) -> Seq<char> {
    decode_utf8(encode_utf8(sha).take(short_len(sha)))
}

/// Where a run's result goes unless told otherwise:
/// `results/<task set>-<model slug>-<short digest>.json`.
pub open spec fn out_file_of(set: Seq<char>, model: Seq<char>, sha: Seq<char>) -> Seq<char> {
    "results/"@ + set + "-"@ + slug_of(model) + "-"@ + short_digest(sha) + ".json"@
}

/// The default path of a run's result file (see `out_file_of`); the digest
/// is cut after its sixth byte, which must end a character.
pub fn default_out_file(task_set: &TaskSetMeta, model: &str) -> (r: String)
    requires
        is_char_boundary(encode_utf8(task_set.sha256@), short_len(task_set.sha256@)),
    ensures
        r@ == out_file_of(task_set.name@, model@, task_set.sha256@),
{
    let short = byte_prefix(task_set.sha256.as_str(), 6);
    proof {
        vstd::utf8::encode_utf8_decode_utf8(short@);
    }
    let slug = model_slug(model);
    let mut out = String::new();
    push_str(&mut out, "results/");
    push_str(&mut out, task_set.name.as_str());
    push_str(&mut out, "-");
    push_str(&mut out, slug.as_str());
    push_str(&mut out, "-");
    push_str(&mut out, short);
    push_str(&mut out, ".json");
    out
}

/// Counts over a run's task rows, each given as `(errored, correct, tokens)`.
pub struct RowTally {
    pub n_attempted: usize,
    pub n_scored: usize,
    pub n_errored: usize,
    /// Correct rows among the scored ones.
    pub n_correct: usize,
    /// Tokens over the scored rows (at most `usize::MAX`).
    pub total_tokens: usize,
}

pub open spec fn scored_upto(rows: Seq<(bool, bool, usize)>, k: int) -> nat
    decreases k,
{
    if k <= 0 {
        0
    } else {
        scored_upto(rows, k - 1) + if !rows[k - 1].0 {
            1nat
        } else {
            0nat
        }
    }
}

pub open spec fn correct_rows_upto(rows: Seq<(bool, bool, usize)>, k: int) -> nat
    decreases k,
{
    if k <= 0 {
        0
    } else {
        correct_rows_upto(rows, k - 1) + if !rows[k - 1].0 && rows[k - 1].1 {
            1nat
        } else {
            0nat
        }
    }
}

pub open spec fn row_tokens_upto(rows: Seq<(bool, bool, usize)>, k: int) -> nat
    decreases k,
{
    if k <= 0 {
        0
    } else {
        row_tokens_upto(rows, k - 1) + if !rows[k - 1].0 {
            rows[k - 1].2 as nat
        } else {
            0nat
        }
    }
}

pub open spec fn row_tally_holds(rows: Seq<(bool, bool, usize)>, r: RowTally) -> bool {
    &&& r.n_attempted == rows.len()
    &&& r.n_scored == scored_upto(rows, rows.len() as int)
    &&& r.n_errored == rows.len() - scored_upto(rows, rows.len() as int)
    &&& r.n_correct == correct_rows_upto(rows, rows.len() as int)
    &&& r.total_tokens == capped(row_tokens_upto(rows, rows.len() as int))
}

proof fn lemma_row_counts(rows: Seq<(bool, bool, usize)>, k: int)
    requires
        0 <= k <= rows.len(),
    ensures
        correct_rows_upto(rows, k) <= scored_upto(rows, k) <= k,
    decreases k,
{
    if k > 0 {
        lemma_row_counts(rows, k - 1);
    }
}

/// Count a run's rows: attempted, scored (not errored), errored, correct
/// among the scored, and the tokens the scored rows spent.
pub fn tally_rows(rows: &Vec<(bool, bool, usize)>) -> (r: RowTally)
    ensures
        row_tally_holds(rows@, r),
{
    let mut scored: usize = 0;
    let mut correct: usize = 0;
    let mut tokens: usize = 0;
    let mut i: usize = 0;
    while i < rows.len()
        invariant
            i <= rows@.len(),
            scored == scored_upto(rows@, i as int),
            correct == correct_rows_upto(rows@, i as int),
            tokens == capped(row_tokens_upto(rows@, i as int)),
        decreases rows@.len() - i,
    {
        proof {
            lemma_row_counts(rows@, i as int);
        }
        let (errored, ok, n) = rows[i];
        if !errored {
            scored = scored + 1;
            if ok {
                correct = correct + 1;
            }
            tokens = if tokens > usize::MAX - n {
                usize::MAX
            } else {
                tokens + n
            };
        }
        i = i + 1;
    }
    proof {
        lemma_row_counts(rows@, rows@.len() as int);
    }
    RowTally {
        n_attempted: rows.len(),
        n_scored: scored,
        n_errored: rows.len() - scored,
        n_correct: correct,
        total_tokens: tokens,
    }
}

} // verus!
