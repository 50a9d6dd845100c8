//! The leaderboard's own types: what it reads of a result's task set and
//! sampling, and the keys it sorts by.

use vstd::prelude::*;
use vstd::utf8::*;

use crate::bench::model::{debug_quoted, debug_string};
use crate::bench::taskset::{hex_of, is_lower_hex, load_lines, sha256_of, OVERTHINKING_V1};
use crate::text::{
    chars_equal, chars_less, chars_lt, chars_of, lemma_chars_lt_asymmetric, lemma_chars_lt_total,
    lemma_chars_lt_transitive, decimal, decimal_chars, push_chars, push_str, slice_chars, trim_chars,
    trim_seq,
};

verus! {

/// The task set a result was run against.
#[derive(Debug, Clone)]
pub struct TaskSetRef {
    pub name: String,
    pub sha256: String,
    pub n: usize,
}

/// How a result was sampled.
#[derive(Debug, Clone)]
pub struct SamplingRef {
    pub samples: usize,
}

/// One sample per task, the default when a result does not say.
pub fn one() -> (r: usize)
    ensures
        r == 1,
{
    1
}

#[derive(Debug, Clone, Copy, PartialEq, Eq, Structural)]
pub enum SortKey {
    Accuracy,
    Quality,
    Tokens,
    Cost,
}

/// `c` with ASCII uppercase letters lowered (`char::to_ascii_lowercase`).
pub open spec fn ascii_lower_char(c: char) -> char {
    if 'A' <= c && c <= 'Z' {
        ((c as u32) + 32) as char
    } else {
        c
    }
}

pub open spec fn ascii_lower(s: Seq<char>) -> Seq<char> {
    s.map_values(|c: char| ascii_lower_char(c))
}

/// `str::to_ascii_lowercase`, as characters.
pub fn ascii_lowercase_chars(s: &str) -> (r: Vec<char>)
    ensures
        r@ == ascii_lower(s@),
{
    let cs = chars_of(s);
    let mut out: Vec<char> = Vec::new();
    let mut i: usize = 0;
    while i < cs.len()
        invariant
            i <= cs@.len(),
            cs@ == s@,
            out@ == ascii_lower(cs@.take(i as int)),
        decreases cs@.len() - i,
    {
        let c = cs[i];
        let l = if 'A' <= c && c <= 'Z' {
            ((c as u32) + 32) as u8 as char
        } else {
            c
        };
        out.push(l);
        assert(ascii_lower(cs@.take(i + 1)) =~= ascii_lower(cs@.take(i as int)).push(
            ascii_lower_char(cs@[i as int]),
        ));
        i = i + 1;
    }
    assert(cs@.take(cs@.len() as int) =~= cs@);
    out
}

/// Whether the characters `cs` spell `lit`.
pub(crate) fn spells(cs: &Vec<char>, lit: &str) -> (r: bool)
    ensures
        r == (cs@ == lit@),
{
    let l = chars_of(lit);
    chars_equal(cs, &l)
}

/// The sort key a (lowered) name selects.
pub open spec fn sort_key_named(key: Seq<char>) -> Option<SortKey> {
    if key == "accuracy"@ {
        Some(SortKey::Accuracy)
    } else if key == "quality"@ {
        Some(SortKey::Quality)
    } else if key == "tokens"@ || key == "tokens_per_correct"@ {
        Some(SortKey::Tokens)
    } else if key == "cost"@ || key == "cost_per_1k_correct"@ {
        Some(SortKey::Cost)
    } else {
        None
    }
}

impl SortKey {
    /// Parse a sort key, ignoring ASCII case; unknown names are an error
    /// that repeats the (lowered) name and lists the choices.
    pub fn parse(s: &str) -> (r: Result<SortKey, String>)
        ensures
            match sort_key_named(ascii_lower(s@)) {
                Some(k) => r == Ok::<SortKey, String>(k),
                None => r is Err && r->Err_0@ == "unknown sort `"@ + ascii_lower(s@)
                    + "` (accuracy|quality|tokens|cost)"@,
            },
    {
        let key = ascii_lowercase_chars(s);
        if spells(&key, "accuracy") {
            Ok(SortKey::Accuracy)
        } else if spells(&key, "quality") {
            Ok(SortKey::Quality)
        } else if spells(&key, "tokens") || spells(&key, "tokens_per_correct") {
            Ok(SortKey::Tokens)
        } else if spells(&key, "cost") || spells(&key, "cost_per_1k_correct") {
            Ok(SortKey::Cost)
        } else {
            let mut msg = String::new();
            push_str(&mut msg, "unknown sort `");
            push_chars(&mut msg, key.as_slice());
            push_str(&mut msg, "` (accuracy|quality|tokens|cost)");
            Err(msg)
        }
    }
}

impl std::str::FromStr for SortKey {
    type Err = String;

    fn from_str(s: &str) -> (r: Result<Self, Self::Err>)
        ensures
            match sort_key_named(ascii_lower(s@)) {
                Some(k) => r == Ok::<SortKey, String>(k),
                None => r is Err && r->Err_0@ == "unknown sort `"@ + ascii_lower(s@) + "` (accuracy|quality|tokens|cost)"@,
            },
    {
        SortKey::parse(s)
    }
}


/// The schema version this build reads and writes.
pub const SCHEMA_VERSION: &'static str = "1";

/// 64 lowercase hexadecimal characters.
pub open spec fn is_sha_hex(s: Seq<char>) -> bool {
    s.len() == 64 && forall|i: int| 0 <= i < s.len() ==> is_lower_hex(#[trigger] s[i])
}

fn sha_hex(s: &str) -> (r: bool)
    ensures
        r == is_sha_hex(s@),
{
    let cs = chars_of(s);
    if cs.len() != 64 {
        return false;
    }
    let mut i: usize = 0;
    while i < cs.len()
        invariant
            i <= cs@.len(),
            cs@ == s@,
            forall|k: int| 0 <= k < i ==> is_lower_hex(#[trigger] cs@[k]),
        decreases cs@.len() - i,
    {
        let c = cs[i];
        if !(('0' <= c && c <= '9') || ('a' <= c && c <= 'f')) {
            return false;
        }
        i = i + 1;
    }
    true
}

/// `msg` as a one-element list when `cond` holds, else an empty list.
pub open spec fn problem_if(cond: bool, msg: Seq<char>) -> Seq<Seq<char>> {
    if cond {
        seq![msg]
    } else {
        seq![]
    }
}

/// The frozen digest of the bundled set of that name, if it is bundled.
pub open spec fn frozen_sha(name: Seq<char>) -> Option<Seq<char>> {
    if name == "overthinking-v1"@ {
        Some(hex_of(sha256_of(encode_utf8(OVERTHINKING_V1@))))
    } else {
        None
    }
}

/// The problems found in a result's fields, in the order they are checked:
/// schema version, model, task-set name, digest shape, then the range
/// problems of the metrics (found by the caller), samples, scored count, and
/// last the digest of a bundled set.
pub open spec fn entry_problems(
    schema_version: Seq<char>,
    model: Seq<char>,
    name: Seq<char>,
    sha: Seq<char>,
    n: usize,
    samples: usize,
    n_scored: usize,
    range_problems: Seq<Seq<char>>,
) -> Seq<Seq<char>> {
    problem_if(
        schema_version != SCHEMA_VERSION@,
        "schema_version "@ + debug_quoted(schema_version) + " unsupported (this build reads "@
            + debug_quoted(SCHEMA_VERSION@) + ")"@,
    ) + problem_if(trim_seq(model).len() == 0, "model is empty"@) + problem_if(
        trim_seq(name).len() == 0,
        "task_set.name is empty"@,
    ) + problem_if(!is_sha_hex(sha), "task_set.sha256 is not 64 lowercase hex chars"@)
        + range_problems + problem_if(samples < 1, "sampling.samples must be >= 1"@) + problem_if(
        n > 0 && n_scored > n,
        "n_scored "@ + decimal(n_scored as nat) + " exceeds task_set.n "@ + decimal(n as nat),
    ) + problem_if(
        is_sha_hex(sha) && frozen_sha(name) is Some && frozen_sha(name)->0 != sha,
        "task_set.sha256 "@ + sha.take(8) + "… does not match the frozen bundled `"@ + name
            + "` ("@ + frozen_sha(name)->0.take(8)
            + "…) — results must be run against the committed task set"@,
    )
}

pub open spec fn string_views(v: Seq<String>) -> Seq<Seq<char>> {
    v.map_values(|s: String| s@)
}

pub open spec fn opt_seq(p: Option<String>) -> Seq<Seq<char>> {
    match p {
        Some(s) => seq![s@],
        None => seq![],
    }
}

fn push_opt(out: &mut Vec<String>, p: Option<String>)
    ensures
        string_views(final(out)@) == string_views(old(out)@) + opt_seq(p),
{
    let ghost before = out@;
    match p {
        Some(msg) => {
            out.push(msg);
            assert(string_views(out@) =~= string_views(before) + opt_seq(Some(msg)));
        },
        None => {
            assert(string_views(out@) =~= string_views(before) + opt_seq(None::<String>));
        },
    }
}

fn message(text: &str) -> (r: Option<String>)
    ensures
        opt_seq(r) == seq![text@],
{
    let mut msg = String::new();
    push_str(&mut msg, text);
    Some(msg)
}

fn schema_problem(schema_version: &str) -> (r: Option<String>)
    ensures
        opt_seq(r) == problem_if(
            schema_version@ != SCHEMA_VERSION@,
            "schema_version "@ + debug_quoted(schema_version@) + " unsupported (this build reads "@
                + debug_quoted(SCHEMA_VERSION@) + ")"@,
        ),
{
    let sv = chars_of(schema_version);
    if spells(&sv, SCHEMA_VERSION) {
        return None;
    }
    let mut msg = String::new();
    push_str(&mut msg, "schema_version ");
    let q = debug_string(schema_version);
    push_str(&mut msg, q.as_str());
    push_str(&mut msg, " unsupported (this build reads ");
    let q = debug_string(SCHEMA_VERSION);
    push_str(&mut msg, q.as_str());
    push_str(&mut msg, ")");
    Some(msg)
}

fn blank_problem(text: &str, complaint: &str) -> (r: Option<String>)
    ensures
        opt_seq(r) == problem_if(trim_seq(text@).len() == 0, complaint@),
{
    let cs = chars_of(text);
    let t = trim_chars(&cs);
    if t.len() == 0 {
        message(complaint)
    } else {
        None
    }
}

fn scored_problem(n: usize, n_scored: usize) -> (r: Option<String>)
    ensures
        opt_seq(r) == problem_if(
            n > 0 && n_scored > n,
            "n_scored "@ + decimal(n_scored as nat) + " exceeds task_set.n "@ + decimal(n as nat),
        ),
{
    if !(n > 0 && n_scored > n) {
        return None;
    }
    let mut msg = String::new();
    push_str(&mut msg, "n_scored ");
    let ds = decimal_chars(n_scored as u64);
    push_chars(&mut msg, ds.as_slice());
    push_str(&mut msg, " exceeds task_set.n ");
    let ds = decimal_chars(n as u64);
    push_chars(&mut msg, ds.as_slice());
    Some(msg)
}

fn integrity_problem(name: &str, sha: &str, sha_ok: bool) -> (r: Option<String>)
    requires
        sha_ok == is_sha_hex(sha@),
    ensures
        opt_seq(r) == problem_if(
            is_sha_hex(sha@) && frozen_sha(name@) is Some && frozen_sha(name@)->0 != sha@,
            "task_set.sha256 "@ + sha@.take(8) + "… does not match the frozen bundled `"@ + name@
                + "` ("@ + frozen_sha(name@)->0.take(8)
                + "…) — results must be run against the committed task set"@,
        ),
{
    if !sha_ok {
        return None;
    }
    match load_lines(name) {
        Ok((frozen, _)) => {
            let fc = chars_of(frozen.as_str());
            let given = chars_of(sha);
            if chars_equal(&fc, &given) {
                return None;
            }
            let mut msg = String::new();
            push_str(&mut msg, "task_set.sha256 ");
            let head = slice_chars(&given, 0, 8);
            assert(head@ =~= sha@.take(8));
            push_chars(&mut msg, head.as_slice());
            push_str(&mut msg, "… does not match the frozen bundled `");
            push_str(&mut msg, name);
            push_str(&mut msg, "` (");
            let fhead = slice_chars(&fc, 0, 8);
            assert(fhead@ =~= frozen@.take(8));
            push_chars(&mut msg, fhead.as_slice());
            push_str(&mut msg, "…) — results must be run against the committed task set");
            Some(msg)
        },
        Err(_) => None,
    }
}

/// Semantic checks on a result's fields, beyond "it deserializes". The range
/// checks of its float metrics are done by the caller and passed in
/// `range_problems`; they keep their place in the order of the checks. The
/// integrity check, a claimed bundled task set must carry that set's frozen
/// SHA-256, is what keeps a leaderboard entry honest.
pub fn validate_entry(
    schema_version: &str,
    model: &str,
    task_set: &TaskSetRef,
    sampling: &SamplingRef,
    n_scored: usize,
    range_problems: Vec<String>,
) -> (r: Vec<String>)
    ensures
        string_views(r@) == entry_problems(
            schema_version@,
            model@,
            task_set.name@,
            task_set.sha256@,
            task_set.n,
            sampling.samples,
            n_scored,
            string_views(range_problems@),
        ),
{
    let mut v: Vec<String> = Vec::new();
    assert(string_views(v@) =~= Seq::<Seq<char>>::empty());
    push_opt(&mut v, schema_problem(schema_version));
    push_opt(&mut v, blank_problem(model, "model is empty"));
    push_opt(&mut v, blank_problem(task_set.name.as_str(), "task_set.name is empty"));
    let sha_ok = sha_hex(task_set.sha256.as_str());
    let sha_msg = if sha_ok {
        None
    } else {
        message("task_set.sha256 is not 64 lowercase hex chars")
    };
    push_opt(&mut v, sha_msg);
    let ghost d = string_views(v@);
    let ghost rp = string_views(range_problems@);
    let mut k: usize = 0;
    while k < range_problems.len()
        invariant
            k <= range_problems@.len(),
            rp == string_views(range_problems@),
            string_views(v@) == d + rp.take(k as int),
        decreases range_problems@.len() - k,
    {
        let ghost before = v@;
        v.push(range_problems[k].clone());
        assert(string_views(v@) =~= string_views(before).push(range_problems@[k as int]@));
        assert(rp.take(k + 1) =~= rp.take(k as int).push(rp[k as int]));
        k = k + 1;
    }
    assert(rp.take(rp.len() as int) =~= rp);
    let samples_msg = if sampling.samples < 1 {
        message("sampling.samples must be >= 1")
    } else {
        None
    };
    push_opt(&mut v, samples_msg);
    push_opt(&mut v, scored_problem(task_set.n, n_scored));
    push_opt(&mut v, integrity_problem(task_set.name.as_str(), task_set.sha256.as_str(), sha_ok));
    v
}

/// What identifies a run on the leaderboard, and when it was measured.
#[derive(Debug, Clone)]
pub struct RunKey {
    pub task_set: String,
    pub sha256: String,
    pub model: String,
    pub samples: usize,
    pub generated_at: u64,
}

/// Two runs of the same model, sample count and task set.
pub open spec fn same_run(a: RunKey, b: RunKey) -> bool {
    a.task_set@ == b.task_set@ && a.sha256@ == b.sha256@ && a.model@ == b.model@ && a.samples
        == b.samples
}

/// Run `i` is the one kept for its key: no other run of that key is newer,
/// and none as new comes before it.
pub open spec fn is_newest(keys: Seq<RunKey>, i: int) -> bool {
    forall|j: int|
        0 <= j < keys.len() && j != i && #[trigger] same_run(keys[j], keys[i]) ==> keys[j].generated_at
            < keys[i].generated_at || (keys[j].generated_at == keys[i].generated_at && i < j)
}

/// Deduplication goes by task set, digest, model and sample count together:
/// a run that shares all four with no other run is always kept, so runs of
/// different models (or sets, digests, sample counts) never displace each
/// other; and a run is dropped when another run with all four equal is newer,
/// or as new and listed earlier.
pub proof fn runs_are_deduplicated_by_their_full_key(keys: Seq<RunKey>, i: int)
    requires
        0 <= i < keys.len(),
    ensures
        (forall|j: int|
            0 <= j < keys.len() && j != i ==> !(keys[j].task_set@ == keys[i].task_set@
                && keys[j].sha256@ == keys[i].sha256@ && keys[j].model@ == keys[i].model@
                && #[trigger] keys[j].samples == keys[i].samples)) ==> is_newest(keys, i),
        forall|j: int|
            #![trigger keys[j]]
            0 <= j < keys.len() && j != i && keys[j].task_set@ == keys[i].task_set@
                && keys[j].sha256@ == keys[i].sha256@ && keys[j].model@ == keys[i].model@
                && keys[j].samples == keys[i].samples && (keys[j].generated_at
                > keys[i].generated_at || (keys[j].generated_at == keys[i].generated_at && j < i))
                ==> !is_newest(keys, i),
{
    assert forall|j: int|
        #![trigger keys[j]]
        0 <= j < keys.len() && j != i && keys[j].task_set@ == keys[i].task_set@
            && keys[j].sha256@ == keys[i].sha256@ && keys[j].model@ == keys[i].model@
            && keys[j].samples == keys[i].samples && (keys[j].generated_at
            > keys[i].generated_at || (keys[j].generated_at == keys[i].generated_at && j < i))
            implies !is_newest(keys, i) by {
        assert(same_run(keys[j], keys[i]));
    }
}

fn same_run_exec(a: &RunKey, b: &RunKey) -> (r: bool)
    ensures
        r == same_run(*a, *b),
{
    let x = chars_of(a.task_set.as_str());
    let y = chars_of(b.task_set.as_str());
    if !chars_equal(&x, &y) {
        return false;
    }
    let x = chars_of(a.sha256.as_str());
    let y = chars_of(b.sha256.as_str());
    if !chars_equal(&x, &y) {
        return false;
    }
    let x = chars_of(a.model.as_str());
    let y = chars_of(b.model.as_str());
    if !chars_equal(&x, &y) {
        return false;
    }
    a.samples == b.samples
}

/// Indices, in order, of the runs the leaderboard keeps: the newest run per
/// (task set, digest, model, samples), the earliest listed on a tie.
pub fn newest_runs(keys: &Vec<RunKey>) -> (r: Vec<usize>)
    ensures
        forall|k: int| 0 <= k < r@.len() ==> (#[trigger] r@[k]) < keys@.len(),
        forall|k: int, l: int| 0 <= k < l < r@.len() ==> r@[k] < r@[l],
        forall|i: int| 0 <= i < keys@.len() ==> (is_newest(keys@, i) <==> r@.contains(i as usize)),
{
    let n = keys.len();
    let mut out: Vec<usize> = Vec::new();
    let mut i: usize = 0;
    while i < n
        invariant
            i <= n,
            n == keys@.len(),
            forall|k: int| 0 <= k < out@.len() ==> (#[trigger] out@[k]) < i,
            forall|k: int, l: int| 0 <= k < l < out@.len() ==> out@[k] < out@[l],
            forall|q: int| 0 <= q < i ==> (is_newest(keys@, q) <==> out@.contains(q as usize)),
        decreases n - i,
    {
        let mut keep = true;
        let mut j: usize = 0;
        while j < n
            invariant
                j <= n,
                i < n,
                n == keys@.len(),
                keep == forall|q: int|
                    0 <= q < j && q != i && #[trigger] same_run(keys@[q], keys@[i as int])
                        ==> keys@[q].generated_at < keys@[i as int].generated_at || (
                    keys@[q].generated_at == keys@[i as int].generated_at && i < q),
            decreases n - j,
        {
            if j != i && same_run_exec(&keys[j], &keys[i]) {
                let gj = keys[j].generated_at;
                let gi = keys[i].generated_at;
                if !(gj < gi || (gj == gi && i < j)) {
                    keep = false;
                }
            }
            j = j + 1;
        }
        let ghost before = out@;
        if keep {
            out.push(i);
            assert forall|q: int| 0 <= q < i + 1 implies (is_newest(keys@, q) <==> out@.contains(
                q as usize,
            )) by {
                if q < i {
                    if before.contains(q as usize) {
                        let w = choose|w: int| 0 <= w < before.len() && before[w] == q as usize;
                        assert(out@[w] == q as usize);
                    }
                    if out@.contains(q as usize) {
                        let w = choose|w: int| 0 <= w < out@.len() && out@[w] == q as usize;
                        if w == before.len() {
                        } else {
                            assert(before[w] == q as usize);
                        }
                    }
                } else {
                    assert(out@[before.len() as int] == i);
                }
            }
        } else {
            assert(!out@.contains(i)) by {
                if out@.contains(i) {
                    let w = choose|w: int| 0 <= w < out@.len() && out@[w] == i;
                    assert(out@[w] < i);
                }
            }
        }
        i = i + 1;
    }
    out
}


/// The first `min(len, n)` bytes of `s`, which must end on a char boundary.
pub fn byte_prefix(s: &str, n: usize) -> (r: &str)
    requires
        is_char_boundary(
            encode_utf8(s@),
            if encode_utf8(s@).len() < n {
                encode_utf8(s@).len() as int
            } else {
                n as int
            },
        ),
    ensures
        encode_utf8(r@) == encode_utf8(s@).take(
            if encode_utf8(s@).len() < n {
                encode_utf8(s@).len() as int
            } else {
                n as int
            },
        ),
{
    let len = crate::text::byte_len(s);
    let mid = if len < n {
        len
    } else {
        n
    };
    let (head, _) = s.split_at(mid);
    assert(encode_utf8(head@) =~= encode_utf8(s@).subrange(0, mid as int));
    head
}

/// The short form of a digest shown in leaderboard tables: its first six bytes.
pub fn short_sha(sha: &str) -> (r: &str)
    requires
        is_char_boundary(
            encode_utf8(sha@),
            if encode_utf8(sha@).len() < 6 {
                encode_utf8(sha@).len() as int
            } else {
                6
            },
        ),
    ensures
        encode_utf8(r@) == encode_utf8(sha@).take(
            if encode_utf8(sha@).len() < 6 {
                encode_utf8(sha@).len() as int
            } else {
                6
            },
        ),
{
    byte_prefix(sha, 6)
}


/// What a leaderboard groups runs by: the task set's name and digest.
pub open spec fn set_key(t: TaskSetRef) -> (Seq<char>, Seq<char>) {
    (t.name@, t.sha256@)
}

/// The order of groups: by name, then by digest.
pub open spec fn set_key_lt(a: (Seq<char>, Seq<char>), b: (Seq<char>, Seq<char>)) -> bool {
    chars_lt(a.0, b.0) || (a.0 == b.0 && chars_lt(a.1, b.1))
}

/// The key of group `g`: that of its first run.
pub open spec fn group_key(sets: Seq<TaskSetRef>, groups: Seq<Vec<usize>>, g: int) -> (
    Seq<char>,
    Seq<char>,
) {
    set_key(sets[groups[g]@[0] as int])
}

proof fn lemma_set_key_order(a: (Seq<char>, Seq<char>), b: (Seq<char>, Seq<char>), c: (
    Seq<char>,
    Seq<char>,
))
    ensures
        !set_key_lt(a, a),
        set_key_lt(a, b) ==> !set_key_lt(b, a),
        set_key_lt(a, b) && set_key_lt(b, c) ==> set_key_lt(a, c),
        a != b ==> set_key_lt(a, b) || set_key_lt(b, a),
{
    lemma_chars_lt_asymmetric(a.0, b.0);
    lemma_chars_lt_asymmetric(a.1, b.1);
    if chars_lt(a.0, b.0) && chars_lt(b.0, c.0) {
        lemma_chars_lt_transitive(a.0, b.0, c.0);
    }
    if chars_lt(a.1, b.1) && chars_lt(b.1, c.1) {
        lemma_chars_lt_transitive(a.1, b.1, c.1);
    }
    if a.0 != b.0 {
        lemma_chars_lt_total(a.0, b.0);
    } else if a.1 != b.1 {
        lemma_chars_lt_total(a.1, b.1);
    }
}

fn set_key_less(a: &TaskSetRef, b: &TaskSetRef) -> (r: bool)
    ensures
        r == set_key_lt(set_key(*a), set_key(*b)),
{
    let an = chars_of(a.name.as_str());
    let bn = chars_of(b.name.as_str());
    if chars_less(&an, &bn) {
        return true;
    }
    if !chars_equal(&an, &bn) {
        return false;
    }
    let ad = chars_of(a.sha256.as_str());
    let bd = chars_of(b.sha256.as_str());
    chars_less(&ad, &bd)
}

fn set_key_same(a: &TaskSetRef, b: &TaskSetRef) -> (r: bool)
    ensures
        r == (set_key(*a) == set_key(*b)),
{
    let an = chars_of(a.name.as_str());
    let bn = chars_of(b.name.as_str());
    let ad = chars_of(a.sha256.as_str());
    let bd = chars_of(b.sha256.as_str());
    chars_equal(&an, &bn) && chars_equal(&ad, &bd)
}

/// The keys of the runs `heads` of `sets` are in strictly ascending order.
#[verifier::opaque]
pub open spec fn heads_ordered(sets: Seq<TaskSetRef>, heads: Seq<usize>) -> bool {
    forall|k: int, l: int|
        0 <= k < l < heads.len() ==> set_key_lt(
            set_key(sets[#[trigger] heads[k] as int]),
            set_key(sets[#[trigger] heads[l] as int]),
        )
}

/// Each of the first `m` runs of `sets` shares its key with one of `heads`.
#[verifier::opaque]
pub open spec fn heads_cover(sets: Seq<TaskSetRef>, heads: Seq<usize>, m: int) -> bool {
    forall|j: int|
        0 <= j < m ==> exists|k: int|
            0 <= k < heads.len() && set_key(#[trigger] sets[j]) == set_key(
                sets[#[trigger] heads[k] as int],
            )
}

proof fn lemma_insert_head(sets: Seq<TaskSetRef>, heads: Seq<usize>, p: int, i: usize)
    requires
        0 <= p <= heads.len(),
        i < sets.len(),
        heads_ordered(sets, heads),
        heads_cover(sets, heads, i as int),
        forall|k: int|
            0 <= k < p ==> set_key_lt(set_key(sets[#[trigger] heads[k] as int]), set_key(sets[i as int])),
        p < heads.len() ==> set_key_lt(set_key(sets[i as int]), set_key(sets[heads[p] as int])),
    ensures
        heads_ordered(sets, heads.insert(p, i)),
        heads_cover(sets, heads.insert(p, i), i + 1),
{
    reveal(heads_ordered);
    reveal(heads_cover);
    let nh = heads.insert(p, i);
    let key = set_key(sets[i as int]);
    assert forall|k: int, l: int| 0 <= k < l < nh.len() implies set_key_lt(
        set_key(sets[#[trigger] nh[k] as int]),
        set_key(sets[#[trigger] nh[l] as int]),
    ) by {
        let lk = set_key(sets[nh[l] as int]);
        if k < p && l == p {
            assert(nh[k] == heads[k]);
        } else if k < p && l > p {
            assert(nh[k] == heads[k] && nh[l] == heads[l - 1]);
        } else if l < p {
            assert(nh[k] == heads[k] && nh[l] == heads[l]);
        } else if k == p {
            assert(nh[l] == heads[l - 1]);
            if l - 1 > p {
                let pk = set_key(sets[heads[p] as int]);
                assert(set_key_lt(pk, lk));
                lemma_set_key_order(key, pk, lk);
            }
        } else {
            assert(nh[k] == heads[k - 1] && nh[l] == heads[l - 1]);
        }
    }
    assert forall|j: int| 0 <= j < i + 1 implies exists|k: int|
        0 <= k < nh.len() && set_key(#[trigger] sets[j]) == set_key(sets[#[trigger] nh[k] as int]) by {
        if j == i {
            assert(nh[p] == i);
        } else {
            let k0 = choose|k: int|
                0 <= k < heads.len() && set_key(#[trigger] sets[j]) == set_key(
                    sets[#[trigger] heads[k] as int],
                );
            if k0 < p {
                assert(nh[k0] == heads[k0]);
            } else {
                assert(nh[k0 + 1] == heads[k0]);
            }
        }
    }
}

proof fn lemma_cover_step(sets: Seq<TaskSetRef>, heads: Seq<usize>, p: int, i: usize)
    requires
        0 <= p < heads.len(),
        i < sets.len(),
        heads_cover(sets, heads, i as int),
        set_key(sets[heads[p] as int]) == set_key(sets[i as int]),
    ensures
        heads_cover(sets, heads, i + 1),
{
    reveal(heads_cover);
    assert forall|j: int| 0 <= j < i + 1 implies exists|k: int|
        0 <= k < heads.len() && set_key(#[trigger] sets[j]) == set_key(
            sets[#[trigger] heads[k] as int],
        ) by {
        if j == i {
            assert(set_key(sets[j]) == set_key(sets[heads[p] as int]));
        }
    }
}

/// Run `i` is listed in one of `groups`.
pub open spec fn in_some_group(groups: Seq<Vec<usize>>, i: int) -> bool {
    exists|g: int| 0 <= g < groups.len() && (#[trigger] groups[g])@.contains(i as usize)
}

/// One run of each task set among `sets`, ordered by key.
fn set_heads(sets: &Vec<TaskSetRef>) -> (heads: Vec<usize>)
    ensures
        forall|k: int| 0 <= k < heads@.len() ==> #[trigger] heads@[k] < sets@.len(),
        heads_ordered(sets@, heads@),
        heads_cover(sets@, heads@, sets@.len() as int),
{
    let n = sets.len();
    let mut heads: Vec<usize> = Vec::new();
    let mut i: usize = 0;
    proof {
        reveal(heads_ordered);
        reveal(heads_cover);
    }
    while i < n
        invariant
            i <= n,
            n == sets@.len(),
            forall|k: int| 0 <= k < heads@.len() ==> #[trigger] heads@[k] < i,
            heads_ordered(sets@, heads@),
            heads_cover(sets@, heads@, i as int),
        decreases n - i,
    {
        let p = head_position(sets, &heads, i);
        if p < heads.len() && set_key_same(&sets[heads[p]], &sets[i]) {
            proof {
                lemma_cover_step(sets@, heads@, p as int, i);
            }
        } else {
            proof {
                if p < heads@.len() {
                    let hk = set_key(sets@[heads@[p as int] as int]);
                    lemma_set_key_order(hk, set_key(sets@[i as int]), hk);
                }
                lemma_insert_head(sets@, heads@, p as int, i);
            }
            heads.insert(p, i);
        }
        i = i + 1;
    }
    heads
}

/// Where run `i`'s key goes among the ordered `heads`: after every head
/// whose key sorts before it, at the first whose key does not.
fn head_position(sets: &Vec<TaskSetRef>, heads: &Vec<usize>, i: usize) -> (p: usize)
    requires
        i < sets@.len(),
        forall|k: int| 0 <= k < heads@.len() ==> #[trigger] heads@[k] < sets@.len(),
    ensures
        p <= heads@.len(),
        forall|k: int|
            0 <= k < p ==> set_key_lt(
                set_key(sets@[#[trigger] heads@[k] as int]),
                set_key(sets@[i as int]),
            ),
        p < heads@.len() ==> !set_key_lt(
            set_key(sets@[heads@[p as int] as int]),
            set_key(sets@[i as int]),
        ),
{
    let mut p: usize = 0;
    while p < heads.len() && set_key_less(&sets[heads[p]], &sets[i])
        invariant
            p <= heads@.len(),
            i < sets@.len(),
            forall|k: int| 0 <= k < heads@.len() ==> #[trigger] heads@[k] < sets@.len(),
            forall|k: int|
                0 <= k < p ==> set_key_lt(
                    set_key(sets@[#[trigger] heads@[k] as int]),
                    set_key(sets@[i as int]),
                ),
        decreases heads@.len() - p,
    {
        p = p + 1;
    }
    p
}

/// The indices, in order, of the runs in `sets` with the task set of run `h`.
fn runs_of_set(sets: &Vec<TaskSetRef>, h: usize) -> (members: Vec<usize>)
    requires
        h < sets@.len(),
    ensures
        members@.contains(h),
        forall|k: int|
            0 <= k < members@.len() ==> #[trigger] members@[k] < sets@.len() && set_key(
                sets@[members@[k] as int],
            ) == set_key(sets@[h as int]),
        forall|k: int, l: int|
            0 <= k < l < members@.len() ==> #[trigger] members@[k] < #[trigger] members@[l],
        forall|m: int|
            0 <= m < sets@.len() && set_key(#[trigger] sets@[m]) == set_key(sets@[h as int])
                ==> members@.contains(m as usize),
{
    let n = sets.len();
    let mut members: Vec<usize> = Vec::new();
    let mut j: usize = 0;
    let ghost hk = set_key(sets@[h as int]);
    while j < n
        invariant
            j <= n,
            n == sets@.len(),
            h < n,
            forall|k: int|
                0 <= k < members@.len() ==> #[trigger] members@[k] < j && set_key(
                    sets@[members@[k] as int],
                ) == set_key(sets@[h as int]),
            forall|k: int, l: int|
                0 <= k < l < members@.len() ==> #[trigger] members@[k] < #[trigger] members@[l],
            forall|m: int|
                0 <= m < j && set_key(#[trigger] sets@[m]) == set_key(sets@[h as int])
                    ==> members@.contains(m as usize),
        decreases n - j,
    {
        let ghost before = members@;
        if set_key_same(&sets[j], &sets[h]) {
            members.push(j);
        }
        proof {
            assert forall|m: int|
                0 <= m < j + 1 && set_key(#[trigger] sets@[m]) == set_key(sets@[h as int])
                    implies members@.contains(m as usize) by {
                if m == j {
                    assert(members@[members@.len() - 1] == j);
                } else {
                    let w = choose|w: int| 0 <= w < before.len() && before[w] == m as usize;
                    assert(members@[w] == m as usize);
                }
            }
        }
        j = j + 1;
    }
    assert(set_key(sets@[h as int]) == hk);
    members
}

/// The runs of a leaderboard grouped by task set (name and digest): one
/// group of indices per distinct task set, each listing in order every run
/// of that set, the groups in ascending order of name, then digest.
pub fn group_by_task_set(sets: &Vec<TaskSetRef>) -> (r: Vec<Vec<usize>>)
    ensures
        forall|g: int| 0 <= g < r@.len() ==> (#[trigger] r@[g])@.len() > 0,
        forall|g: int, k: int|
            0 <= g < r@.len() && 0 <= k < r@[g]@.len() ==> #[trigger] r@[g]@[k] < sets@.len()
                && set_key(sets@[r@[g]@[k] as int]) == group_key(sets@, r@, g),
        forall|g: int, k: int, l: int|
            0 <= g < r@.len() && 0 <= k < l < r@[g]@.len() ==> #[trigger] r@[g]@[k]
                < #[trigger] r@[g]@[l],
        forall|g: int, i: int|
            0 <= g < r@.len() && 0 <= i < sets@.len() && set_key(#[trigger] sets@[i])
                == group_key(sets@, r@, g) ==> (#[trigger] r@[g])@.contains(i as usize),
        forall|i: int| 0 <= i < sets@.len() ==> #[trigger] in_some_group(r@, i),
        forall|g: int, h: int|
            0 <= g < h < r@.len() ==> set_key_lt(
                #[trigger] group_key(sets@, r@, g),
                #[trigger] group_key(sets@, r@, h),
            ),
{
    let n = sets.len();
    let heads = set_heads(sets);
    let mut groups: Vec<Vec<usize>> = Vec::new();
    let mut q: usize = 0;
    while q < heads.len()
        invariant
            q <= heads@.len(),
            n == sets@.len(),
            groups@.len() == q,
            forall|k: int| 0 <= k < heads@.len() ==> #[trigger] heads@[k] < n,
            heads_ordered(sets@, heads@),
            heads_cover(sets@, heads@, n as int),
            forall|g: int|
                0 <= g < q ==> (#[trigger] groups@[g])@.len() > 0 && group_key(sets@, groups@, g)
                    == set_key(sets@[heads@[g] as int]),
            forall|g: int, k: int|
                0 <= g < q && 0 <= k < groups@[g]@.len() ==> #[trigger] groups@[g]@[k] < n
                    && set_key(sets@[groups@[g]@[k] as int]) == set_key(sets@[heads@[g] as int]),
            forall|g: int, k: int, l: int|
                0 <= g < q && 0 <= k < l < groups@[g]@.len() ==> #[trigger] groups@[g]@[k]
                    < #[trigger] groups@[g]@[l],
            forall|g: int, j: int|
                0 <= g < q && 0 <= j < n && set_key(#[trigger] sets@[j]) == set_key(
                    sets@[heads@[g] as int],
                ) ==> (#[trigger] groups@[g])@.contains(j as usize),
        decreases heads@.len() - q,
    {
        let members = runs_of_set(sets, heads[q]);
        let ghost before = groups@;
        proof {
            let w = choose|w: int| 0 <= w < members@.len() && members@[w] == heads@[q as int];
            assert(members@.len() > 0);
            assert(set_key(sets@[members@[0] as int]) == set_key(sets@[heads@[q as int] as int]));
        }
        groups.push(members);
        proof {
            assert forall|g: int| 0 <= g < q + 1 implies (#[trigger] groups@[g])@.len() > 0
                && group_key(sets@, groups@, g) == set_key(sets@[heads@[g] as int]) by {
                if g < q {
                    assert(groups@[g] == before[g]);
                }
            }
        }
        q = q + 1;
    }
    proof {
        reveal(heads_ordered);
        reveal(heads_cover);
        assert forall|i: int| 0 <= i < sets@.len() implies #[trigger] in_some_group(groups@, i) by {
            let k = choose|k: int|
                0 <= k < heads@.len() && set_key(#[trigger] sets@[i]) == set_key(
                    sets@[#[trigger] heads@[k] as int],
                );
            assert(groups@[k]@.contains(i as usize));
        }
        assert forall|g: int, h: int| 0 <= g < h < groups@.len() implies set_key_lt(
            #[trigger] group_key(sets@, groups@, g),
            #[trigger] group_key(sets@, groups@, h),
        ) by {
            assert(set_key_lt(set_key(sets@[heads@[g] as int]), set_key(sets@[heads@[h] as int])));
        }
    }
    groups
}

} // verus!
