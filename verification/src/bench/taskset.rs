//! Fixed, version-pinned benchmark task sets, bundled with the library: the
//! raw JSONL text, its SHA-256, and its numbered non-blank lines. Parsing a
//! line into a `Task` is left to the caller's JSON reader.

use vstd::prelude::*;
use vstd::utf8::*;

use sha2::Digest;

use crate::scorers::language::lines_of;
use crate::text::{chars_equal, chars_of, push_char, push_str, string_from_chars, trim_chars, trim_seq};

verus! {

#[derive(Debug, Clone)]
pub struct Task {
    pub id: String,
    pub problem: String,
    pub expected_answer: String,
}

#[derive(Debug, Clone)]
pub struct TaskSet {
    pub name: String,
    pub sha256: String,
    pub tasks: Vec<Task>,
}

/// The bundled `overthinking-v1` task set: twelve short arithmetic and
/// word problems, one JSON object per line.
pub const OVERTHINKING_V1: &'static str = "{\"id\":\"ot-001\",\"problem\":\"What is 17 + 26?\",\"expected_answer\":\"43\"}
{\"id\":\"ot-002\",\"problem\":\"What is 8 multiplied by 7?\",\"expected_answer\":\"56\"}
{\"id\":\"ot-003\",\"problem\":\"What is 144 divided by 12?\",\"expected_answer\":\"12\"}
{\"id\":\"ot-004\",\"problem\":\"What is 100 minus 37?\",\"expected_answer\":\"63\"}
{\"id\":\"ot-005\",\"problem\":\"What is the sum of the first 5 positive integers?\",\"expected_answer\":\"15\"}
{\"id\":\"ot-006\",\"problem\":\"A train travels 60 km in 1.5 hours. What is its average speed in km/h?\",\"expected_answer\":\"40\"}
{\"id\":\"ot-007\",\"problem\":\"What is 15% of 200?\",\"expected_answer\":\"30\"}
{\"id\":\"ot-008\",\"problem\":\"What is the smallest prime number greater than 13?\",\"expected_answer\":\"17\"}
{\"id\":\"ot-009\",\"problem\":\"What is the area of a rectangle 6 units wide and 9 units tall?\",\"expected_answer\":\"54\"}
{\"id\":\"ot-010\",\"problem\":\"What is 2 to the power of 10?\",\"expected_answer\":\"1024\"}
{\"id\":\"ot-011\",\"problem\":\"How many minutes are there in 3.5 hours?\",\"expected_answer\":\"210\"}
{\"id\":\"ot-012\",\"problem\":\"What is 3/4 plus 1/4?\",\"expected_answer\":\"1\"}
";

/// Raw text of a bundled set by name.
pub fn bundled(name: &str) -> (r: Option<&'static str>)
    ensures
        match r {
            Some(raw) => name@ == "overthinking-v1"@ && raw@ == OVERTHINKING_V1@,
            None => name@ != "overthinking-v1"@,
        },
{
    let a = chars_of(name);
    let b = chars_of("overthinking-v1");
    if chars_equal(&a, &b) {
        Some(OVERTHINKING_V1)
    } else {
        None
    }
}

/// Name for the SHA-256 digest of a byte string.
pub uninterp spec fn sha256_of(bytes: Seq<u8>) -> Seq<u8>;

/// `sha2::Sha256::digest`. A SHA-256 digest is 32 bytes, which its output
/// type fixes; beyond that, only the name is claimed.
#[verifier::external_body]
fn sha256_digest(bytes: &[u8]) -> (r: Vec<u8>)
    ensures
        r@ == sha256_of(bytes@),
        r@.len() == 32,
{
    sha2::Sha256::digest(bytes).to_vec()
}

/// Lowercase hexadecimal digit of `d` (below 16).
pub open spec fn hex_digit(d: int) -> char {
    if d < 10 {
        (48 + d) as char
    } else {
        (87 + d) as char
    }
}

/// Two lowercase hex digits per byte, most significant first.
pub open spec fn hex_of(bytes: Seq<u8>) -> Seq<char>
    decreases bytes.len(),
{
    if bytes.len() == 0 {
        seq![]
    } else {
        hex_of(bytes.drop_last()).push(hex_digit((bytes.last() / 16) as int)).push(
            hex_digit((bytes.last() % 16) as int),
        )
    }
}

pub open spec fn is_lower_hex(c: char) -> bool {
    ('0' <= c && c <= '9') || ('a' <= c && c <= 'f')
}

proof fn lemma_hex_of(bytes: Seq<u8>)
    ensures
        hex_of(bytes).len() == 2 * bytes.len(),
        forall|i: int| 0 <= i < hex_of(bytes).len() ==> is_lower_hex(#[trigger] hex_of(bytes)[i]),
    decreases bytes.len(),
{
    if bytes.len() > 0 {
        lemma_hex_of(bytes.drop_last());
        let h = hex_of(bytes);
        let p = hex_of(bytes.drop_last());
        assert forall|i: int| 0 <= i < h.len() implies is_lower_hex(#[trigger] h[i]) by {
            if i < p.len() {
                assert(h[i] == p[i]);
            }
        }
    }
}

fn hex_char(d: u8) -> (c: char)
    requires
        d < 16,
    ensures
        c == hex_digit(d as int),
{
    if d < 10 {
        (48u8 + d) as char
    } else {
        (87u8 + d) as char
    }
}

/// The SHA-256 of the UTF-8 bytes of `raw`, in lowercase hex.
pub fn digest_hex(raw: &str) -> (r: String)
    ensures
        r@ == hex_of(sha256_of(encode_utf8(raw@))),
        r@.len() == 64,
        forall|i: int| 0 <= i < r@.len() ==> is_lower_hex(#[trigger] r@[i]),
{
    let digest = sha256_digest(raw.as_bytes());
    let mut out = String::new();
    let mut i: usize = 0;
    while i < digest.len()
        invariant
            i <= digest@.len(),
            out@ == hex_of(digest@.take(i as int)),
        decreases digest@.len() - i,
    {
        let b = digest[i];
        push_char(&mut out, hex_char(b / 16));
        push_char(&mut out, hex_char(b % 16));
        assert(digest@.take(i + 1).drop_last() =~= digest@.take(i as int));
        i = i + 1;
    }
    assert(digest@.take(digest@.len() as int) =~= digest@);
    proof {
        lemma_hex_of(digest@);
    }
    out
}

/// The non-blank lines of `ls[..k]`, trimmed, each with its 1-based number.
pub open spec fn numbered_lines(ls: Seq<Seq<char>>, k: int) -> Seq<(int, Seq<char>)>
    decreases k,
{
    if k <= 0 {
        seq![]
    } else if trim_seq(ls[k - 1]).len() > 0 {
        numbered_lines(ls, k - 1).push((k, trim_seq(ls[k - 1])))
    } else {
        numbered_lines(ls, k - 1)
    }
}

/// The task lines of a raw task set: its non-blank lines, trimmed and numbered.
pub open spec fn task_lines_of(raw: Seq<char>) -> Seq<(int, Seq<char>)> {
    numbered_lines(lines_of(raw), lines_of(raw).len() as int)
}

pub open spec fn line_views(v: Seq<(usize, String)>) -> Seq<(int, Seq<char>)> {
    v.map_values(|p: (usize, String)| (p.0 as int, p.1@))
}

/// The message for a set that is not bundled.
pub open spec fn unknown_set_message(name: Seq<char>) -> Seq<char> {
    "unknown task set `"@ + name + "` (bundled: overthinking-v1)"@
}

/// What it takes to load a bundled task set, short of parsing its lines:
/// its SHA-256 in hex and its numbered task lines; an error for a name that
/// is not bundled.
pub fn load_lines(name: &str) -> (r: Result<(String, Vec<(usize, String)>), String>)
    ensures
        match r {
            Ok((sha, lines)) => {
                &&& name@ == "overthinking-v1"@
                &&& sha@ == hex_of(sha256_of(encode_utf8(OVERTHINKING_V1@)))
                &&& sha@.len() == 64
                &&& line_views(lines@) == task_lines_of(OVERTHINKING_V1@)
            },
            Err(msg) => name@ != "overthinking-v1"@ && msg@ == unknown_set_message(name@),
        },
{
    match bundled(name) {
        None => {
            let mut msg = String::new();
            push_str(&mut msg, "unknown task set `");
            push_str(&mut msg, name);
            push_str(&mut msg, "` (bundled: overthinking-v1)");
            Err(msg)
        },
        Some(raw) => {
            let sha = digest_hex(raw);
            let cs = chars_of(raw);
            let ls = crate::scorers::language::split_lines(&cs);
            let ghost lv = crate::text::key_views(ls@);
            let mut out: Vec<(usize, String)> = Vec::new();
            let mut i: usize = 0;
            while i < ls.len()
                invariant
                    i <= ls@.len(),
                    lv == crate::text::key_views(ls@),
                    lv == lines_of(raw@),
                    line_views(out@) == numbered_lines(lv, i as int),
                decreases ls@.len() - i,
            {
                let t = trim_chars(&ls[i]);
                assert(lv[i as int] == ls@[i as int]@);
                if t.len() > 0 {
                    let ghost before = out@;
                    out.push((i + 1, string_from_chars(t.as_slice())));
                    assert(line_views(out@) =~= line_views(before).push((i + 1, t@)));
                }
                i = i + 1;
            }
            Ok((sha, out))
        },
    }
}

/// The message for a set without tasks.
pub open spec fn empty_set_message(name: Seq<char>) -> Seq<char> {
    "task set `"@ + name + "` is empty"@
}

/// A task set from its parsed tasks; a set must hold at least one task.
pub fn task_set(name: &str, sha256: String, tasks: Vec<Task>) -> (r: Result<TaskSet, String>)
    ensures
        match r {
            Ok(ts) => tasks@.len() > 0 && ts.name@ == name@ && ts.sha256 == sha256 && ts.tasks
                == tasks,
            Err(msg) => tasks@.len() == 0 && msg@ == empty_set_message(name@),
        },
{
    if tasks.len() == 0 {
        let mut msg = String::new();
        push_str(&mut msg, "task set `");
        push_str(&mut msg, name);
        push_str(&mut msg, "` is empty");
        return Err(msg);
    }
    Ok(TaskSet { name: string_from_chars(chars_of(name).as_slice()), sha256, tasks })
}

} // verus!
