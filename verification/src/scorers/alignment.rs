//! Answer alignment: whether a trace converges on its answer at the end.
//! Four integer signals (convergence language, answer echo, formatted
//! delimiters, absence of trailing uncertainty) add up to a score out of 100.

use vstd::prelude::*;
use vstd::utf8::*;

use crate::text::{
    any_phrase, byte_len, char_floor, char_floor_index, chars_of, contains_any, contains_chars,
    contains_seq, count_present, lowercase, mul_div, phrases_present, prefix_byte_offsets,
    slice_chars, str_views, to_lowercase, trim_end_index, trim_end_seq,
};

verus! {

/// Language that narrows to a definitive conclusion (English, Chinese, Japanese, Korean).
pub open spec fn conclusion_phrases() -> Seq<Seq<char>> {
    seq![
        "therefore"@,
        "thus"@,
        "hence"@,
        "in conclusion"@,
        "we conclude"@,
        "to summarize"@,
        "in summary"@,
        "the answer is"@,
        "the result is"@,
        "the solution is"@,
        "final answer"@,
        "so the answer"@,
        "this gives us"@,
        "which gives"@,
        "we get"@,
        "we find that"@,
        "we obtain"@,
        "so overall"@,
        "putting it all together"@,
        "all things considered"@,
        "all in all"@,
        "this means that"@,
        "this tells us"@,
        "this indicates"@,
        "this suggests"@,
        "this confirms"@,
        "this points to"@,
        "i would conclude"@,
        "i'd conclude"@,
        "the diagnosis is"@,
        "i'd bet"@,
        "i think that makes sense"@,
        "makes sense given"@,
        "makes sense because"@,
        "fits the bill"@,
        "fits perfectly"@,
        "everything fits"@,
        "clicks into place"@,
        "it seems like"@,
        "it sure seems"@,
        "it looks like"@,
        "most likely"@,
        "i believe"@,
        "i think the answer"@,
        "yup,"@,
        "yeah,"@,
        "so the key"@,
        "the key takeaway"@,
        "the bottom line"@,
        "in short"@,
        "given all this"@,
        "with this in mind"@,
        "considering all"@,
        "因此"@,
        "所以"@,
        "答案是"@,
        "最终答案"@,
        "由此可得"@,
        "综上所述"@,
        "总结来说"@,
        "可以得出"@,
        "我们得到"@,
        "由此得出"@,
        "したがって"@,
        "よって"@,
        "答えは"@,
        "最終的な答え"@,
        "以上から"@,
        "まとめると"@,
        "結論として"@,
        "따라서"@,
        "정답은"@,
        "최종 답"@,
        "결론적으로"@,
        "종합하면"@,
    ]
}

/// The conclusion phrases as string slices.
pub fn conclusion_phrase_list() -> (r: Vec<&'static str>)
    ensures
        str_views(r@) == conclusion_phrases(),
{
    let r = vec![
        "therefore",
        "thus",
        "hence",
        "in conclusion",
        "we conclude",
        "to summarize",
        "in summary",
        "the answer is",
        "the result is",
        "the solution is",
        "final answer",
        "so the answer",
        "this gives us",
        "which gives",
        "we get",
        "we find that",
        "we obtain",
        "so overall",
        "putting it all together",
        "all things considered",
        "all in all",
        "this means that",
        "this tells us",
        "this indicates",
        "this suggests",
        "this confirms",
        "this points to",
        "i would conclude",
        "i'd conclude",
        "the diagnosis is",
        "i'd bet",
        "i think that makes sense",
        "makes sense given",
        "makes sense because",
        "fits the bill",
        "fits perfectly",
        "everything fits",
        "clicks into place",
        "it seems like",
        "it sure seems",
        "it looks like",
        "most likely",
        "i believe",
        "i think the answer",
        "yup,",
        "yeah,",
        "so the key",
        "the key takeaway",
        "the bottom line",
        "in short",
        "given all this",
        "with this in mind",
        "considering all",
        "因此",
        "所以",
        "答案是",
        "最终答案",
        "由此可得",
        "综上所述",
        "总结来说",
        "可以得出",
        "我们得到",
        "由此得出",
        "したがって",
        "よって",
        "答えは",
        "最終的な答え",
        "以上から",
        "まとめると",
        "結論として",
        "따라서",
        "정답은",
        "최종 답",
        "결론적으로",
        "종합하면",
    ];
    assert(str_views(r@) =~= conclusion_phrases());
    r
}

/// Markers of a formatted or delimited answer.
pub open spec fn delimiter_phrases() -> Seq<Seq<char>> {
    seq![
        "answer:"@,
        "solution:"@,
        "result:"@,
        "output:"@,
        "answer ="@,
        "\\boxed{"@,
        "```"@,
        "答案:"@,
        "答案："@,
        "结论:"@,
        "结论："@,
        "答え:"@,
        "答え："@,
        "정답:"@,
        "정답："@,
    ]
}

/// The delimiter phrases as string slices.
pub fn delimiter_phrase_list() -> (r: Vec<&'static str>)
    ensures
        str_views(r@) == delimiter_phrases(),
{
    let r = vec![
        "answer:",
        "solution:",
        "result:",
        "output:",
        "answer =",
        "\\boxed{",
        "```",
        "答案:",
        "答案：",
        "结论:",
        "结论：",
        "答え:",
        "答え：",
        "정답:",
        "정답：",
    ];
    assert(str_views(r@) =~= delimiter_phrases());
    r
}

/// Phrases of unresolved uncertainty; a trace that ends on one has diverged.
pub open spec fn uncertainty_phrases() -> Seq<Seq<char>> {
    seq![
        "i'm not sure"@,
        "i am not sure"@,
        "let me try another"@,
        "let me reconsider"@,
        "wait, maybe"@,
        "hmm, actually"@,
        "this doesn't seem right"@,
        "that can't be right"@,
        "i need to rethink"@,
        "let me start over"@,
        "back to square one"@,
        "i'm confused"@,
        "不确定"@,
        "让我重新考虑"@,
        "ちょっと分からない"@,
        "잘 모르겠"@,
    ]
}

/// The uncertainty phrases as string slices.
pub fn uncertainty_phrase_list() -> (r: Vec<&'static str>)
    ensures
        str_views(r@) == uncertainty_phrases(),
{
    let r = vec![
        "i'm not sure",
        "i am not sure",
        "let me try another",
        "let me reconsider",
        "wait, maybe",
        "hmm, actually",
        "this doesn't seem right",
        "that can't be right",
        "i need to rethink",
        "let me start over",
        "back to square one",
        "i'm confused",
        "不确定",
        "让我重新考虑",
        "ちょっと分からない",
        "잘 모르겠",
    ];
    assert(str_views(r@) =~= uncertainty_phrases());
    r
}

/// Name for `char::is_numeric`: whether `c` has a Unicode general category
/// for numbers (Nd, Nl or No).
pub uninterp spec fn numeric_char(c: char) -> bool;

/// `char::is_numeric`. Its documentation gives the Unicode number categories
/// and shows the ASCII digits among them, which is all this states beyond the
/// name.
#[verifier::external_body]
fn char_is_numeric(c: char) -> (r: bool)
    ensures
        r == numeric_char(c),
        ('0' <= c && c <= '9') ==> r,
{
    c.is_numeric()
}

/// Bytes of the tail window for a lowered text of `len` bytes: the whole of a
/// short text (under 200 bytes), 55% below 800, 40% below 2000, else 30%.
pub open spec fn tail_window(len: int) -> int {
    if len < 200 {
        len
    } else if len < 800 {
        len * 55 / 100
    } else if len < 2000 {
        len * 40 / 100
    } else {
        len * 30 / 100
    }
}

/// Bytes of the final window: the whole of a short text, else the last 12%.
pub open spec fn final_window(len: int) -> int {
    if len < 200 {
        len
    } else {
        len * 12 / 100
    }
}

/// What follows the char boundary at or before byte `len - window` of `lower`.
pub open spec fn suffix_window(lower: Seq<char>, window: int) -> Seq<char> {
    let len = encode_utf8(lower).len() as int;
    lower.subrange(char_floor(lower, len - window), lower.len() as int)
}

pub open spec fn tail_of(lower: Seq<char>) -> Seq<char> {
    suffix_window(lower, tail_window(encode_utf8(lower).len() as int))
}

pub open spec fn final_of(lower: Seq<char>) -> Seq<char> {
    suffix_window(lower, final_window(encode_utf8(lower).len() as int))
}

pub open spec fn is_declarative_end(c: char) -> bool {
    c == '.' || c == '!' || c == '\u{3002}' || c == '\u{FF01}'
}

pub open spec fn is_question_end(c: char) -> bool {
    c == '?' || c == '\u{FF1F}'
}

/// The final window, with trailing whitespace removed, ends in `.`, `!` or
/// their full-width forms, and not in a question mark.
pub open spec fn ends_assertively(fin: Seq<char>) -> bool {
    let t = trim_end_seq(fin);
    t.len() > 0 && is_declarative_end(t.last()) && !is_question_end(t.last())
}

/// Points for `n` distinct conclusion phrases: 0, 15, 22, then 25.
pub open spec fn phrase_points(n: nat) -> u32 {
    if n == 0 {
        0
    } else if n == 1 {
        15
    } else if n == 2 {
        22
    } else {
        25
    }
}

/// Convergence (at most 35): conclusion phrases in the tail plus 10 for an
/// assertive ending.
pub open spec fn convergence_points(tail: Seq<char>, fin: Seq<char>) -> u32 {
    let p = phrase_points(
        phrases_present(tail, conclusion_phrases(), conclusion_phrases().len() as int),
    );
    let b: u32 = if ends_assertively(fin) {
        10
    } else {
        0
    };
    if p + b > 35 {
        35
    } else {
        (p + b) as u32
    }
}

/// Symbols that may stand beside digits in a short numeric answer.
pub open spec fn is_numeric_symbol(c: char) -> bool {
    c == '.' || c == '-' || c == '+' || c == '/' || c == '=' || c == '%' || c == '\u{B1}' || c
        == '\u{D7}' || c == '\u{2212}' || c == '\u{F7}'
}

/// The first 60 characters of the lowercased answer.
pub open spec fn answer_snippet(answer: Seq<char>) -> Seq<char> {
    let l = lowercase(answer);
    if l.len() <= 60 {
        l
    } else {
        l.take(60)
    }
}

/// One or two characters, at least one numeric, all numeric or numeric symbols.
pub open spec fn short_numeric(s: Seq<char>) -> bool {
    &&& 1 <= s.len() <= 2
    &&& exists|i: int| 0 <= i < s.len() && numeric_char(#[trigger] s[i])
    &&& forall|i: int|
        0 <= i < s.len() ==> numeric_char(#[trigger] s[i]) || is_numeric_symbol(s[i])
}

pub open spec fn all_ascii(s: Seq<char>) -> bool {
    forall|i: int| 0 <= i < s.len() ==> (#[trigger] s[i] as u32) < 128
}

/// Answers that can be looked for in the trace: three characters or more, a
/// short numeric answer, or a single non-ASCII character.
pub open spec fn can_match(s: Seq<char>) -> bool {
    s.len() >= 3 || short_numeric(s) || (s.len() == 1 && !all_ascii(s))
}

pub open spec fn echo_points(tail: Seq<char>, snippet: Seq<char>) -> u32 {
    if snippet.len() > 0 && can_match(snippet) && contains_seq(tail, snippet) {
        25
    } else {
        0
    }
}

pub open spec fn delimiter_points(tail: Seq<char>) -> u32 {
    if any_phrase(tail, delimiter_phrases()) {
        20
    } else {
        0
    }
}

pub open spec fn anti_divergence_points(fin: Seq<char>) -> u32 {
    if any_phrase(fin, uncertainty_phrases()) {
        0
    } else {
        20
    }
}

/// The four alignment signals of a trace, in points.
pub struct AlignmentSignals {
    pub convergence: u32,
    pub answer_echo: u32,
    pub delimiters: u32,
    pub anti_divergence: u32,
}

/// The alignment signals of a thinking text against its final answer.
pub open spec fn alignment_of(thinking: Seq<char>, answer: Seq<char>) -> AlignmentSignals {
    let lower = lowercase(thinking);
    let tail = tail_of(lower);
    let fin = final_of(lower);
    AlignmentSignals {
        convergence: convergence_points(tail, fin),
        answer_echo: echo_points(tail, answer_snippet(answer)),
        delimiters: delimiter_points(tail),
        anti_divergence: anti_divergence_points(fin),
    }
}

/// The alignment score: the four signals added, at most 100.
pub open spec fn alignment_total(s: AlignmentSignals) -> u32 {
    let t = s.convergence + s.answer_echo + s.delimiters + s.anti_divergence;
    if t > 100 {
        100
    } else {
        t as u32
    }
}

impl AlignmentSignals {
    pub fn score(&self) -> (r: u32)
        ensures
            r == alignment_total(*self),
    {
        let t: u64 = self.convergence as u64 + self.answer_echo as u64 + self.delimiters as u64
            + self.anti_divergence as u64;
        if t > 100 {
            100
        } else {
            t as u32
        }
    }

    /// Whether the trace lands on its answer: a score of 50 or more.
    pub fn answer_in_trace_end(&self) -> (r: bool)
        ensures
            r == (alignment_total(*self) >= 50),
    {
        self.score() >= 50
    }
}

/// `suffix_window` of `lower`, given its byte length and offsets table.
fn window_chars(lower: &Vec<char>, offsets: &Vec<usize>, len: usize, window: usize) -> (r: Vec<
    char,
>)
    requires
        offsets@.len() == lower@.len() + 1,
        forall|j: int| 0 <= j <= lower@.len() ==> offsets@[j] == crate::text::byte_offset(lower@, j),
        len == encode_utf8(lower@).len(),
        window <= len,
    ensures
        r@ == suffix_window(lower@, window as int),
{
    let start = char_floor_index(lower, offsets, len - window);
    slice_chars(lower, start, lower.len())
}

fn is_short_numeric(s: &Vec<char>) -> (r: bool)
    ensures
        r == short_numeric(s@),
{
    if s.len() < 1 || s.len() > 2 {
        return false;
    }
    let mut any = false;
    let mut all = true;
    let mut i: usize = 0;
    while i < s.len()
        invariant
            i <= s@.len(),
            any == exists|k: int| 0 <= k < i && numeric_char(#[trigger] s@[k]),
            all == forall|k: int|
                0 <= k < i ==> numeric_char(#[trigger] s@[k]) || is_numeric_symbol(s@[k]),
        decreases s@.len() - i,
    {
        let c = s[i];
        let num = char_is_numeric(c);
        let sym = c == '.' || c == '-' || c == '+' || c == '/' || c == '=' || c == '%' || c
            == '\u{B1}' || c == '\u{D7}' || c == '\u{2212}' || c == '\u{F7}';
        proof {
            if any {
                let w = choose|k: int| 0 <= k < i && numeric_char(#[trigger] s@[k]);
                assert(0 <= w < i + 1 && numeric_char(s@[w]));
            }
            if num {
                assert(numeric_char(s@[i as int]));
            }
        }
        any = any || num;
        all = all && (num || sym);
        i = i + 1;
    }
    any && all
}

fn all_ascii_chars(s: &Vec<char>) -> (r: bool)
    ensures
        r == all_ascii(s@),
{
    let mut i: usize = 0;
    while i < s.len()
        invariant
            i <= s@.len(),
            forall|k: int| 0 <= k < i ==> (#[trigger] s@[k] as u32) < 128,
        decreases s@.len() - i,
    {
        if (s[i] as u32) >= 128 {
            return false;
        }
        i = i + 1;
    }
    true
}

/// Measure how clearly `thinking` converges on `answer` (see `alignment_of`).
pub fn alignment_signals(thinking: &str, answer: &str) -> (r: AlignmentSignals)
    ensures
        r == alignment_of(thinking@, answer@),
{
    let lower_s = to_lowercase(thinking);
    let len = byte_len(lower_s.as_str());
    let lower = chars_of(lower_s.as_str());
    let offsets = prefix_byte_offsets(&lower);
    let tw = if len < 200 {
        len
    } else if len < 800 {
        mul_div(len, 55, 100)
    } else if len < 2000 {
        mul_div(len, 40, 100)
    } else {
        mul_div(len, 30, 100)
    };
    let fw = if len < 200 {
        len
    } else {
        mul_div(len, 12, 100)
    };
    let tail = window_chars(&lower, &offsets, len, tw);
    let fin = window_chars(&lower, &offsets, len, fw);

    let n = count_present(&tail, &conclusion_phrase_list());
    let p: u32 = if n == 0 {
        0
    } else if n == 1 {
        15
    } else if n == 2 {
        22
    } else {
        25
    };
    let e = trim_end_index(&fin, 0, fin.len());
    assert(fin@.subrange(0, fin@.len() as int) =~= fin@);
    let assertive = e > 0 && {
        let c = fin[e - 1];
        (c == '.' || c == '!' || c == '\u{3002}' || c == '\u{FF01}') && !(c == '?' || c
            == '\u{FF1F}')
    };
    let b: u32 = if assertive {
        10
    } else {
        0
    };
    let convergence = if p + b > 35 {
        35
    } else {
        p + b
    };

    let al = to_lowercase(answer);
    let ac = chars_of(al.as_str());
    let snippet = if ac.len() <= 60 {
        ac
    } else {
        let s = slice_chars(&ac, 0, 60);
        assert(s@ =~= ac@.take(60));
        s
    };
    let matchable = snippet.len() >= 3 || is_short_numeric(&snippet) || (snippet.len() == 1
        && !all_ascii_chars(&snippet));
    let answer_echo: u32 = if snippet.len() > 0 && matchable && contains_chars(&tail, &snippet) {
        25
    } else {
        0
    };
    let delimiters: u32 = if contains_any(&tail, &delimiter_phrase_list()) {
        20
    } else {
        0
    };
    let anti_divergence: u32 = if contains_any(&fin, &uncertainty_phrase_list()) {
        0
    } else {
        20
    };
    AlignmentSignals { convergence, answer_echo, delimiters, anti_divergence }
}


/// The four alignment signals never add up past 100, so the score is their
/// plain sum; at most 35 comes from convergence language.
pub proof fn alignment_score_is_sum(thinking: Seq<char>, answer: Seq<char>)
    ensures
        ({
            let s = alignment_of(thinking, answer);
            &&& s.convergence <= 35
            &&& alignment_total(s) == s.convergence + s.answer_echo + s.delimiters
                + s.anti_divergence
        }),
{
}

/// The answer is echoed exactly when (the first 60 characters of) the
/// lowercased answer appear in the lowercased tail window of the trace and
/// it is long enough to be looked for: any answer of three or more
/// characters found there earns the 25 points, and an answer not found
/// there earns none.
pub proof fn found_answers_are_echoed(thinking: Seq<char>, answer: Seq<char>)
    ensures
        ({
            let l = lowercase(answer);
            let snippet = if l.len() <= 60 {
                l
            } else {
                l.take(60)
            };
            let tail = tail_of(lowercase(thinking));
            let echo = alignment_of(thinking, answer).answer_echo;
            &&& (snippet.len() >= 3 && contains_seq(tail, snippet) ==> echo == 25)
            &&& (!contains_seq(tail, snippet) || snippet.len() == 0 ==> echo == 0)
            &&& (echo == 0 || echo == 25)
        }),
{
}

} // verus!
