//! Language consistency: the thinking (code blocks removed) is cut into
//! chunks, each chunk's language is detected, and chunks that disagree with
//! the dominant language lower the score.

use vstd::prelude::*;

use crate::text::{
    chars_of, is_space, push_char, slice_chars, string_from_chars, trim_start_index,
    trim_start_seq,
};
use crate::bench::leaderboard::spells;
use crate::trace::{token_estimate, token_estimate_chars};

verus! {

/// The languages the detector tells apart.
#[derive(Debug, Clone, Copy, PartialEq, Eq, Structural)]
pub enum Language {
    Ara,
    Cmn,
    Deu,
    Eng,
    Fra,
    Hin,
    Ita,
    Jpn,
    Kor,
    Nld,
    Por,
    Rus,
    Spa,
    Swe,
    Tur,
    Vie,
}

pub open spec fn language_name(l: Language) -> Seq<char> {
    match l {
        Language::Ara => "Ara"@,
        Language::Cmn => "Cmn"@,
        Language::Deu => "Deu"@,
        Language::Eng => "Eng"@,
        Language::Fra => "Fra"@,
        Language::Hin => "Hin"@,
        Language::Ita => "Ita"@,
        Language::Jpn => "Jpn"@,
        Language::Kor => "Kor"@,
        Language::Nld => "Nld"@,
        Language::Por => "Por"@,
        Language::Rus => "Rus"@,
        Language::Spa => "Spa"@,
        Language::Swe => "Swe"@,
        Language::Tur => "Tur"@,
        Language::Vie => "Vie"@,
    }
}

impl Language {
    /// The language's name as the detector's `Debug` output spells it.
    pub fn name(&self) -> (r: &'static str)
        ensures
            r@ == language_name(*self),
    {
        match self {
            Language::Ara => "Ara",
            Language::Cmn => "Cmn",
            Language::Deu => "Deu",
            Language::Eng => "Eng",
            Language::Fra => "Fra",
            Language::Hin => "Hin",
            Language::Ita => "Ita",
            Language::Jpn => "Jpn",
            Language::Kor => "Kor",
            Language::Nld => "Nld",
            Language::Por => "Por",
            Language::Rus => "Rus",
            Language::Spa => "Spa",
            Language::Swe => "Swe",
            Language::Tur => "Tur",
            Language::Vie => "Vie",
        }
    }
}

/// Name for what `whichlang::detect_language` returns for a text: the
/// language whose linear model over the text's character n-grams scores
/// highest.
pub uninterp spec fn detected_language(text: Seq<char>) -> Language;

/// The detector's three-letter code of a language.
pub open spec fn language_code(l: Language) -> Seq<char> {
    match l {
        Language::Ara => "ara"@,
        Language::Cmn => "cmn"@,
        Language::Deu => "deu"@,
        Language::Eng => "eng"@,
        Language::Fra => "fra"@,
        Language::Hin => "hin"@,
        Language::Ita => "ita"@,
        Language::Jpn => "jpn"@,
        Language::Kor => "kor"@,
        Language::Nld => "nld"@,
        Language::Por => "por"@,
        Language::Rus => "rus"@,
        Language::Spa => "spa"@,
        Language::Swe => "swe"@,
        Language::Tur => "tur"@,
        Language::Vie => "vie"@,
    }
}

/// `whichlang::detect_language`, reported by `Lang::three_letter_code`. The
/// result depends on the text alone (fixed weights, no state), which is all
/// that is claimed of it besides the code naming one of the sixteen languages.
#[verifier::external_body]
fn detect_language_code(text: &str) -> (r: &'static str)
    ensures
        r@ == language_code(detected_language(text@)),
{
    whichlang::detect_language(text).three_letter_code()
}

/// The language a three-letter code names.
pub open spec fn code_language(code: Seq<char>) -> Option<Language> {
    if code == "ara"@ {
        Some(Language::Ara)
    } else if code == "cmn"@ {
        Some(Language::Cmn)
    } else if code == "deu"@ {
        Some(Language::Deu)
    } else if code == "eng"@ {
        Some(Language::Eng)
    } else if code == "fra"@ {
        Some(Language::Fra)
    } else if code == "hin"@ {
        Some(Language::Hin)
    } else if code == "ita"@ {
        Some(Language::Ita)
    } else if code == "jpn"@ {
        Some(Language::Jpn)
    } else if code == "kor"@ {
        Some(Language::Kor)
    } else if code == "nld"@ {
        Some(Language::Nld)
    } else if code == "por"@ {
        Some(Language::Por)
    } else if code == "rus"@ {
        Some(Language::Rus)
    } else if code == "spa"@ {
        Some(Language::Spa)
    } else if code == "swe"@ {
        Some(Language::Swe)
    } else if code == "tur"@ {
        Some(Language::Tur)
    } else if code == "vie"@ {
        Some(Language::Vie)
    } else {
        None
    }
}

proof fn lemma_code_language(l: Language)
    ensures
        code_language(language_code(l)) == Some(l),
{
    reveal_strlit("ara");
    reveal_strlit("cmn");
    reveal_strlit("deu");
    reveal_strlit("eng");
    reveal_strlit("fra");
    reveal_strlit("hin");
    reveal_strlit("ita");
    reveal_strlit("jpn");
    reveal_strlit("kor");
    reveal_strlit("nld");
    reveal_strlit("por");
    reveal_strlit("rus");
    reveal_strlit("spa");
    reveal_strlit("swe");
    reveal_strlit("tur");
    reveal_strlit("vie");
    let c = language_code(l);
    assert(c.len() == 3);
    assert(c == "ara"@ ==> c[0] == 'a' && c[1] == 'r' && c[2] == 'a');
    assert(c == "cmn"@ ==> c[0] == 'c' && c[1] == 'm' && c[2] == 'n');
    assert(c == "deu"@ ==> c[0] == 'd' && c[1] == 'e' && c[2] == 'u');
    assert(c == "eng"@ ==> c[0] == 'e' && c[1] == 'n' && c[2] == 'g');
    assert(c == "fra"@ ==> c[0] == 'f' && c[1] == 'r' && c[2] == 'a');
    assert(c == "hin"@ ==> c[0] == 'h' && c[1] == 'i' && c[2] == 'n');
    assert(c == "ita"@ ==> c[0] == 'i' && c[1] == 't' && c[2] == 'a');
    assert(c == "jpn"@ ==> c[0] == 'j' && c[1] == 'p' && c[2] == 'n');
    assert(c == "kor"@ ==> c[0] == 'k' && c[1] == 'o' && c[2] == 'r');
    assert(c == "nld"@ ==> c[0] == 'n' && c[1] == 'l' && c[2] == 'd');
    assert(c == "por"@ ==> c[0] == 'p' && c[1] == 'o' && c[2] == 'r');
    assert(c == "rus"@ ==> c[0] == 'r' && c[1] == 'u' && c[2] == 's');
    assert(c == "spa"@ ==> c[0] == 's' && c[1] == 'p' && c[2] == 'a');
    assert(c == "swe"@ ==> c[0] == 's' && c[1] == 'w' && c[2] == 'e');
    assert(c == "tur"@ ==> c[0] == 't' && c[1] == 'u' && c[2] == 'r');
    assert(c == "vie"@ ==> c[0] == 'v' && c[1] == 'i' && c[2] == 'e');
}

fn language_from_code(code: &str) -> (r: Option<Language>)
    ensures
        r == code_language(code@),
{
    let cs = chars_of(code);
    if spells(&cs, "ara") {
        Some(Language::Ara)
    } else if spells(&cs, "cmn") {
        Some(Language::Cmn)
    } else if spells(&cs, "deu") {
        Some(Language::Deu)
    } else if spells(&cs, "eng") {
        Some(Language::Eng)
    } else if spells(&cs, "fra") {
        Some(Language::Fra)
    } else if spells(&cs, "hin") {
        Some(Language::Hin)
    } else if spells(&cs, "ita") {
        Some(Language::Ita)
    } else if spells(&cs, "jpn") {
        Some(Language::Jpn)
    } else if spells(&cs, "kor") {
        Some(Language::Kor)
    } else if spells(&cs, "nld") {
        Some(Language::Nld)
    } else if spells(&cs, "por") {
        Some(Language::Por)
    } else if spells(&cs, "rus") {
        Some(Language::Rus)
    } else if spells(&cs, "spa") {
        Some(Language::Spa)
    } else if spells(&cs, "swe") {
        Some(Language::Swe)
    } else if spells(&cs, "tur") {
        Some(Language::Tur)
    } else if spells(&cs, "vie") {
        Some(Language::Vie)
    } else {
        None
    }
}

/// A line as `str::lines` yields it: without its `\n`, and without a `\r`
/// just before that `\n`.
pub open spec fn strip_cr(line: Seq<char>) -> Seq<char> {
    if line.len() > 0 && line.last() == '\r' {
        line.drop_last()
    } else {
        line
    }
}

/// The lines of `t[start..]`, scanning from `i`: each `\n` ends a line, and
/// what follows the last `\n` is a line only when it is not empty.
pub open spec fn lines_from(t: Seq<char>, start: int, i: int) -> Seq<Seq<char>>
    decreases t.len() - i,
{
    if i >= t.len() {
        if start < t.len() {
            seq![t.subrange(start, t.len() as int)]
        } else {
            seq![]
        }
    } else if t[i] == '\n' {
        seq![strip_cr(t.subrange(start, i))] + lines_from(t, i + 1, i + 1)
    } else {
        lines_from(t, start, i + 1)
    }
}

/// What `str::lines` yields for `t`.
pub open spec fn lines_of(t: Seq<char>) -> Seq<Seq<char>> {
    lines_from(t, 0, 0)
}

/// A code fence: a line whose first non-space characters are three backticks.
pub open spec fn is_fence(line: Seq<char>) -> bool {
    let s = trim_start_seq(line);
    s.len() >= 3 && s[0] == '`' && s[1] == '`' && s[2] == '`'
}

/// Lines `i..` of `ls`, each followed by `\n`, leaving out fences and the
/// lines between an opening fence and its closing one.
pub open spec fn kept_lines(ls: Seq<Seq<char>>, i: int, in_code: bool) -> Seq<char>
    decreases ls.len() - i,
{
    if i < 0 || i >= ls.len() {
        seq![]
    } else if is_fence(ls[i]) {
        kept_lines(ls, i + 1, !in_code)
    } else if in_code {
        kept_lines(ls, i + 1, in_code)
    } else {
        ls[i].push('\n') + kept_lines(ls, i + 1, in_code)
    }
}

/// `t` without its fenced code blocks, line by line.
pub open spec fn without_code(t: Seq<char>) -> Seq<char> {
    kept_lines(lines_of(t), 0, false)
}

/// The lines of `cs` (see `lines_of`).
pub(crate) fn split_lines(cs: &Vec<char>) -> (r: Vec<Vec<char>>)
    ensures
        crate::text::key_views(r@) == lines_of(cs@),
{
    let n = cs.len();
    let mut out: Vec<Vec<char>> = Vec::new();
    let mut start: usize = 0;
    let mut i: usize = 0;
    while i < n
        invariant
            start <= i <= n,
            n == cs@.len(),
            crate::text::key_views(out@) + lines_from(cs@, start as int, i as int) == lines_of(
                cs@,
            ),
        decreases n - i,
    {
        if cs[i] == '\n' {
            let end = if i > start && cs[i - 1] == '\r' {
                i - 1
            } else {
                i
            };
            let line = slice_chars(cs, start, end);
            proof {
                let raw = cs@.subrange(start as int, i as int);
                if i > start && cs@[i - 1] == '\r' {
                    assert(raw.last() == '\r');
                    assert(raw.drop_last() =~= line@);
                } else {
                    assert(raw =~= line@);
                }
            }
            let ghost before = out@;
            out.push(line);
            assert(crate::text::key_views(out@) =~= crate::text::key_views(before).push(line@));
            assert(crate::text::key_views(out@) + lines_from(cs@, i + 1, i + 1) =~= crate::text::key_views(before)
                + lines_from(cs@, start as int, i as int));
            start = i + 1;
        }
        i = i + 1;
    }
    if start < n {
        let line = slice_chars(cs, start, n);
        let ghost before = out@;
        out.push(line);
        assert(crate::text::key_views(out@) =~= crate::text::key_views(before) + lines_from(cs@, start as int, i as int));
    } else {
        assert(crate::text::key_views(out@) + lines_from(cs@, start as int, i as int) =~= crate::text::key_views(out@));
    }
    out
}

fn fence_line(line: &Vec<char>) -> (r: bool)
    ensures
        r == is_fence(line@),
{
    let lo = trim_start_index(line, 0);
    assert(line@.subrange(0, line@.len() as int) =~= line@);
    let n = line.len();
    if n - lo < 3 {
        return false;
    }
    assert(trim_start_seq(line@)[0] == line@[lo as int]);
    assert(trim_start_seq(line@)[1] == line@[lo + 1]);
    assert(trim_start_seq(line@)[2] == line@[lo + 2]);
    line[lo] == '`' && line[lo + 1] == '`' && line[lo + 2] == '`'
}

/// Remove fenced code blocks (see `without_code`).
pub fn strip_code_blocks(text: &str) -> (r: String)
    ensures
        r@ == without_code(text@),
{
    let cs = chars_of(text);
    let lines = split_lines(&cs);
    let ghost ls = lines_of(text@);
    let mut out = String::new();
    let mut in_code = false;
    let mut i: usize = 0;
    while i < lines.len()
        invariant
            i <= lines@.len(),
            ls == crate::text::key_views(lines@),
            out@ + kept_lines(ls, i as int, in_code) == without_code(text@),
        decreases lines@.len() - i,
    {
        let line = &lines[i];
        assert(ls[i as int] == line@);
        if fence_line(line) {
            in_code = !in_code;
        } else if !in_code {
            let ghost before = out@;
            let mut j: usize = 0;
            while j < line.len()
                invariant
                    j <= line@.len(),
                    out@ == before + line@.take(j as int),
                decreases line@.len() - j,
            {
                push_char(&mut out, line[j]);
                assert(line@.take(j + 1) =~= line@.take(j as int).push(line@[j as int]));
                j = j + 1;
            }
            push_char(&mut out, '\n');
            assert(line@.take(line@.len() as int) =~= line@);
            assert(out@ + kept_lines(ls, i + 1, in_code) =~= before + kept_lines(
                ls,
                i as int,
                in_code,
            ));
        }
        i = i + 1;
    }
    assert(out@ + kept_lines(ls, i as int, in_code) =~= out@);
    out
}

/// Bounds (in characters) of chunk `i` of `n` over `total` characters: equal
/// chunks of `total / n`, the last one running to the end.
pub open spec fn chunk_bounds(total: int, n: int, i: int) -> (int, int) {
    let size = total / n;
    let start = i * size;
    let end = if i + 1 == n {
        total
    } else if (i + 1) * size < total {
        (i + 1) * size
    } else {
        total
    };
    (start, end)
}

/// Detected languages of the first `k` of `n` chunks of `clean`, leaving out
/// chunks of fewer than `min_words` estimated tokens.
pub open spec fn chunk_languages(clean: Seq<char>, n: int, min_words: int, k: int) -> Seq<
    Language,
>
    decreases k,
{
    if k <= 0 {
        seq![]
    } else {
        let b = chunk_bounds(clean.len() as int, n, k - 1);
        let chunk = clean.subrange(b.0, b.1);
        let prev = chunk_languages(clean, n, min_words, k - 1);
        if token_estimate(chunk) >= min_words {
            prev.push(detected_language(chunk))
        } else {
            prev
        }
    }
}

/// Number of chunks detected as `l`.
pub open spec fn count_language(s: Seq<Language>, l: Language) -> nat
    decreases s.len(),
{
    if s.len() == 0 {
        0
    } else {
        count_language(s.drop_last(), l) + if s.last() == l {
            1nat
        } else {
            0nat
        }
    }
}

/// The most frequent language among `s[..k]` with its count; among equally
/// frequent languages, the one detected first.
pub open spec fn dominant_upto(s: Seq<Language>, k: int) -> (Option<Language>, nat)
    decreases k,
{
    if k <= 0 {
        (None, 0)
    } else {
        let prev = dominant_upto(s, k - 1);
        let c = count_language(s, s[k - 1]);
        if c > prev.1 {
            (Some(s[k - 1]), c)
        } else {
            prev
        }
    }
}

/// What the language-consistency dimension measures.
pub struct LanguageSignals {
    /// The code-free text has fewer than 100 characters.
    pub short: bool,
    /// Chunks with enough words to detect a language.
    pub valid_chunks: usize,
    /// The most frequent detected language and its count.
    pub dominant: Option<Language>,
    pub dominant_count: usize,
}

/// The chunk count and minimum words per chunk that a configuration yields:
/// both at least 1.
pub open spec fn chunking_of(num_chunks: usize, min_words: usize) -> (int, int) {
    (
        if num_chunks >= 1 {
            num_chunks as int
        } else {
            1
        },
        if min_words >= 1 {
            min_words as int
        } else {
            1
        },
    )
}

pub open spec fn language_holds(
    thinking: Seq<char>,
    num_chunks: usize,
    min_words: usize,
    r: LanguageSignals,
) -> bool {
    let clean = without_code(thinking);
    let total = clean.len() as int;
    let cfg = chunking_of(num_chunks, min_words);
    let n = if cfg.0 < total {
        cfg.0
    } else {
        total
    };
    let langs = chunk_languages(clean, n, cfg.1, n);
    let dom = dominant_upto(langs, langs.len() as int);
    &&& r.short == (total < 100)
    &&& r.short ==> r.valid_chunks == 0 && r.dominant is None && r.dominant_count == 0
    &&& !r.short ==> {
        &&& r.valid_chunks == langs.len()
        &&& r.dominant == dom.0
        &&& r.dominant_count == dom.1
    }
}

/// Chunks that disagree with the dominant language.
pub open spec fn inconsistent_chunks(r: LanguageSignals) -> int {
    r.valid_chunks - r.dominant_count
}

/// 100 when at most one chunk disagrees (or nothing could be measured),
/// then 15 less per further disagreeing chunk, down to 0.
pub open spec fn language_score_of(r: LanguageSignals) -> u32 {
    let inc = inconsistent_chunks(r);
    if r.short || r.valid_chunks == 0 || inc <= 1 {
        100
    } else if (inc - 1) * 15 >= 100 {
        0
    } else {
        (100 - (inc - 1) * 15) as u32
    }
}

proof fn lemma_count_language_bounded(s: Seq<Language>, l: Language)
    ensures
        count_language(s, l) <= s.len(),
    decreases s.len(),
{
    if s.len() > 0 {
        lemma_count_language_bounded(s.drop_last(), l);
    }
}

proof fn lemma_dominant_bounded(s: Seq<Language>, k: int)
    requires
        0 <= k <= s.len(),
    ensures
        dominant_upto(s, k).1 <= s.len(),
    decreases k,
{
    if k > 0 {
        lemma_dominant_bounded(s, k - 1);
        lemma_count_language_bounded(s, s[k - 1]);
    }
}

proof fn lemma_count_language_witness(s: Seq<Language>, l: Language)
    requires
        count_language(s, l) > 0,
    ensures
        exists|j: int| 0 <= j < s.len() && s[j] == l,
    decreases s.len(),
{
    if s.last() != l {
        lemma_count_language_witness(s.drop_last(), l);
        let j = choose|j: int| 0 <= j < s.drop_last().len() && s.drop_last()[j] == l;
        assert(s[j] == l);
    }
}

proof fn lemma_count_language_present(s: Seq<Language>, j: int)
    requires
        0 <= j < s.len(),
    ensures
        count_language(s, s[j]) >= 1,
    decreases s.len(),
{
    if j < s.len() - 1 {
        lemma_count_language_present(s.drop_last(), j);
        assert(s.drop_last()[j] == s[j]);
    }
}

proof fn lemma_dominant_upto_max(s: Seq<Language>, k: int)
    requires
        0 <= k <= s.len(),
    ensures
        forall|j: int| 0 <= j < k ==> count_language(s, #[trigger] s[j]) <= dominant_upto(s, k).1,
        k == 0 ==> dominant_upto(s, k) == (None::<Language>, 0nat),
        k > 0 ==> dominant_upto(s, k).0 is Some && count_language(s, dominant_upto(s, k).0->0)
            == dominant_upto(s, k).1,
    decreases k,
{
    if k > 0 {
        lemma_dominant_upto_max(s, k - 1);
        lemma_count_language_present(s, k - 1);
    }
}

/// The dominant language is the most frequent one: no language is detected
/// in more chunks than the dominant count, and when any chunk was detected
/// the dominant language is detected in exactly that many.
pub proof fn dominant_is_most_frequent(langs: Seq<Language>, l: Language)
    ensures
        count_language(langs, l) <= dominant_upto(langs, langs.len() as int).1,
        langs.len() > 0 ==> ({
            let dom = dominant_upto(langs, langs.len() as int);
            dom.0 is Some && count_language(langs, dom.0->0) == dom.1
        }),
        langs.len() == 0 ==> dominant_upto(langs, 0) == (None::<Language>, 0nat),
{
    lemma_dominant_upto_max(langs, langs.len() as int);
    if count_language(langs, l) > 0 {
        lemma_count_language_witness(langs, l);
        let j = choose|j: int| 0 <= j < langs.len() && langs[j] == l;
        assert(count_language(langs, langs[j]) <= dominant_upto(langs, langs.len() as int).1);
    }
}

fn count_language_exec(s: &Vec<Language>, l: Language) -> (r: usize)
    ensures
        r == count_language(s@, l),
{
    let mut n: usize = 0;
    let mut i: usize = 0;
    while i < s.len()
        invariant
            i <= s@.len(),
            n <= i,
            n == count_language(s@.take(i as int), l),
        decreases s@.len() - i,
    {
        assert(s@.take(i + 1).drop_last() =~= s@.take(i as int));
        if s[i] == l {
            n = n + 1;
        }
        i = i + 1;
    }
    assert(s@.take(s@.len() as int) =~= s@);
    n
}

proof fn lemma_chunk_fits(total: int, n: int, i: int)
    requires
        1 <= n,
        0 <= i < n,
        0 <= total,
    ensures
        0 <= i * (total / n) <= (i + 1) * (total / n) <= total,
{
    assert(0 <= total / n) by (nonlinear_arith)
        requires
            1 <= n,
            0 <= total,
    ;
    assert(n * (total / n) <= total) by (nonlinear_arith)
        requires
            1 <= n,
            0 <= total,
    ;
    assert((i + 1) * (total / n) <= n * (total / n)) by (nonlinear_arith)
        requires
            i + 1 <= n,
            0 <= total / n,
    ;
    assert(0 <= i * (total / n) <= (i + 1) * (total / n)) by (nonlinear_arith)
        requires
            0 <= i,
            0 <= total / n,
    ;
}

/// Measure language consistency of `thinking` with the given chunking
/// configuration (see `language_holds`).
pub fn language_signals(thinking: &str, num_chunks: usize, min_words_per_chunk: usize) -> (r:
    LanguageSignals)
    ensures
        language_holds(thinking@, num_chunks, min_words_per_chunk, r),
        r.dominant_count <= r.valid_chunks,
{
    let clean_s = strip_code_blocks(thinking);
    let clean = chars_of(clean_s.as_str());
    let total = clean.len();
    if total < 100 {
        return LanguageSignals { short: true, valid_chunks: 0, dominant: None, dominant_count: 0 };
    }
    let cfg_chunks = if num_chunks >= 1 {
        num_chunks
    } else {
        1
    };
    let min_words = if min_words_per_chunk >= 1 {
        min_words_per_chunk
    } else {
        1
    };
    let n = if cfg_chunks < total {
        cfg_chunks
    } else {
        total
    };
    let size = total / n;
    let mut langs: Vec<Language> = Vec::new();
    let mut i: usize = 0;
    while i < n
        invariant
            i <= n,
            1 <= n <= total,
            total == clean@.len(),
            size == total / n,
            min_words >= 1,
            langs@ == chunk_languages(clean@, n as int, min_words as int, i as int),
        decreases n - i,
    {
        proof {
            lemma_chunk_fits(total as int, n as int, i as int);
        }
        let start = i * size;
        let end = if i + 1 == n {
            total
        } else if (i + 1) * size < total {
            (i + 1) * size
        } else {
            total
        };
        let chunk = slice_chars(&clean, start, end);
        if token_estimate_chars(&chunk) >= min_words {
            let s = string_from_chars(chunk.as_slice());
            let code = detect_language_code(s.as_str());
            proof {
                lemma_code_language(detected_language(s@));
            }
            match language_from_code(code) {
                Some(lang) => langs.push(lang),
                None => {},
            }
        }
        i = i + 1;
    }
    let ghost ls = langs@;
    let mut best: Option<Language> = None;
    let mut best_count: usize = 0;
    let mut k: usize = 0;
    while k < langs.len()
        invariant
            k <= langs@.len(),
            ls == langs@,
            (best, best_count as nat) == dominant_upto(ls, k as int),
        decreases langs@.len() - k,
    {
        let c = count_language_exec(&langs, langs[k]);
        if c > best_count {
            best = Some(langs[k]);
            best_count = c;
        }
        k = k + 1;
    }
    proof {
        lemma_dominant_bounded(ls, ls.len() as int);
    }
    LanguageSignals { short: false, valid_chunks: langs.len(), dominant: best, dominant_count: best_count }
}

impl LanguageSignals {
    /// Chunks that disagree with the dominant language.
    pub fn inconsistent(&self) -> (r: usize)
        requires
            self.dominant_count <= self.valid_chunks,
        ensures
            r == inconsistent_chunks(*self),
    {
        self.valid_chunks - self.dominant_count
    }

    /// More than one chunk disagrees with the dominant language.
    pub fn is_mixed(&self) -> (r: bool)
        requires
            self.dominant_count <= self.valid_chunks,
        ensures
            r == (!self.short && self.valid_chunks > 0 && inconsistent_chunks(*self) > 1),
    {
        !self.short && self.valid_chunks > 0 && self.valid_chunks - self.dominant_count > 1
    }

    /// The language-consistency score (see `language_score_of`).
    pub fn score(&self) -> (r: u32)
        requires
            self.dominant_count <= self.valid_chunks,
        ensures
            r == language_score_of(*self),
    {
        if self.short || self.valid_chunks == 0 {
            return 100;
        }
        let inc = self.valid_chunks - self.dominant_count;
        if inc <= 1 {
            100
        } else if inc - 1 >= 7 {
            0
        } else {
            (100 - (inc - 1) * 15) as u32
        }
    }
}

} // verus!
