//! Overthinking: how much thinking a problem warrants. The problem's size
//! and its math and code markers are counted here; turning them into an
//! expected length is left to the caller.

use vstd::prelude::*;

use crate::text::{
    capped, chars_of, count_phrases, lowercase, str_views, to_lowercase, total_hits,
};
use crate::trace::{token_estimate, token_estimate_chars};

verus! {

/// Math symbols, each counted wherever it occurs in the problem.
pub open spec fn math_symbols() -> Seq<Seq<char>> {
    seq![
        "\u{222B}"@,
        "\u{2211}"@,
        "\u{220F}"@,
        "\u{221A}"@,
        "\u{221E}"@,
        "\u{2264}"@,
        "\u{2265}"@,
        "\u{2260}"@,
    ]
}

/// The math symbols as one-character strings.
pub fn math_symbol_list() -> (r: Vec<&'static str>)
    ensures
        str_views(r@) == math_symbols(),
{
    let r = vec![
        "\u{222B}",
        "\u{2211}",
        "\u{220F}",
        "\u{221A}",
        "\u{221E}",
        "\u{2264}",
        "\u{2265}",
        "\u{2260}",
    ];
    assert(str_views(r@) =~= math_symbols());
    r
}

/// LaTeX math markers, counted in the lowered problem.
pub open spec fn math_keywords() -> Seq<Seq<char>> {
    seq![
        "\\frac"@,
        "\\int"@,
        "\\sum"@,
        "\\lim"@,
        "\\sqrt"@,
        "\\binom"@,
        "^{"@,
        "_{"@,
    ]
}

/// The math keywords as string slices.
pub fn math_keyword_list() -> (r: Vec<&'static str>)
    ensures
        str_views(r@) == math_keywords(),
{
    let r = vec![
        "\\frac",
        "\\int",
        "\\sum",
        "\\lim",
        "\\sqrt",
        "\\binom",
        "^{",
        "_{",
    ];
    assert(str_views(r@) =~= math_keywords());
    r
}

/// Code markers, counted in the lowered problem.
pub open spec fn code_keywords() -> Seq<Seq<char>> {
    seq![
        "def "@,
        "function "@,
        "class "@,
        "import "@,
        "fn "@,
        "#include"@,
        "void "@,
    ]
}

/// The code keywords as string slices.
pub fn code_keyword_list() -> (r: Vec<&'static str>)
    ensures
        str_views(r@) == code_keywords(),
{
    let r = vec![
        "def ",
        "function ",
        "class ",
        "import ",
        "fn ",
        "#include",
        "void ",
    ];
    assert(str_views(r@) =~= code_keywords());
    r
}

/// What the complexity estimate of a problem is made of.
pub struct ComplexitySignals {
    pub word_count: usize,
    pub math_count: usize,
    pub code_count: usize,
}

pub open spec fn complexity_holds(problem: Seq<char>, r: ComplexitySignals) -> bool {
    let lower = lowercase(problem);
    &&& r.word_count == token_estimate(problem)
    &&& r.math_count == capped(
        capped(total_hits(problem, math_symbols())) + capped(total_hits(lower, math_keywords())),
    )
    &&& r.code_count == capped(total_hits(lower, code_keywords()))
}

/// Count the complexity signals of a problem statement.
pub fn complexity_signals(problem: &str) -> (r: ComplexitySignals)
    ensures
        complexity_holds(problem@, r),
{
    let cs = chars_of(problem);
    let lower_s = to_lowercase(problem);
    let lower = chars_of(lower_s.as_str());
    let word_count = token_estimate_chars(&cs);
    let symbols = count_phrases(&cs, &math_symbol_list());
    let keywords = count_phrases(&lower, &math_keyword_list());
    let math_count = if symbols > usize::MAX - keywords {
        usize::MAX
    } else {
        symbols + keywords
    };
    let code_count = count_phrases(&lower, &code_keyword_list());
    ComplexitySignals { word_count, math_count, code_count }
}

} // verus!
