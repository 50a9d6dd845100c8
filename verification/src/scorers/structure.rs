//! Structural clarity: step markers, logical connectors, transitions and
//! paragraph breaks. The counts are exact; weighing them against the trace
//! length is left to the caller.

use vstd::prelude::*;

use crate::text::{
    capped, chars_of, count_in, count_matches, count_phrases, lowercase, str_views,
    to_lowercase, total_hits,
};
use crate::trace::{token_estimate, token_estimate_chars};

verus! {

/// Formal step markers, the strongest structural signal.
pub open spec fn strong_markers() -> Seq<Seq<char>> {
    seq![
        "step 1"@,
        "step 2"@,
        "step 3"@,
        "step 4"@,
        "step 5"@,
        "first,"@,
        "second,"@,
        "third,"@,
        "finally,"@,
        "1. "@,
        "2. "@,
        "3. "@,
        "4. "@,
        "5. "@,
        "1) "@,
        "2) "@,
        "3) "@,
        "4) "@,
    ]
}

/// The strong markers as string slices.
pub fn strong_marker_list() -> (r: Vec<&'static str>)
    ensures
        str_views(r@) == strong_markers(),
{
    let r = vec![
        "step 1",
        "step 2",
        "step 3",
        "step 4",
        "step 5",
        "first,",
        "second,",
        "third,",
        "finally,",
        "1. ",
        "2. ",
        "3. ",
        "4. ",
        "5. ",
        "1) ",
        "2) ",
        "3) ",
        "4) ",
    ];
    assert(str_views(r@) =~= strong_markers());
    r
}

/// Logical connectors that show reasoning flow between steps.
pub open spec fn medium_markers() -> Seq<Seq<char>> {
    seq![
        "therefore"@,
        "because"@,
        "thus"@,
        "since"@,
        "given that"@,
        "it follows"@,
        "we know that"@,
        "this means"@,
        "consequently"@,
        "as a result"@,
        "which implies"@,
        "from this"@,
        "building on"@,
    ]
}

/// The medium markers as string slices.
pub fn medium_marker_list() -> (r: Vec<&'static str>)
    ensures
        str_views(r@) == medium_markers(),
{
    let r = vec![
        "therefore",
        "because",
        "thus",
        "since",
        "given that",
        "it follows",
        "we know that",
        "this means",
        "consequently",
        "as a result",
        "which implies",
        "from this",
        "building on",
    ];
    assert(str_views(r@) =~= medium_markers());
    r
}

/// Transition markers and conversational metacognitive markers.
pub open spec fn weak_markers() -> Seq<Seq<char>> {
    seq![
        "then"@,
        "next"@,
        "so,"@,
        "also,"@,
        "now,"@,
        "finally"@,
        "let me think"@,
        "let me consider"@,
        "wait,"@,
        "okay,"@,
        "okay so"@,
        "hmm,"@,
        "oh,"@,
        "oh right"@,
        "actually,"@,
        "on the other hand"@,
        "alternatively,"@,
        "however,"@,
        "but wait"@,
        "so now"@,
        "moving on"@,
    ]
}

/// The weak markers as string slices.
pub fn weak_marker_list() -> (r: Vec<&'static str>)
    ensures
        str_views(r@) == weak_markers(),
{
    let r = vec![
        "then",
        "next",
        "so,",
        "also,",
        "now,",
        "finally",
        "let me think",
        "let me consider",
        "wait,",
        "okay,",
        "okay so",
        "hmm,",
        "oh,",
        "oh right",
        "actually,",
        "on the other hand",
        "alternatively,",
        "however,",
        "but wait",
        "so now",
        "moving on",
    ];
    assert(str_views(r@) =~= weak_markers());
    r
}

/// What the structural-clarity dimension counts in a trace.
pub struct StructureSignals {
    /// Estimated tokens of the trace.
    pub word_count: usize,
    /// Occurrences of strong, medium and weak markers in the lowered trace.
    pub strong: usize,
    pub medium: usize,
    pub weak: usize,
    /// Occurrences of a blank line (`"\n\n"`).
    pub double_breaks: usize,
    /// Newlines not part of a blank line: all newlines less two per blank
    /// line, at least 0.
    pub single_breaks: usize,
}

pub open spec fn structure_holds(thinking: Seq<char>, r: StructureSignals) -> bool {
    let lower = lowercase(thinking);
    let doubles = capped(count_matches(thinking, "\n\n"@));
    let newlines = capped(count_matches(thinking, "\n"@));
    &&& r.word_count == token_estimate(thinking)
    &&& r.strong == capped(total_hits(lower, strong_markers()))
    &&& r.medium == capped(total_hits(lower, medium_markers()))
    &&& r.weak == capped(total_hits(lower, weak_markers()))
    &&& r.double_breaks == doubles
    &&& r.single_breaks == if newlines >= 2 * doubles {
        newlines - 2 * doubles
    } else {
        0
    }
}

/// Count the structural signals of `thinking`.
pub fn structure_signals(thinking: &str) -> (r: StructureSignals)
    ensures
        structure_holds(thinking@, r),
{
    let cs = chars_of(thinking);
    let lower_s = to_lowercase(thinking);
    let lower = chars_of(lower_s.as_str());
    let word_count = token_estimate_chars(&cs);
    let strong = count_phrases(&lower, &strong_marker_list());
    let medium = count_phrases(&lower, &medium_marker_list());
    let weak = count_phrases(&lower, &weak_marker_list());
    let blank = chars_of("\n\n");
    let nl = chars_of("\n");
    let double_breaks = count_in(&cs, &blank);
    let newlines = count_in(&cs, &nl);
    let single_breaks = if double_breaks > newlines / 2 {
        0
    } else {
        newlines - 2 * double_breaks
    };
    StructureSignals { word_count, strong, medium, weak, double_breaks, single_breaks }
}

} // verus!
