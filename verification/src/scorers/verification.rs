//! Self-verification phrases and the integer self-verification score.

use vstd::prelude::*;
use vstd::utf8::*;

use crate::text::{
    byte_len, capped, char_floor, char_floor_index, char_floor_monotone, chars_of,
    count_phrases, lowercase, mul_div, prefix_byte_offsets, slice_chars, str_views,
    to_lowercase, total_hits,
};

verus! {

/// Phrases of deliberate self-checking (English, then CJK).
pub open spec fn explicit_verification() -> Seq<Seq<char>> {
    seq![
        "let me verify"@,
        "let me check"@,
        "let me confirm"@,
        "let me double-check"@,
        "let me validate"@,
        "checking:"@,
        "to verify"@,
        "we can check"@,
        "substituting back"@,
        "plugging back in"@,
        "does this satisfy"@,
        "sanity check"@,
        "cross-checking"@,
        "let's verify"@,
        "let's check"@,
        "to confirm this"@,
        "we can verify"@,
        "i should check"@,
        "i should verify"@,
        "验证一下"@,
        "检查一下"@,
        "代回去"@,
        "重新检查"@,
        "確認すると"@,
        "検算"@,
        "代入して確かめる"@,
        "확인해보면"@,
        "검산"@,
        "대입해보면"@,
    ]
}

pub fn explicit_verification_phrases() -> (r: Vec<&'static str>)
    ensures
        str_views(r@) == explicit_verification(),
{
    let r = vec![
        "let me verify",
        "let me check",
        "let me confirm",
        "let me double-check",
        "let me validate",
        "checking:",
        "to verify",
        "we can check",
        "substituting back",
        "plugging back in",
        "does this satisfy",
        "sanity check",
        "cross-checking",
        "let's verify",
        "let's check",
        "to confirm this",
        "we can verify",
        "i should check",
        "i should verify",
        "验证一下",
        "检查一下",
        "代回去",
        "重新检查",
        "確認すると",
        "検算",
        "代入して確かめる",
        "확인해보면",
        "검산",
        "대입해보면",
    ];
    assert(str_views(r@) =~= explicit_verification());
    r
}

/// Phrases that show consistency checks without announcing a verification.
pub open spec fn implicit_verification() -> Seq<Seq<char>> {
    seq![
        "indeed"@,
        "as expected"@,
        "this confirms"@,
        "which confirms"@,
        "consistent with"@,
        "this is consistent"@,
        "this matches"@,
        "this aligns with"@,
        "this agrees with"@,
        "this supports"@,
        "as we expected"@,
        "which makes sense"@,
        "this makes sense"@,
        "that checks out"@,
        "everything fits"@,
        "fits together"@,
        "this explains"@,
        "which explains"@,
        "the findings support"@,
        "the symptoms are consistent"@,
        "this is supported by"@,
        "the clinical picture"@,
        "the presentation is consistent"@,
        "the evidence suggests"@,
        "the data confirms"@,
        "output matches"@,
        "test passes"@,
        "returns the expected"@,
        "gives the correct"@,
        "produces the right"@,
        "running this gives"@,
        "满足条件"@,
        "確かめると"@,
        "조건을 만족"@,
        "果然"@,
        "正好"@,
        "确实"@,
        "的确"@,
        "やはり"@,
        "確かに"@,
        "역시"@,
        "맞다"@,
    ]
}

pub fn implicit_verification_phrases() -> (r: Vec<&'static str>)
    ensures
        str_views(r@) == implicit_verification(),
{
    let r = vec![
        "indeed",
        "as expected",
        "this confirms",
        "which confirms",
        "consistent with",
        "this is consistent",
        "this matches",
        "this aligns with",
        "this agrees with",
        "this supports",
        "as we expected",
        "which makes sense",
        "this makes sense",
        "that checks out",
        "everything fits",
        "fits together",
        "this explains",
        "which explains",
        "the findings support",
        "the symptoms are consistent",
        "this is supported by",
        "the clinical picture",
        "the presentation is consistent",
        "the evidence suggests",
        "the data confirms",
        "output matches",
        "test passes",
        "returns the expected",
        "gives the correct",
        "produces the right",
        "running this gives",
        "满足条件",
        "確かめると",
        "조건을 만족",
        "果然",
        "正好",
        "确实",
        "的确",
        "やはり",
        "確かに",
        "역시",
        "맞다",
    ];
    assert(str_views(r@) =~= implicit_verification());
    r
}

/// What the self-verification dimension counts in a lowered trace: over the
/// whole text when it has fewer than 50 characters (`short`), otherwise in
/// its last 40% (by bytes) and its middle 50%.
pub struct VerificationSignals {
    pub short: bool,
    pub late_explicit: usize,
    pub late_implicit: usize,
    pub mid_explicit: usize,
    pub mid_implicit: usize,
}

/// The last 40% (by bytes, starting at a char boundary) of `lower`.
pub open spec fn last_forty(lower: Seq<char>) -> Seq<char> {
    let len = encode_utf8(lower).len() as int;
    lower.subrange(char_floor(lower, len - len * 40 / 100), lower.len() as int)
}

/// The middle half (from byte `len/4` to byte `3*len/4`, both floored to char
/// boundaries) of `lower`.
pub open spec fn middle_half(lower: Seq<char>) -> Seq<char> {
    let len = encode_utf8(lower).len() as int;
    lower.subrange(char_floor(lower, len / 4), char_floor(lower, len * 3 / 4))
}

pub open spec fn verification_signals_hold(t: Seq<char>, r: VerificationSignals) -> bool {
    let lower = lowercase(t);
    &&& r.short == (lower.len() < 50)
    &&& r.short ==> {
        &&& r.late_explicit == capped(total_hits(lower, explicit_verification()))
        &&& r.late_implicit == capped(total_hits(lower, implicit_verification()))
        &&& r.mid_explicit == 0
        &&& r.mid_implicit == 0
    }
    &&& !r.short ==> {
        &&& r.late_explicit == capped(total_hits(last_forty(lower), explicit_verification()))
        &&& r.late_implicit == capped(total_hits(last_forty(lower), implicit_verification()))
        &&& r.mid_explicit == capped(total_hits(middle_half(lower), explicit_verification()))
        &&& r.mid_implicit == capped(total_hits(middle_half(lower), implicit_verification()))
    }
}

/// Count verification phrases in the lowercased thinking.
pub fn verification_signals(thinking: &str) -> (r: VerificationSignals)
    ensures
        verification_signals_hold(thinking@, r),
{
    let lower_s = to_lowercase(thinking);
    let len = byte_len(lower_s.as_str());
    let lower = chars_of(lower_s.as_str());
    let explicit = explicit_verification_phrases();
    let implicit = implicit_verification_phrases();
    if lower.len() < 50 {
        let e = count_phrases(&lower, &explicit);
        let i = count_phrases(&lower, &implicit);
        return VerificationSignals {
            short: true,
            late_explicit: e,
            late_implicit: i,
            mid_explicit: 0,
            mid_implicit: 0,
        };
    }
    let offsets = prefix_byte_offsets(&lower);
    let last_start = char_floor_index(&lower, &offsets, len - mul_div(len, 40, 100));
    let mid_start = char_floor_index(&lower, &offsets, len / 4);
    let mid_end = char_floor_index(&lower, &offsets, mul_div(len, 3, 4));
    proof {
        char_floor_monotone(lower@, (len / 4) as int, (len * 3 / 4) as int);
    }
    let last = slice_chars(&lower, last_start, lower.len());
    let middle = slice_chars(&lower, mid_start, mid_end);
    VerificationSignals {
        short: false,
        late_explicit: count_phrases(&last, &explicit),
        late_implicit: count_phrases(&last, &implicit),
        mid_explicit: count_phrases(&middle, &explicit),
        mid_implicit: count_phrases(&middle, &implicit),
    }
}

/// Whether any verification phrase was seen.
pub open spec fn has_verification(r: VerificationSignals) -> bool {
    r.late_explicit > 0 || r.late_implicit > 0 || r.mid_explicit > 0 || r.mid_implicit > 0
}

/// The self-verification score: explicit checks count more than implicit
/// ones, late ones more than mid-trace ones.
pub open spec fn verification_score_of(r: VerificationSignals) -> u32 {
    if r.short {
        if r.late_explicit > 0 {
            80
        } else if r.late_implicit > 0 {
            70
        } else {
            50
        }
    } else if r.late_explicit >= 2 {
        100
    } else if r.late_explicit == 1 && r.late_implicit >= 1 {
        95
    } else if r.late_explicit == 1 {
        85
    } else if r.late_implicit >= 2 {
        80
    } else if r.late_implicit == 1 {
        70
    } else if r.mid_explicit >= 1 {
        65
    } else if r.mid_implicit >= 1 {
        55
    } else {
        30
    }
}

impl VerificationSignals {
    pub fn has_verification(&self) -> (r: bool)
        ensures
            r == has_verification(*self),
    {
        self.late_explicit > 0 || self.late_implicit > 0 || self.mid_explicit > 0
            || self.mid_implicit > 0
    }

    pub fn score(&self) -> (r: u32)
        ensures
            r == verification_score_of(*self),
    {
        if self.short {
            if self.late_explicit > 0 {
                80
            } else if self.late_implicit > 0 {
                70
            } else {
                50
            }
        } else if self.late_explicit >= 2 {
            100
        } else if self.late_explicit == 1 && self.late_implicit >= 1 {
            95
        } else if self.late_explicit == 1 {
            85
        } else if self.late_implicit >= 2 {
            80
        } else if self.late_implicit == 1 {
            70
        } else if self.mid_explicit >= 1 {
            65
        } else if self.mid_implicit >= 1 {
            55
        } else {
            30
        }
    }
}

/// Verification always counts: a long trace that verifies anywhere (late or
/// mid-trace, explicitly or implicitly) scores above one that never does,
/// which scores 30; with no late verification, a mid-trace explicit check
/// scores 65 and a mid-trace implicit one 55. More verification never lowers
/// the score.
pub proof fn verification_is_rewarded(r: VerificationSignals, more: VerificationSignals)
    ensures
        !r.short ==> (verification_score_of(r) == 30 <==> (r.late_explicit == 0
            && r.late_implicit == 0 && r.mid_explicit == 0 && r.mid_implicit == 0)),
        !r.short ==> verification_score_of(r) >= 30,
        !r.short && r.late_explicit == 0 && r.late_implicit == 0 ==> {
            &&& r.mid_explicit >= 1 ==> verification_score_of(r) == 65
            &&& r.mid_explicit == 0 && r.mid_implicit >= 1 ==> verification_score_of(r) == 55
        },
        r.short ==> (verification_score_of(r) > 50 <==> (r.late_explicit > 0 || r.late_implicit
            > 0)),
        more.short == r.short && more.late_explicit >= r.late_explicit && more.late_implicit
            >= r.late_implicit && more.mid_explicit >= r.mid_explicit && more.mid_implicit
            >= r.mid_implicit ==> verification_score_of(more) >= verification_score_of(r),
{
}

} // verus!
