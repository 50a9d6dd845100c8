//! Span-level annotations over an extracted thinking string: restart loops,
//! self-verification phrases and repeated sentences. Offsets are byte offsets
//! into the input and always fall on char boundaries.

use vstd::prelude::*;
use vstd::utf8::*;

use crate::scorers::efficiency::{find_restart_spans, restart_spans};
use crate::scorers::verification::{explicit_verification, explicit_verification_phrases};
use crate::text::{
    byte_len, byte_offset, char_lowercase, char_to_lowercase, chars_of, collapse_chars,
    collapse_spaces, contains_seq, count_equal, count_equal_keys, decimal, decimal_chars,
    find_all, key_views, lemma_count_equal_bounded, lemma_encode_push, lemma_prefix_is_boundary,
    lowercase,
    match_starts, match_starts_from, occurs_at, prefix_byte_offsets, slice_chars, str_views,
    string_from_chars, to_lowercase, trim_chars, trim_seq,
};

verus! {

#[derive(Debug, Clone, Copy, PartialEq, Eq, Structural)]
pub enum AnnotationKind {
    Restart,
    Verification,
    Repetition,
}

#[derive(Debug)]
pub struct Annotation {
    pub start: usize,
    pub end: usize,
    pub kind: AnnotationKind,
    pub note: String,
}

/// `(start, end, kind, note)` of an annotation.
pub type AnnotationView = (usize, usize, AnnotationKind, Seq<char>);

impl View for Annotation {
    type V = AnnotationView;

    open spec fn view(&self) -> AnnotationView {
        (self.start, self.end, self.kind, self.note@)
    }
}

pub open spec fn views(s: Seq<Annotation>) -> Seq<AnnotationView> {
    s.map_values(|a: Annotation| a@)
}

/// The lowercase shadow of `t`: each character replaced by what
/// `char::to_lowercase` yields for it.
pub open spec fn shadow(t: Seq<char>) -> Seq<char>
    decreases t.len(),
{
    if t.len() == 0 {
        seq![]
    } else {
        shadow(t.drop_last()) + char_lowercase(t.last())
    }
}

/// For each character of `shadow(t)`, the index in `t` of the character it
/// came from.
pub open spec fn shadow_origin(t: Seq<char>) -> Seq<int>
    decreases t.len(),
{
    if t.len() == 0 {
        seq![]
    } else {
        shadow_origin(t.drop_last()) + Seq::new(
            char_lowercase(t.last()).len(),
            |j: int| (t.len() - 1) as int,
        )
    }
}

proof fn lemma_shadow_push(t: Seq<char>, i: int)
    requires
        0 <= i < t.len(),
    ensures
        shadow(t.take(i + 1)) == shadow(t.take(i)) + char_lowercase(t[i]),
        shadow_origin(t.take(i + 1)) == shadow_origin(t.take(i)) + Seq::new(
            char_lowercase(t[i]).len(),
            |j: int| i,
        ),
{
    let u = t.take(i + 1);
    assert(u.drop_last() =~= t.take(i));
    assert(u.last() == t[i]);
    assert(Seq::new(char_lowercase(u.last()).len(), |j: int| (u.len() - 1) as int) =~= Seq::new(
        char_lowercase(t[i]).len(),
        |j: int| i,
    ));
}

/// Lowercase shadow of `cs` and, per shadow character, its origin index.
fn lowercase_shadow(cs: &Vec<char>) -> (r: (Vec<char>, Vec<usize>))
    ensures
        r.0@ == shadow(cs@),
        r.1@.len() == r.0@.len(),
        forall|k: int| 0 <= k < r.1@.len() ==> r.1@[k] as int == shadow_origin(cs@)[k],
        forall|k: int| 0 <= k < r.1@.len() ==> r.1@[k] < cs@.len(),
{
    let n = cs.len();
    let mut sh: Vec<char> = Vec::new();
    let mut org: Vec<usize> = Vec::new();
    let mut i: usize = 0;
    assert(cs@.take(0) =~= Seq::<char>::empty());
    while i < n
        invariant
            i <= n,
            n == cs@.len(),
            sh@ == shadow(cs@.take(i as int)),
            org@.len() == sh@.len(),
            forall|k: int| 0 <= k < org@.len() ==> org@[k] as int == shadow_origin(
                cs@.take(i as int),
            )[k],
            forall|k: int| 0 <= k < org@.len() ==> org@[k] < i,
            shadow_origin(cs@.take(i as int)).len() == sh@.len(),
        decreases n - i,
    {
        let lc = char_to_lowercase(cs[i]);
        let ghost sh0 = sh@;
        let ghost org0 = shadow_origin(cs@.take(i as int));
        let mut j: usize = 0;
        while j < lc.len()
            invariant
                j <= lc@.len(),
                i < n,
                n == cs@.len(),
                sh@ == sh0 + lc@.take(j as int),
                org@.len() == sh@.len(),
                org0.len() == sh0.len(),
                forall|k: int| 0 <= k < sh0.len() ==> org@[k] as int == org0[k],
                forall|k: int| sh0.len() <= k < org@.len() ==> org@[k] == i,
                forall|k: int| 0 <= k < org@.len() ==> org@[k] <= i,
            decreases lc@.len() - j,
        {
            sh.push(lc[j]);
            org.push(i);
            assert(lc@.take(j + 1) =~= lc@.take(j as int).push(lc@[j as int]));
            j = j + 1;
        }
        proof {
            lemma_shadow_push(cs@, i as int);
            assert(lc@.take(lc@.len() as int) =~= lc@);
            let org1 = shadow_origin(cs@.take(i + 1));
            assert forall|k: int| 0 <= k < org@.len() implies org@[k] as int == org1[k] by {
                if k < sh0.len() {
                } else {
                }
            }
        }
        i = i + 1;
    }
    assert(cs@.take(n as int) =~= cs@);
    (sh, org)
}

/// Origins in the shadow never go backwards, and each names a character of `t`.
proof fn lemma_origin_sorted(t: Seq<char>)
    ensures
        shadow_origin(t).len() == shadow(t).len(),
        forall|i: int, j: int|
            0 <= i <= j < shadow_origin(t).len() ==> #[trigger] shadow_origin(t)[i]
                <= #[trigger] shadow_origin(t)[j],
        forall|i: int| 0 <= i < shadow_origin(t).len() ==> 0 <= #[trigger] shadow_origin(t)[i] < t.len(),
    decreases t.len(),
{
    if t.len() > 0 {
        lemma_origin_sorted(t.drop_last());
        let pre = shadow_origin(t.drop_last());
        let all = shadow_origin(t);
        assert forall|i: int| 0 <= i < all.len() implies 0 <= #[trigger] all[i] < t.len() by {
            if i < pre.len() {
                assert(all[i] == pre[i]);
            }
        }
        assert forall|i: int, j: int| 0 <= i <= j < all.len() implies #[trigger] all[i]
            <= #[trigger] all[j] by {
            if j < pre.len() {
                assert(all[i] == pre[i]);
                assert(all[j] == pre[j]);
            } else if i < pre.len() {
                assert(all[i] == pre[i]);
            }
        }
    }
}

/// The shadow of a concatenation is the concatenation of the shadows.
proof fn lemma_shadow_concat(x: Seq<char>, y: Seq<char>)
    ensures
        shadow(x + y) == shadow(x) + shadow(y),
    decreases y.len(),
{
    if y.len() == 0 {
        assert(x + y =~= x);
        assert(shadow(x) + shadow(y) =~= shadow(x));
    } else {
        assert((x + y).drop_last() =~= x + y.drop_last());
        assert((x + y).last() == y.last());
        lemma_shadow_concat(x, y.drop_last());
        assert(shadow(x + y) =~= shadow(x) + shadow(y));
    }
}

/// Shadow character `k` lies within the shadow of the character it came from.
proof fn lemma_origin_brackets(t: Seq<char>, k: int)
    requires
        0 <= k < shadow(t).len(),
    ensures
        0 <= shadow_origin(t)[k] < t.len(),
        shadow(t.take(shadow_origin(t)[k])).len() <= k < shadow(
            t.take(shadow_origin(t)[k] + 1),
        ).len(),
    decreases t.len(),
{
    lemma_origin_sorted(t);
    let u = t.drop_last();
    lemma_origin_sorted(u);
    let j = shadow_origin(t)[k];
    if k < shadow(u).len() {
        assert(shadow_origin(t)[k] == shadow_origin(u)[k]);
        lemma_origin_brackets(u, k);
        assert(t.take(j) =~= u.take(j));
        assert(t.take(j + 1) =~= u.take(j + 1));
    } else {
        assert(j == t.len() - 1);
        assert(t.take(j) =~= u);
        assert(t.take(j + 1) =~= t);
    }
}

/// A phrase found in the lowercase shadow at `m` is found again in the
/// shadow of the source characters its span covers: from the character the
/// first matched shadow character came from to the one the last came from.
/// So a verification span always covers text that lowercases to its phrase,
/// even where lowercasing changes the length of the text.
pub proof fn span_covers_its_phrase(t: Seq<char>, p: Seq<char>, m: int)
    requires
        p.len() > 0,
        occurs_at(shadow(t), p, m),
    ensures
        ({
            let a = shadow_origin(t)[m];
            let b = shadow_origin(t)[m + p.len() - 1] + 1;
            &&& 0 <= a < b <= t.len()
            &&& contains_seq(shadow(t.subrange(a, b)), p)
        }),
{
    let last = m + p.len() - 1;
    lemma_origin_sorted(t);
    lemma_origin_brackets(t, m);
    lemma_origin_brackets(t, last);
    let a = shadow_origin(t)[m];
    let b = shadow_origin(t)[last] + 1;
    assert(a <= b - 1);
    let pre = t.take(a);
    let mid = t.subrange(a, b);
    let post = t.skip(b);
    assert(t.take(b) =~= pre + mid);
    assert(t =~= t.take(b) + post);
    lemma_shadow_concat(pre, mid);
    lemma_shadow_concat(t.take(b), post);
    let big = shadow(t);
    let sb = shadow(t.take(b));
    let sa = shadow(pre);
    let sm = shadow(mid);
    let off = m - sa.len();
    assert(sa.len() <= m);
    assert(m + p.len() <= sb.len());
    assert forall|i: int| 0 <= i < p.len() implies sm[off + i] == p[i] by {
        assert(big[m + i] == sb[m + i]);
        assert(sb[m + i] == sm[m + i - sa.len()]);
        assert(big.subrange(m, m + p.len())[i] == big[m + i]);
    }
    assert(sm.subrange(off, off + p.len()) =~= p);
    assert(occurs_at(sm, p, off));
}

proof fn lemma_match_starts_occur<T>(h: Seq<T>, p: Seq<T>, i: int)
    requires
        0 <= i,
    ensures
        forall|k: int|
            0 <= k < match_starts_from(h, p, i).len() ==> i <= #[trigger] match_starts_from(
                h,
                p,
                i,
            )[k] && occurs_at(h, p, match_starts_from(h, p, i)[k]) && p.len() > 0,
    decreases h.len() - i,
{
    if p.len() == 0 || i + p.len() > h.len() {
        assert(match_starts_from(h, p, i).len() == 0);
    } else if h.subrange(i, i + p.len()) == p {
        lemma_match_starts_occur(h, p, i + p.len());
        let rest = match_starts_from(h, p, i + p.len());
        assert forall|k: int| 0 <= k < match_starts_from(h, p, i).len() implies i
            <= #[trigger] match_starts_from(h, p, i)[k] && occurs_at(
            h,
            p,
            match_starts_from(h, p, i)[k],
        ) && p.len() > 0 by {
            if k > 0 {
                assert(match_starts_from(h, p, i)[k] == rest[k - 1]);
            }
        }
    } else {
        lemma_match_starts_occur(h, p, i + 1);
        assert(match_starts_from(h, p, i) == match_starts_from(h, p, i + 1));
    }
}

/// The annotation a phrase match at shadow index `m` produces: from the
/// start of the character the first matched shadow character came from, to
/// the end of the character the last one came from.
pub open spec fn phrase_match_view(
    t: Seq<char>,
    m: int,
    plen: int,
    kind: AnnotationKind,
    note: Seq<char>,
) -> AnnotationView {
    let org = shadow_origin(t);
    (
        byte_offset(t, org[m]) as usize,
        byte_offset(t, org[m + plen - 1] + 1) as usize,
        kind,
        note,
    )
}

/// Annotations for every case-insensitive occurrence of `p` in `t`.
pub open spec fn phrase_views(
    t: Seq<char>,
    p: Seq<char>,
    kind: AnnotationKind,
    note: Seq<char>,
) -> Seq<AnnotationView> {
    match_starts(shadow(t), p).map_values(
        |m: int| phrase_match_view(t, m, p.len() as int, kind, note),
    )
}

/// Annotations for the first `k` phrases, phrase by phrase.
pub open spec fn phrases_views(
    t: Seq<char>,
    phrases: Seq<Seq<char>>,
    k: int,
    kind: AnnotationKind,
    note: Seq<char>,
) -> Seq<AnnotationView>
    decreases k,
{
    if k <= 0 {
        seq![]
    } else {
        phrases_views(t, phrases, k - 1, kind, note) + phrase_views(t, phrases[k - 1], kind, note)
    }
}

/// Every annotation `a` in `s` lies on char boundaries of the encoding of
/// `t`, and every one but a restart annotation covers at least one character.
pub open spec fn well_placed(t: Seq<char>, s: Seq<AnnotationView>) -> bool {
    forall|k: int|
        0 <= k < s.len() ==> {
            &&& s[k].0 <= s[k].1 <= encode_utf8(t).len()
            &&& is_char_boundary(encode_utf8(t), s[k].0 as int)
            &&& is_char_boundary(encode_utf8(t), s[k].1 as int)
            &&& s[k].2 != AnnotationKind::Restart ==> s[k].0 < s[k].1
        }
}

/// A later character starts at a later byte.
proof fn lemma_offset_strict(t: Seq<char>, a: int, b: int)
    requires
        0 <= a < b <= t.len(),
    ensures
        byte_offset(t, a) < byte_offset(t, b),
{
    lemma_offset_bounds(t, a, b - 1);
    assert(t.take(b) =~= t.take(b - 1).push(t[b - 1]));
    lemma_encode_push(t.take(b - 1), t[b - 1]);
}

proof fn lemma_offset_bounds(t: Seq<char>, a: int, b: int)
    requires
        0 <= a <= b <= t.len(),
    ensures
        byte_offset(t, a) <= byte_offset(t, b) <= encode_utf8(t).len(),
        is_char_boundary(encode_utf8(t), byte_offset(t, a) as int),
        is_char_boundary(encode_utf8(t), byte_offset(t, b) as int),
{
    lemma_prefix_is_boundary(t, a);
    lemma_prefix_is_boundary(t, b);
    lemma_prefix_is_boundary(t.take(b), a);
    assert(t.take(b).take(a) =~= t.take(a));
}

/// Append the annotations for the phrases to `out`.
fn find_phrases(
    cs: &Vec<char>,
    offsets: &Vec<usize>,
    sh: &Vec<char>,
    org: &Vec<usize>,
    phrases: &Vec<&str>,
    kind: AnnotationKind,
    note: &str,
    out: &mut Vec<Annotation>,
)
    requires
        offsets@.len() == cs@.len() + 1,
        forall|j: int| 0 <= j <= cs@.len() ==> offsets@[j] == byte_offset(cs@, j),
        sh@ == shadow(cs@),
        org@.len() == sh@.len(),
        forall|k: int| 0 <= k < org@.len() ==> org@[k] as int == shadow_origin(cs@)[k],
        forall|k: int| 0 <= k < org@.len() ==> org@[k] < cs@.len(),
        well_placed(cs@, views(old(out)@)),
    ensures
        views(final(out)@) == views(old(out)@) + phrases_views(
            cs@,
            str_views(phrases@),
            phrases@.len() as int,
            kind,
            note@,
        ),
        well_placed(cs@, views(final(out)@)),
{
    let ghost base = views(out@);
    let n_sh = sh.len();
    let n_cs = cs.len();
    let mut i: usize = 0;
    while i < phrases.len()
        invariant
            i <= phrases@.len(),
            offsets@.len() == cs@.len() + 1,
            forall|j: int| 0 <= j <= cs@.len() ==> offsets@[j] == byte_offset(cs@, j),
            sh@ == shadow(cs@),
            org@.len() == sh@.len(),
            forall|k: int| 0 <= k < org@.len() ==> org@[k] as int == shadow_origin(cs@)[k],
            forall|k: int| 0 <= k < org@.len() ==> org@[k] < cs@.len(),
            views(out@) == base + phrases_views(cs@, str_views(phrases@), i as int, kind, note@),
            well_placed(cs@, views(out@)),
            n_sh == sh@.len(),
            n_cs == cs@.len(),
        decreases phrases@.len() - i,
    {
        let p = chars_of(phrases[i]);
        assert(str_views(phrases@)[i as int] == p@);
        let ms = find_all(sh, &p);
        proof {
            lemma_match_starts_occur(sh@, p@, 0);
        }
        let ghost before = views(out@);
        let ghost pv = phrase_views(cs@, p@, kind, note@);
        let mut j: usize = 0;
        while j < ms.len()
            invariant
                j <= ms@.len(),
                ms@.len() == match_starts(sh@, p@).len(),
                forall|k: int| 0 <= k < ms@.len() ==> ms@[k] as int == match_starts(sh@, p@)[k],
                forall|k: int|
                    0 <= k < match_starts(sh@, p@).len() ==> occurs_at(
                        sh@,
                        p@,
                        #[trigger] match_starts(sh@, p@)[k],
                    ) && p@.len() > 0,
                offsets@.len() == cs@.len() + 1,
                forall|jj: int| 0 <= jj <= cs@.len() ==> offsets@[jj] == byte_offset(cs@, jj),
                sh@ == shadow(cs@),
                org@.len() == sh@.len(),
                forall|k: int| 0 <= k < org@.len() ==> org@[k] as int == shadow_origin(cs@)[k],
                forall|k: int| 0 <= k < org@.len() ==> org@[k] < cs@.len(),
                pv == phrase_views(cs@, p@, kind, note@),
                views(out@) == before + pv.take(j as int),
                well_placed(cs@, views(out@)),
                n_sh == sh@.len(),
                n_cs == cs@.len(),
            decreases ms@.len() - j,
        {
            let m = ms[j];
            assert(ms@[j as int] as int == match_starts(sh@, p@)[j as int]);
            assert(occurs_at(sh@, p@, match_starts(sh@, p@)[j as int]));
            assert(m + p@.len() <= sh@.len());
            assert(p@.len() > 0);
            let last = m + p.len() - 1;
            let a = org[m];
            let b = org[last];
            let start = offsets[a];
            let end = offsets[b + 1];
            proof {
                assert(org@[m as int] as int == shadow_origin(cs@)[m as int]);
                assert(org@[last as int] as int == shadow_origin(cs@)[last as int]);
                lemma_origin_sorted(cs@);
                assert(shadow_origin(cs@)[m as int] <= shadow_origin(cs@)[last as int]);
                lemma_offset_bounds(cs@, a as int, (b + 1) as int);
                lemma_offset_strict(cs@, a as int, (b + 1) as int);
            }
            let ann = Annotation { start, end, kind, note: note.to_owned() };
            let ghost prev = out@;
            out.push(ann);
            proof {
                assert(pv[j as int] == phrase_match_view(cs@, m as int, p@.len() as int, kind, note@));
                assert(ann@ == pv[j as int]);
                assert(out@ == prev.push(ann));
                assert(views(out@) =~= views(prev).push(ann@));
                assert(pv.take(j + 1) =~= pv.take(j as int).push(pv[j as int]));
                assert(views(out@) =~= before + pv.take(j + 1));
            }
            j = j + 1;
        }
        proof {
            assert(pv.take(ms@.len() as int) =~= pv);
            assert(views(out@) =~= base + phrases_views(cs@, str_views(phrases@), i + 1, kind, note@));
        }
        i = i + 1;
    }
}


/// Characters that end a sentence: `.`, `!`, `?` and their CJK full-width forms.
pub open spec fn is_sentence_end(c: char) -> bool {
    c == '.' || c == '!' || c == '?' || c == '\u{3002}' || c == '\u{FF01}' || c == '\u{FF1F}'
}

pub(crate) fn char_ends_sentence(c: char) -> (r: bool)
    ensures
        r == is_sentence_end(c),
{
    c == '.' || c == '!' || c == '?' || c == '\u{3002}' || c == '\u{FF01}' || c == '\u{FF1F}'
}

/// Sentence spans (character indices) of `t[i..]`, where the current
/// sentence began at `start` and already holds `count` characters: a
/// sentence closes after a sentence-ending character once it holds more than
/// ten characters, and a non-empty remainder forms a last sentence.
pub open spec fn sentence_spans_from(t: Seq<char>, start: int, i: int, count: int) -> Seq<
    (int, int),
>
    decreases t.len() - i,
{
    if i >= t.len() {
        if start < t.len() {
            seq![(start, t.len() as int)]
        } else {
            seq![]
        }
    } else if is_sentence_end(t[i]) && count + 1 > 10 {
        seq![(start, i + 1)] + sentence_spans_from(t, i + 1, i + 1, 0)
    } else {
        sentence_spans_from(t, start, i + 1, count + 1)
    }
}

/// The sentence spans of `t`, as character index pairs.
pub open spec fn sentence_char_spans(t: Seq<char>) -> Seq<(int, int)> {
    sentence_spans_from(t, 0, 0, 0)
}

pub open spec fn span_ints(v: Seq<(usize, usize)>) -> Seq<(int, int)> {
    v.map_values(|p: (usize, usize)| (p.0 as int, p.1 as int))
}

/// The sentence spans of `cs` (see `sentence_char_spans`).
fn sentence_spans(cs: &Vec<char>) -> (r: Vec<(usize, usize)>)
    ensures
        span_ints(r@) == sentence_char_spans(cs@),
        forall|k: int| 0 <= k < r@.len() ==> (#[trigger] r@[k]).0 < r@[k].1 <= cs@.len(),
{
    let n = cs.len();
    let mut out: Vec<(usize, usize)> = Vec::new();
    let mut start: usize = 0;
    let mut count: usize = 0;
    let mut i: usize = 0;
    while i < n
        invariant
            start <= i <= n,
            count <= i,
            n == cs@.len(),
            span_ints(out@) + sentence_spans_from(cs@, start as int, i as int, count as int)
                == sentence_char_spans(cs@),
            forall|k: int| 0 <= k < out@.len() ==> (#[trigger] out@[k]).0 < out@[k].1 <= start,
        decreases n - i,
    {
        count = count + 1;
        if char_ends_sentence(cs[i]) && count > 10 {
            let ghost before = out@;
            out.push((start, i + 1));
            assert(span_ints(out@) =~= span_ints(before) + seq![(start as int, i + 1)]);
            assert(span_ints(out@) + sentence_spans_from(cs@, i + 1, i + 1, 0) =~= span_ints(
                before,
            ) + sentence_spans_from(cs@, start as int, i as int, count - 1));
            start = i + 1;
            count = 0;
        }
        i = i + 1;
    }
    if start < n {
        let ghost before = out@;
        out.push((start, n));
        assert(span_ints(out@) =~= span_ints(before) + seq![(start as int, n as int)]);
    } else {
        assert(span_ints(out@) + sentence_spans_from(cs@, start as int, i as int, count as int)
            =~= span_ints(out@));
    }
    out
}


/// The trimmed text of the sentence at `sp`.
pub open spec fn sentence_text(t: Seq<char>, sp: (int, int)) -> Seq<char> {
    trim_seq(t.subrange(sp.0, sp.1))
}

/// The key under which sentences are compared: lowercased, with whitespace
/// runs collapsed to single spaces.
pub open spec fn sentence_key(t: Seq<char>, sp: (int, int)) -> Seq<char> {
    collapse_spaces(lowercase(sentence_text(t, sp)))
}

/// Sentences that are blank, or whose key is shorter than 15 characters
/// ("Yes."), are not compared at all.
pub open spec fn counts_as_sentence(t: Seq<char>, sp: (int, int)) -> bool {
    sentence_text(t, sp).len() > 0 && sentence_key(t, sp).len() >= 15
}

/// Keys of the compared sentences among the first `k` spans.
pub open spec fn earlier_keys(t: Seq<char>, spans: Seq<(int, int)>, k: int) -> Seq<Seq<char>>
    decreases k,
{
    if k <= 0 {
        seq![]
    } else if counts_as_sentence(t, spans[k - 1]) {
        earlier_keys(t, spans, k - 1).push(sentence_key(t, spans[k - 1]))
    } else {
        earlier_keys(t, spans, k - 1)
    }
}

/// The note of the `n`-th occurrence of a sentence.
pub open spec fn duplicate_note(n: nat) -> Seq<char> {
    "duplicate occurrence #"@ + decimal(n) + " of an earlier sentence"@
}

/// Repetition annotations for the first `k` spans: each compared sentence
/// whose key already occurred is flagged, with its occurrence number.
pub open spec fn repetition_views_upto(t: Seq<char>, spans: Seq<(int, int)>, k: int) -> Seq<
    AnnotationView,
>
    decreases k,
{
    if k <= 0 {
        seq![]
    } else {
        let prev = repetition_views_upto(t, spans, k - 1);
        let sp = spans[k - 1];
        let n = count_equal(earlier_keys(t, spans, k - 1), sentence_key(t, sp));
        if counts_as_sentence(t, sp) && n >= 1 {
            prev.push(
                (
                    byte_offset(t, sp.0) as usize,
                    byte_offset(t, sp.1) as usize,
                    AnnotationKind::Repetition,
                    duplicate_note(n + 1),
                ),
            )
        } else {
            prev
        }
    }
}

/// How many of the first `k` sentences are compared and have key `key`.
pub open spec fn compared_with_key(
    t: Seq<char>,
    spans: Seq<(int, int)>,
    k: int,
    key: Seq<char>,
) -> nat
    decreases k,
{
    if k <= 0 {
        0
    } else {
        compared_with_key(t, spans, k - 1, key) + if counts_as_sentence(t, spans[k - 1])
            && sentence_key(t, spans[k - 1]) == key {
            1nat
        } else {
            0nat
        }
    }
}

proof fn lemma_earlier_keys_count(t: Seq<char>, spans: Seq<(int, int)>, k: int, key: Seq<char>)
    requires
        0 <= k <= spans.len(),
    ensures
        count_equal(earlier_keys(t, spans, k), key) == compared_with_key(t, spans, k, key),
    decreases k,
{
    if k > 0 {
        lemma_earlier_keys_count(t, spans, k - 1, key);
        if counts_as_sentence(t, spans[k - 1]) {
            let prev = earlier_keys(t, spans, k - 1);
            let x = sentence_key(t, spans[k - 1]);
            assert(prev.push(x).drop_last() =~= prev);
        }
    }
}

proof fn lemma_compared_exists(t: Seq<char>, spans: Seq<(int, int)>, k: int, key: Seq<char>)
    requires
        0 <= k <= spans.len(),
    ensures
        compared_with_key(t, spans, k, key) >= 1 <==> exists|j: int|
            0 <= j < k && counts_as_sentence(t, #[trigger] spans[j]) && sentence_key(t, spans[j])
                == key,
    decreases k,
{
    if k > 0 {
        lemma_compared_exists(t, spans, k - 1, key);
        if counts_as_sentence(t, spans[k - 1]) && sentence_key(t, spans[k - 1]) == key {
            assert(0 <= k - 1 < k && counts_as_sentence(t, spans[k - 1]) && sentence_key(
                t,
                spans[k - 1],
            ) == key);
        } else {
            assert forall|j: int|
                0 <= j < k && counts_as_sentence(t, #[trigger] spans[j]) && sentence_key(
                    t,
                    spans[j],
                ) == key implies j < k - 1 by {}
        }
    }
}

/// A sentence is flagged as a repeat exactly when some earlier compared
/// sentence anywhere before it has the same key, not only the one just before
/// it; its note numbers it one past all earlier compared sentences with that
/// key, and its span is the sentence's.
pub proof fn repeats_are_found_against_every_earlier_sentence(t: Seq<char>, k: int)
    requires
        0 <= k < sentence_char_spans(t).len(),
    ensures
        ({
            let spans = sentence_char_spans(t);
            let sp = spans[k];
            let key = sentence_key(t, sp);
            let n = compared_with_key(t, spans, k, key);
            &&& (n >= 1 <==> exists|j: int|
                0 <= j < k && counts_as_sentence(t, #[trigger] spans[j]) && sentence_key(
                    t,
                    spans[j],
                ) == key)
            &&& repetition_views_upto(t, spans, k + 1) == repetition_views_upto(t, spans, k) + if counts_as_sentence(t, sp) && n >= 1 {
                seq![
                    (
                        byte_offset(t, sp.0) as usize,
                        byte_offset(t, sp.1) as usize,
                        AnnotationKind::Repetition,
                        duplicate_note(n + 1),
                    ),
                ]
            } else {
                seq![]
            }
        }),
{
    let spans = sentence_char_spans(t);
    let key = sentence_key(t, spans[k]);
    lemma_earlier_keys_count(t, spans, k, key);
    lemma_compared_exists(t, spans, k, key);
    let prev = repetition_views_upto(t, spans, k);
    if counts_as_sentence(t, spans[k]) && compared_with_key(t, spans, k, key) >= 1 {
        assert(prev.push(
            (
                byte_offset(t, spans[k].0) as usize,
                byte_offset(t, spans[k].1) as usize,
                AnnotationKind::Repetition,
                duplicate_note(compared_with_key(t, spans, k, key) + 1),
            ),
        ) =~= prev + seq![
            (
                byte_offset(t, spans[k].0) as usize,
                byte_offset(t, spans[k].1) as usize,
                AnnotationKind::Repetition,
                duplicate_note(compared_with_key(t, spans, k, key) + 1),
            ),
        ]);
    } else {
        assert(prev + seq![] =~= prev);
    }
}

/// Annotations for every repeated sentence of `t`.
pub open spec fn repetition_views(t: Seq<char>) -> Seq<AnnotationView> {
    let spans = sentence_char_spans(t);
    repetition_views_upto(t, spans, spans.len() as int)
}

proof fn lemma_earlier_keys_len(t: Seq<char>, spans: Seq<(int, int)>, k: int)
    requires
        0 <= k,
    ensures
        earlier_keys(t, spans, k).len() <= k,
    decreases k,
{
    if k > 0 {
        lemma_earlier_keys_len(t, spans, k - 1);
    }
}

/// `duplicate_note(n)` as a `String`.
fn duplicate_note_string(n: usize) -> (r: String)
    ensures
        r@ == duplicate_note(n as nat),
{
    let mut cs = chars_of("duplicate occurrence #");
    let mut digits = decimal_chars(n as u64);
    cs.append(&mut digits);
    let mut tail = chars_of(" of an earlier sentence");
    cs.append(&mut tail);
    string_from_chars(cs.as_slice())
}

/// Append the repetition annotations of `cs` to `out`.
fn find_repetitions(cs: &Vec<char>, offsets: &Vec<usize>, out: &mut Vec<Annotation>)
    requires
        offsets@.len() == cs@.len() + 1,
        forall|j: int| 0 <= j <= cs@.len() ==> offsets@[j] == byte_offset(cs@, j),
        well_placed(cs@, views(old(out)@)),
    ensures
        views(final(out)@) == views(old(out)@) + repetition_views(cs@),
        well_placed(cs@, views(final(out)@)),
{
    let spans = sentence_spans(cs);
    let ghost sp = span_ints(spans@);
    let ghost base = views(out@);
    let mut keys: Vec<Vec<char>> = Vec::new();
    let mut k: usize = 0;
    while k < spans.len()
        invariant
            k <= spans@.len(),
            sp == span_ints(spans@),
            sp == sentence_char_spans(cs@),
            forall|q: int| 0 <= q < spans@.len() ==> (#[trigger] spans@[q]).0 < spans@[q].1 <= cs@.len(),
            offsets@.len() == cs@.len() + 1,
            forall|j: int| 0 <= j <= cs@.len() ==> offsets@[j] == byte_offset(cs@, j),
            key_views(keys@) == earlier_keys(cs@, sp, k as int),
            views(out@) == base + repetition_views_upto(cs@, sp, k as int),
            well_placed(cs@, views(out@)),
        decreases spans@.len() - k,
    {
        let (s, e) = spans[k];
        assert(sp[k as int] == (s as int, e as int));
        let sub = slice_chars(cs, s, e);
        let trimmed = trim_chars(&sub);
        if trimmed.len() > 0 {
            let ts = string_from_chars(trimmed.as_slice());
            let low = to_lowercase(ts.as_str());
            let lowc = chars_of(low.as_str());
            let key = collapse_chars(&lowc);
            assert(key@ == sentence_key(cs@, sp[k as int]));
            if key.len() >= 15 {
                let n = count_equal_keys(&keys, &key);
                proof {
                    lemma_count_equal_bounded(key_views(keys@), key@);
                    lemma_earlier_keys_len(cs@, sp, k as int);
                }
                let ghost keys_before = keys@;
                keys.push(key);
                proof {
                    assert(key_views(keys@) =~= key_views(keys_before).push(keys@.last()@));
                }
                if n >= 1 {
                    let start = offsets[s];
                    let end = offsets[e];
                    proof {
                        lemma_offset_bounds(cs@, s as int, e as int);
                        lemma_offset_strict(cs@, s as int, e as int);
                    }
                    let note = duplicate_note_string(n + 1);
                    let ann = Annotation {
                        start,
                        end,
                        kind: AnnotationKind::Repetition,
                        note,
                    };
                    let ghost prev = out@;
                    out.push(ann);
                    proof {
                        assert(views(out@) =~= views(prev).push(ann@));
                    }
                }
            }
        }
        k = k + 1;
    }
}


/// `a` comes no later than `b` in (start, end) order.
pub open spec fn pos_le(a: AnnotationView, b: AnnotationView) -> bool {
    a.0 < b.0 || (a.0 == b.0 && a.1 <= b.1)
}

/// `s` is ordered by (start, end).
pub open spec fn sorted_by_pos(s: Seq<AnnotationView>) -> bool {
    forall|i: int, j: int| 0 <= i <= j < s.len() ==> pos_le(#[trigger] s[i], #[trigger] s[j])
}

/// Where a stable insertion puts `x` into `s`: after the last element that
/// does not come after `x`.
pub open spec fn insert_index(s: Seq<AnnotationView>, x: AnnotationView) -> int
    decreases s.len(),
{
    if s.len() == 0 {
        0
    } else if pos_le(s.last(), x) {
        s.len() as int
    } else {
        insert_index(s.drop_last(), x)
    }
}

/// Stable sort by (start, end): elements with equal keys keep their order.
pub open spec fn sort_by_pos(s: Seq<AnnotationView>) -> Seq<AnnotationView>
    decreases s.len(),
{
    if s.len() == 0 {
        s
    } else {
        let r = sort_by_pos(s.drop_last());
        r.insert(insert_index(r, s.last()), s.last())
    }
}

proof fn lemma_insert_index(s: Seq<AnnotationView>, x: AnnotationView)
    ensures
        0 <= insert_index(s, x) <= s.len(),
        insert_index(s, x) > 0 ==> pos_le(s[insert_index(s, x) - 1], x),
        forall|k: int| insert_index(s, x) <= k < s.len() ==> !pos_le(#[trigger] s[k], x),
    decreases s.len(),
{
    if s.len() > 0 && !pos_le(s.last(), x) {
        lemma_insert_index(s.drop_last(), x);
        let p = insert_index(s, x);
        assert forall|k: int| p <= k < s.len() implies !pos_le(#[trigger] s[k], x) by {
            if k < s.len() - 1 {
                assert(s[k] == s.drop_last()[k]);
            }
        }
    }
}

proof fn lemma_insert_index_at(s: Seq<AnnotationView>, x: AnnotationView, j: int)
    requires
        0 <= j <= s.len(),
        j > 0 ==> pos_le(s[j - 1], x),
        forall|k: int| j <= k < s.len() ==> !pos_le(#[trigger] s[k], x),
    ensures
        insert_index(s, x) == j,
    decreases s.len(),
{
    if s.len() > 0 && j < s.len() {
        assert(!pos_le(s[s.len() - 1], x));
        let d = s.drop_last();
        assert forall|k: int| j <= k < d.len() implies !pos_le(#[trigger] d[k], x) by {
            assert(d[k] == s[k]);
        }
        lemma_insert_index_at(d, x, j);
    }
}

/// Sorting by (start, end) yields an ordered permutation of its input.
pub proof fn lemma_sort_by_pos(s: Seq<AnnotationView>)
    ensures
        sorted_by_pos(sort_by_pos(s)),
        sort_by_pos(s).to_multiset() == s.to_multiset(),
        sort_by_pos(s).len() == s.len(),
    decreases s.len(),
{
    broadcast use vstd::seq_lib::group_to_multiset_ensures;

    if s.len() > 0 {
        lemma_sort_by_pos(s.drop_last());
        let r = sort_by_pos(s.drop_last());
        let x = s.last();
        let p = insert_index(r, x);
        lemma_insert_index(r, x);
        let u = r.insert(p, x);
        assert(u == sort_by_pos(s));
        assert forall|i: int, j: int| 0 <= i <= j < u.len() implies pos_le(
            #[trigger] u[i],
            #[trigger] u[j],
        ) by {
            if j < p {
                assert(u[i] == r[i] && u[j] == r[j]);
            } else if j == p {
                if i < p {
                    assert(u[i] == r[i]);
                    assert(pos_le(r[i], r[p - 1]));
                }
            } else if i < p {
                assert(u[i] == r[i] && u[j] == r[j - 1]);
                assert(!pos_le(r[j - 1], x));
                assert(pos_le(r[i], r[p - 1]));
            } else if i == p {
                assert(u[j] == r[j - 1]);
                assert(!pos_le(r[j - 1], x));
            } else {
                assert(u[i] == r[i - 1] && u[j] == r[j - 1]);
            }
        }
        assert(s.drop_last().push(x) == s);
    }
}

/// Sorting annotations that are already in (start, end) order changes
/// nothing: the sort moves an annotation only past ones that must come
/// after it.
pub proof fn sort_keeps_ordered_input(s: Seq<AnnotationView>)
    requires
        sorted_by_pos(s),
    ensures
        sort_by_pos(s) == s,
    decreases s.len(),
{
    if s.len() > 0 {
        let d = s.drop_last();
        assert(sorted_by_pos(d)) by {
            assert forall|i: int, j: int| 0 <= i <= j < d.len() implies pos_le(
                #[trigger] d[i],
                #[trigger] d[j],
            ) by {
                assert(d[i] == s[i] && d[j] == s[j]);
            }
        }
        sort_keeps_ordered_input(d);
        let x = s.last();
        if d.len() > 0 {
            assert(pos_le(d.last(), x)) by {
                assert(d.last() == s[s.len() - 2]);
            }
        }
        assert(insert_index(d, x) == d.len());
        assert(d.insert(d.len() as int, x) =~= s);
    }
}

proof fn lemma_sorted_keeps_boundaries(t: Seq<char>, s: Seq<AnnotationView>)
    requires
        well_placed(t, s),
    ensures
        well_placed(t, sort_by_pos(s)),
{
    broadcast use vstd::seq_lib::group_to_multiset_ensures;

    lemma_sort_by_pos(s);
    let r = sort_by_pos(s);
    assert forall|k: int| 0 <= k < r.len() implies s.contains(#[trigger] r[k]) by {
        assert(r.contains(r[k]));
        assert(r.to_multiset().count(r[k]) > 0);
        assert(s.to_multiset().count(r[k]) > 0);
    }
}

fn pos_le_exec(a: &Annotation, b: &Annotation) -> (r: bool)
    ensures
        r == pos_le(a@, b@),
{
    a.start < b.start || (a.start == b.start && a.end <= b.end)
}

/// Stable sort of annotations by (start, end).
fn sort_annotations(v: Vec<Annotation>) -> (r: Vec<Annotation>)
    ensures
        views(r@) == sort_by_pos(views(v@)),
{
    let ghost orig = views(v@);
    let mut rest = v;
    let mut res: Vec<Annotation> = Vec::new();
    let ghost mut k: int = 0;
    assert(orig.take(0) =~= Seq::<AnnotationView>::empty());
    assert(orig.skip(0) =~= orig);
    while rest.len() > 0
        invariant
            0 <= k <= orig.len(),
            views(res@) == sort_by_pos(orig.take(k)),
            views(rest@) == orig.skip(k),
        decreases rest@.len(),
    {
        let ghost rest0 = rest@;
        let x = rest.remove(0);
        assert(views(rest0).len() == rest0.len());
        assert(k < orig.len());
        assert(views(rest0)[0] == rest0[0]@);
        assert(orig.skip(k)[0] == orig[k]);
        assert(x@ == orig[k]);
        assert(rest@ == rest0.remove(0));
        assert(views(rest@) =~= orig.skip(k + 1)) by {
            assert forall|q: int| 0 <= q < views(rest@).len() implies views(rest@)[q] == orig.skip(
                k + 1,
            )[q] by {
                assert(views(rest@)[q] == rest@[q]@);
                assert(rest@[q] == rest0[q + 1]);
                assert(views(rest0)[q + 1] == rest0[q + 1]@);
                assert(orig.skip(k)[q + 1] == orig[k + 1 + q]);
            }
        }
        let mut j = res.len();
        while j > 0 && !pos_le_exec(&res[j - 1], &x)
            invariant
                j <= res@.len(),
                forall|q: int| j <= q < res@.len() ==> !pos_le(#[trigger] views(res@)[q], x@),
            decreases j,
        {
            j = j - 1;
        }
        proof {
            lemma_insert_index_at(views(res@), x@, j as int);
            assert(orig.take(k + 1).drop_last() =~= orig.take(k));
            assert(orig.take(k + 1).last() == x@);
        }
        let ghost res0 = res@;
        res.insert(j, x);
        assert(views(res@) =~= views(res0).insert(j as int, x@));
        proof {
            k = k + 1;
        }
    }
    assert(orig.take(k) =~= orig);
    res
}

/// Restart annotations: one per restart-pattern match.
pub open spec fn restart_views(t: Seq<char>) -> Seq<AnnotationView> {
    restart_spans(t).map_values(
        |sp: (usize, usize)| (sp.0, sp.1, AnnotationKind::Restart, "restart / backtrack phrase"@),
    )
}

/// Verification annotations: one per case-insensitive occurrence of an
/// explicit self-verification phrase.
pub open spec fn verification_views(t: Seq<char>) -> Seq<AnnotationView> {
    phrases_views(
        t,
        explicit_verification(),
        explicit_verification().len() as int,
        AnnotationKind::Verification,
        "explicit self-verification"@,
    )
}

/// Every annotation of `t`, ordered stably by (start, end): the restart
/// annotations, then the verification ones, then the repetition ones,
/// before sorting.
pub open spec fn annotation_views(t: Seq<char>) -> Seq<AnnotationView> {
    sort_by_pos(restart_views(t) + verification_views(t) + repetition_views(t))
}

/// Extract UI-ready annotations from an extracted thinking string, sorted
/// by start offset (ties by end); kinds may overlap. Every span lies on
/// char boundaries of `thinking`, and every verification and repetition span
/// covers at least one character.
pub fn annotate(thinking: &str) -> (r: Vec<Annotation>)
    ensures
        views(r@) == annotation_views(thinking@),
        well_placed(thinking@, views(r@)),
{
    let len = byte_len(thinking);
    let cs = chars_of(thinking);
    let mut out: Vec<Annotation> = Vec::new();

    let spans = find_restart_spans(thinking);
    let mut k: usize = 0;
    while k < spans.len()
        invariant
            k <= spans@.len(),
            cs@ == thinking@,
            spans@ == restart_spans(thinking@),
            forall|q: int|
                0 <= q < spans@.len() ==> {
                    &&& (#[trigger] spans@[q]).0 <= spans@[q].1 <= encode_utf8(thinking@).len()
                    &&& is_char_boundary(encode_utf8(thinking@), spans@[q].0 as int)
                    &&& is_char_boundary(encode_utf8(thinking@), spans@[q].1 as int)
                },
            views(out@) == restart_views(thinking@).take(k as int),
            well_placed(thinking@, views(out@)),
        decreases spans@.len() - k,
    {
        let (s, e) = spans[k];
        let ann = Annotation {
            start: s,
            end: e,
            kind: AnnotationKind::Restart,
            note: "restart / backtrack phrase".to_owned(),
        };
        let ghost prev = out@;
        out.push(ann);
        assert(views(out@) =~= views(prev).push(ann@));
        assert(restart_views(thinking@).take(k + 1) =~= restart_views(thinking@).take(
            k as int,
        ).push(ann@));
        k = k + 1;
    }
    assert(restart_views(thinking@).take(spans@.len() as int) =~= restart_views(thinking@));

    let offsets = prefix_byte_offsets(&cs);
    let (sh, org) = lowercase_shadow(&cs);
    let phrases = explicit_verification_phrases();
    find_phrases(
        &cs,
        &offsets,
        &sh,
        &org,
        &phrases,
        AnnotationKind::Verification,
        "explicit self-verification",
        &mut out,
    );
    find_repetitions(&cs, &offsets, &mut out);
    proof {
        lemma_sorted_keeps_boundaries(thinking@, views(out@));
    }
    sort_annotations(out)
}


/// The annotations of a thinking text are ordered by (start, end), and they
/// are exactly its restart, verification and repetition annotations.
pub proof fn annotations_sorted_and_complete(t: Seq<char>)
    ensures
        sorted_by_pos(annotation_views(t)),
        annotation_views(t).to_multiset() == (restart_views(t) + verification_views(t)
            + repetition_views(t)).to_multiset(),
        annotation_views(t).len() == restart_views(t).len() + verification_views(t).len()
            + repetition_views(t).len(),
{
    lemma_sort_by_pos(restart_views(t) + verification_views(t) + repetition_views(t));
}

} // verus!
