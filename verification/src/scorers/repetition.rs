//! Repetition: duplicated paragraphs and sentences repeated three times or
//! more. The counts are exact; turning them into ratios is left to the caller.

use vstd::prelude::*;

use crate::annotate::is_sentence_end;
use crate::text::{
    chars_equal, chars_of, collapse_chars, collapse_spaces, count_equal, count_equal_keys,
    key_views, lemma_count_equal_bounded, lowercase, slice_chars, string_from_chars,
    to_lowercase, trim_chars, trim_seq,
};
use crate::trace::{token_estimate, token_estimate_chars};

verus! {

/// The pieces of `h[start..]` between non-overlapping occurrences of `sep`
/// found from index `i` on (what `str::split` yields, empty pieces included).
pub open spec fn split_from(h: Seq<char>, sep: Seq<char>, start: int, i: int) -> Seq<Seq<char>>
    decreases h.len() - i,
{
    if sep.len() == 0 || i < start || i + sep.len() > h.len() {
        seq![h.subrange(start, h.len() as int)]
    } else if h.subrange(i, i + sep.len()) == sep {
        seq![h.subrange(start, i)] + split_from(h, sep, i + sep.len(), i + sep.len())
    } else {
        split_from(h, sep, start, i + 1)
    }
}

pub open spec fn split_pieces(h: Seq<char>, sep: Seq<char>) -> Seq<Seq<char>> {
    split_from(h, sep, 0, 0)
}

/// Lowercased, with whitespace runs collapsed to single spaces.
pub open spec fn normalized(s: Seq<char>) -> Seq<char> {
    collapse_spaces(lowercase(s))
}

/// Normalized forms of the first `k` pieces, keeping those of at least five
/// estimated tokens.
pub open spec fn paragraph_keys_upto(pieces: Seq<Seq<char>>, k: int) -> Seq<Seq<char>>
    decreases k,
{
    if k <= 0 {
        seq![]
    } else if token_estimate(normalized(pieces[k - 1])) >= 5 {
        paragraph_keys_upto(pieces, k - 1).push(normalized(pieces[k - 1]))
    } else {
        paragraph_keys_upto(pieces, k - 1)
    }
}

/// The paragraphs (split at blank lines) that the repetition check compares.
pub open spec fn paragraph_keys(t: Seq<char>) -> Seq<Seq<char>> {
    let pieces = split_pieces(t, "\n\n"@);
    paragraph_keys_upto(pieces, pieces.len() as int)
}

/// Number of distinct entries of `keys`.
pub open spec fn distinct_count(keys: Seq<Seq<char>>) -> nat
    decreases keys.len(),
{
    if keys.len() == 0 {
        0
    } else {
        distinct_count(keys.drop_last()) + if keys.drop_last().contains(keys.last()) {
            0nat
        } else {
            1nat
        }
    }
}

/// Trimmed sentences of `t[i..]`, the current one having begun at `start`
/// with `count` characters: a sentence closes after a sentence-ending
/// character once it holds more than ten characters and is kept when its
/// trimmed text is not empty; the remainder is kept when it has at least
/// three estimated tokens.
pub open spec fn sentences_from(t: Seq<char>, start: int, i: int, count: int) -> Seq<Seq<char>>
    decreases t.len() - i,
{
    if i >= t.len() {
        let rest = trim_seq(t.subrange(start, t.len() as int));
        if rest.len() > 0 && token_estimate(rest) >= 3 {
            seq![rest]
        } else {
            seq![]
        }
    } else if is_sentence_end(t[i]) && count + 1 > 10 {
        let s = trim_seq(t.subrange(start, i + 1));
        (if s.len() > 0 {
            seq![s]
        } else {
            seq![]
        }) + sentences_from(t, i + 1, i + 1, 0)
    } else {
        sentences_from(t, start, i + 1, count + 1)
    }
}

pub open spec fn sentences_of(t: Seq<char>) -> Seq<Seq<char>> {
    sentences_from(t, 0, 0, 0)
}

/// Number of distinct entries of `keys[..k]` that occur at least three times
/// in all of `keys`.
pub open spec fn repeated_upto(keys: Seq<Seq<char>>, k: int) -> nat
    decreases k,
{
    if k <= 0 {
        0
    } else {
        repeated_upto(keys, k - 1) + if !keys.take(k - 1).contains(keys[k - 1]) && count_equal(
            keys,
            keys[k - 1],
        ) >= 3 {
            1nat
        } else {
            0nat
        }
    }
}

pub open spec fn repeated_count(keys: Seq<Seq<char>>) -> nat {
    repeated_upto(keys, keys.len() as int)
}

/// What the repetition dimension counts in a trace.
pub struct RepetitionSignals {
    /// Paragraphs of at least five estimated tokens, and how many of them
    /// are distinct after normalization.
    pub paragraphs: usize,
    pub unique_paragraphs: usize,
    /// Sentences, and how many distinct normalized sentences occur three
    /// times or more.
    pub sentences: usize,
    pub repeated_sentences: usize,
}

pub open spec fn repetition_holds(t: Seq<char>, r: RepetitionSignals) -> bool {
    let keys = paragraph_keys(t);
    let sentence_keys = sentences_of(t).map_values(|s: Seq<char>| normalized(s));
    &&& r.paragraphs == keys.len()
    &&& r.unique_paragraphs == distinct_count(keys)
    &&& r.sentences == sentences_of(t).len()
    &&& r.repeated_sentences == repeated_count(sentence_keys)
}

/// `split_pieces(h, sep)` for a non-empty `sep`.
fn split_chars(h: &Vec<char>, sep: &Vec<char>) -> (r: Vec<Vec<char>>)
    requires
        sep@.len() > 0,
    ensures
        key_views(r@) == split_pieces(h@, sep@),
{
    let n = h.len();
    let mut out: Vec<Vec<char>> = Vec::new();
    let mut start: usize = 0;
    let mut i: usize = 0;
    while i < n && sep.len() <= n - i
        invariant
            start <= i <= n,
            n == h@.len(),
            sep@.len() > 0,
            key_views(out@) + split_from(h@, sep@, start as int, i as int) == split_pieces(
                h@,
                sep@,
            ),
        decreases n - i,
    {
        if crate::text::chars_at(h, sep, i) {
            let piece = slice_chars(h, start, i);
            let ghost before = out@;
            out.push(piece);
            proof {
                assert(key_views(out@) =~= key_views(before).push(piece@));
                assert(key_views(out@) + split_from(h@, sep@, i + sep@.len(), i + sep@.len())
                    =~= key_views(before) + split_from(h@, sep@, start as int, i as int));
            }
            i = i + sep.len();
            start = i;
        } else {
            i = i + 1;
        }
    }
    let last = slice_chars(h, start, n);
    let ghost before = out@;
    out.push(last);
    assert(key_views(out@) =~= key_views(before) + split_from(h@, sep@, start as int, i as int));
    out
}

/// `normalized` of the given characters.
fn normalize_chars(s: &Vec<char>) -> (r: Vec<char>)
    ensures
        r@ == normalized(s@),
{
    let st = string_from_chars(s.as_slice());
    let low = to_lowercase(st.as_str());
    let lc = chars_of(low.as_str());
    collapse_chars(&lc)
}

/// Whether `keys[..upto]` holds `key`.
fn holds_key(keys: &Vec<Vec<char>>, upto: usize, key: &Vec<char>) -> (r: bool)
    requires
        upto <= keys@.len(),
    ensures
        r == key_views(keys@).take(upto as int).contains(key@),
{
    let ghost kv = key_views(keys@).take(upto as int);
    let mut j: usize = 0;
    while j < upto
        invariant
            j <= upto <= keys@.len(),
            kv == key_views(keys@).take(upto as int),
            forall|q: int| 0 <= q < j ==> kv[q] != key@,
        decreases upto - j,
    {
        if chars_equal(&keys[j], key) {
            assert(kv[j as int] == key@);
            return true;
        }
        j = j + 1;
    }
    false
}

fn distinct_keys(keys: &Vec<Vec<char>>) -> (r: usize)
    ensures
        r == distinct_count(key_views(keys@)),
{
    let mut d: usize = 0;
    let mut i: usize = 0;
    while i < keys.len()
        invariant
            i <= keys@.len(),
            d <= i,
            d == distinct_count(key_views(keys@).take(i as int)),
        decreases keys@.len() - i,
    {
        let seen = holds_key(keys, i, &keys[i]);
        proof {
            let kv = key_views(keys@);
            assert(kv.take(i + 1).drop_last() =~= kv.take(i as int));
            assert(kv.take(i + 1).last() == keys@[i as int]@);
        }
        if !seen {
            d = d + 1;
        }
        i = i + 1;
    }
    assert(key_views(keys@).take(keys@.len() as int) =~= key_views(keys@));
    d
}

fn repeated_keys(keys: &Vec<Vec<char>>) -> (r: usize)
    ensures
        r == repeated_count(key_views(keys@)),
{
    let mut d: usize = 0;
    let mut i: usize = 0;
    while i < keys.len()
        invariant
            i <= keys@.len(),
            d <= i,
            d == repeated_upto(key_views(keys@), i as int),
        decreases keys@.len() - i,
    {
        let seen = holds_key(keys, i, &keys[i]);
        let n = count_equal_keys(keys, &keys[i]);
        if !seen && n >= 3 {
            d = d + 1;
        }
        i = i + 1;
    }
    d
}

/// `sentences_of` the given characters.
fn sentence_texts(cs: &Vec<char>) -> (r: Vec<Vec<char>>)
    ensures
        key_views(r@) == sentences_of(cs@),
{
    let n = cs.len();
    let mut out: Vec<Vec<char>> = Vec::new();
    let mut start: usize = 0;
    let mut count: usize = 0;
    let mut i: usize = 0;
    while i < n
        invariant
            start <= i <= n,
            count <= i,
            n == cs@.len(),
            key_views(out@) + sentences_from(cs@, start as int, i as int, count as int)
                == sentences_of(cs@),
        decreases n - i,
    {
        count = count + 1;
        if crate::annotate::char_ends_sentence(cs[i]) && count > 10 {
            let sub = slice_chars(cs, start, i + 1);
            let s = trim_chars(&sub);
            let ghost before = out@;
            if s.len() > 0 {
                out.push(s);
                assert(key_views(out@) =~= key_views(before).push(s@));
            }
            assert(key_views(out@) + sentences_from(cs@, i + 1, i + 1, 0) =~= key_views(before)
                + sentences_from(cs@, start as int, i as int, count - 1));
            start = i + 1;
            count = 0;
        }
        i = i + 1;
    }
    let sub = slice_chars(cs, start, n);
    let rest = trim_chars(&sub);
    let ghost before = out@;
    if rest.len() > 0 && token_estimate_chars(&rest) >= 3 {
        out.push(rest);
        assert(key_views(out@) =~= key_views(before).push(rest@));
    } else {
        assert(key_views(out@) + sentences_from(cs@, start as int, i as int, count as int)
            =~= key_views(out@));
    }
    out
}

/// Count the repetition signals of `thinking`.
pub fn repetition_signals(thinking: &str) -> (r: RepetitionSignals)
    ensures
        repetition_holds(thinking@, r),
{
    let cs = chars_of(thinking);
    let sep = chars_of("\n\n");
    proof {
        reveal_strlit("\n\n");
    }
    let pieces = split_chars(&cs, &sep);
    let ghost pv = key_views(pieces@);
    let mut keys: Vec<Vec<char>> = Vec::new();
    let mut k: usize = 0;
    while k < pieces.len()
        invariant
            k <= pieces@.len(),
            pv == key_views(pieces@),
            pv == split_pieces(thinking@, "\n\n"@),
            key_views(keys@) == paragraph_keys_upto(pv, k as int),
            keys@.len() <= k,
        decreases pieces@.len() - k,
    {
        let key = normalize_chars(&pieces[k]);
        if token_estimate_chars(&key) >= 5 {
            let ghost before = keys@;
            keys.push(key);
            assert(key_views(keys@) =~= key_views(before).push(key@));
        }
        k = k + 1;
    }
    let unique = distinct_keys(&keys);

    let sentences = sentence_texts(&cs);
    let mut skeys: Vec<Vec<char>> = Vec::new();
    let mut j: usize = 0;
    while j < sentences.len()
        invariant
            j <= sentences@.len(),
            key_views(sentences@) == sentences_of(thinking@),
            key_views(skeys@) == sentences_of(thinking@).take(j as int).map_values(
                |s: Seq<char>| normalized(s),
            ),
        decreases sentences@.len() - j,
    {
        let key = normalize_chars(&sentences[j]);
        let ghost before = skeys@;
        skeys.push(key);
        proof {
            let all = sentences_of(thinking@);
            assert(key_views(sentences@)[j as int] == sentences@[j as int]@);
            assert(key_views(skeys@) =~= key_views(before).push(key@));
            assert(all.take(j + 1) =~= all.take(j as int).push(all[j as int]));
            assert(key_views(skeys@) =~= all.take(j + 1).map_values(|s: Seq<char>| normalized(s)));
        }
        j = j + 1;
    }
    assert(sentences_of(thinking@).take(sentences@.len() as int) =~= sentences_of(thinking@));
    let repeated = repeated_keys(&skeys);
    RepetitionSignals {
        paragraphs: keys.len(),
        unique_paragraphs: unique,
        sentences: sentences.len(),
        repeated_sentences: repeated,
    }
}


/// There are never more distinct paragraphs than paragraphs.
pub proof fn distinct_at_most_all(keys: Seq<Seq<char>>)
    ensures
        distinct_count(keys) <= keys.len(),
    decreases keys.len(),
{
    if keys.len() > 0 {
        distinct_at_most_all(keys.drop_last());
    }
}

} // verus!
