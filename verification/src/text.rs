//! Character- and byte-level text primitives shared by every scorer.

use vstd::prelude::*;
use vstd::utf8::*;

verus! {

/// The character views of a list of string slices.
pub open spec fn str_views(s: Seq<&str>) -> Seq<Seq<char>> {
    s.map_values(|x: &str| x@)
}

/// Unicode `White_Space`, the property that `char::is_whitespace` tests.
pub open spec fn is_space(c: char) -> bool {
    let v = c as u32;
    ||| v == 0x20
    ||| (0x09 <= v && v <= 0x0d)
    ||| v == 0x85
    ||| v == 0xa0
    ||| v == 0x1680
    ||| (0x2000 <= v && v <= 0x200a)
    ||| v == 0x2028
    ||| v == 0x2029
    ||| v == 0x202f
    ||| v == 0x205f
    ||| v == 0x3000
}

pub fn char_is_space(c: char) -> (r: bool)
    ensures
        r == is_space(c),
{
    let v = c as u32;
    v == 0x20 || (0x09 <= v && v <= 0x0d) || v == 0x85 || v == 0xa0 || v == 0x1680 || (0x2000
        <= v && v <= 0x200a) || v == 0x2028 || v == 0x2029 || v == 0x202f || v == 0x205f || v
        == 0x3000
}

/// The characters of `s`, in order.
pub fn chars_of(s: &str) -> (r: Vec<char>)
    ensures
        r@ == s@,
{
    broadcast use vstd::string::group_string_axioms;

    let mut out: Vec<char> = Vec::new();
    for c in it: s.chars()
        invariant
            it.seq() == s@,
            out@ == it.seq().take(it.index() as int),
    {
        out.push(c);
    }
    out
}


/// `String::push`.
#[verifier::external_body]
pub(crate) fn push_char(s: &mut String, c: char)
    ensures
        final(s)@ == old(s)@.push(c),
{
    s.push(c);
}

/// Append the characters `cs` to `out`.
pub fn push_chars(out: &mut String, cs: &[char])
    ensures
        final(out)@ == old(out)@ + cs@,
{
    let ghost start = out@;
    let mut i: usize = 0;
    while i < cs.len()
        invariant
            i <= cs@.len(),
            out@ == start + cs@.take(i as int),
        decreases cs@.len() - i,
    {
        push_char(out, cs[i]);
        assert(cs@.take(i + 1) =~= cs@.take(i as int).push(cs@[i as int]));
        i = i + 1;
    }
    assert(cs@.take(cs@.len() as int) =~= cs@);
}

/// Append `s` to `out`.
pub fn push_str(out: &mut String, s: &str)
    ensures
        final(out)@ == old(out)@ + s@,
{
    let cs = chars_of(s);
    push_chars(out, cs.as_slice());
}

/// A `String` holding exactly the characters `cs`.
pub fn string_from_chars(cs: &[char]) -> (r: String)
    ensures
        r@ == cs@,
{
    let mut out = String::new();
    push_chars(&mut out, cs);
    out
}

/// Decimal digit `d` (below ten) as a character.
pub open spec fn digit_char(d: int) -> char {
    (48 + d) as char
}

/// The decimal representation of `n`, without leading zeros.
pub open spec fn decimal(n: nat) -> Seq<char>
    decreases n,
{
    if n < 10 {
        seq![digit_char(n as int)]
    } else {
        decimal(n / 10).push(digit_char((n % 10) as int))
    }
}

/// The decimal representation of `n` (what `format!("{n}")` writes).
pub fn decimal_chars(n: u64) -> (r: Vec<char>)
    ensures
        r@ == decimal(n as nat),
    decreases n,
{
    let d = (n % 10) as u8;
    let c = (48u8 + d) as char;
    if n < 10 {
        vec![c]
    } else {
        let mut v = decimal_chars(n / 10);
        v.push(c);
        v
    }
}

/// `decimal(n)` left-padded with zeros to at least `width` characters.
pub open spec fn padded(n: nat, width: nat) -> Seq<char> {
    let d = decimal(n);
    if d.len() >= width {
        d
    } else {
        Seq::new((width - d.len()) as nat, |i: int| '0') + d
    }
}

/// `padded(n, width)` (what `format!("{n:0width$}")` writes).
pub fn padded_chars(n: u64, width: usize) -> (r: Vec<char>)
    ensures
        r@ == padded(n as nat, width as nat),
{
    let d = decimal_chars(n);
    if d.len() >= width {
        return d;
    }
    let mut out: Vec<char> = Vec::new();
    let pad = width - d.len();
    let mut i: usize = 0;
    while i < pad
        invariant
            i <= pad,
            out@ == Seq::new(i as nat, |k: int| '0'),
        decreases pad - i,
    {
        out.push('0');
        assert(out@ =~= Seq::new((i + 1) as nat, |k: int| '0'));
        i = i + 1;
    }
    let mut k: usize = 0;
    while k < d.len()
        invariant
            k <= d@.len(),
            out@ == Seq::new(pad as nat, |q: int| '0') + d@.take(k as int),
        decreases d@.len() - k,
    {
        out.push(d[k]);
        assert(d@.take(k + 1) =~= d@.take(k as int).push(d@[k as int]));
        k = k + 1;
    }
    assert(d@.take(d@.len() as int) =~= d@);
    out
}

/// The characters of `s` with leading `White_Space` removed.
pub open spec fn trim_start_seq(s: Seq<char>) -> Seq<char>
    decreases s.len(),
{
    if s.len() > 0 && is_space(s[0]) {
        trim_start_seq(s.drop_first())
    } else {
        s
    }
}

/// The characters of `s` with trailing `White_Space` removed.
pub open spec fn trim_end_seq(s: Seq<char>) -> Seq<char>
    decreases s.len(),
{
    if s.len() > 0 && is_space(s.last()) {
        trim_end_seq(s.drop_last())
    } else {
        s
    }
}

/// What `str::trim` leaves of `s`.
pub open spec fn trim_seq(s: Seq<char>) -> Seq<char> {
    trim_end_seq(trim_start_seq(s))
}

proof fn lemma_trim_start_leads(s: Seq<char>)
    ensures
        trim_start_seq(s).len() > 0 ==> !is_space(trim_start_seq(s)[0]),
    decreases s.len(),
{
    if s.len() > 0 && is_space(s[0]) {
        lemma_trim_start_leads(s.drop_first());
    }
}

proof fn lemma_trim_end_prefix(s: Seq<char>)
    ensures
        trim_end_seq(s).len() <= s.len(),
        trim_end_seq(s) == s.take(trim_end_seq(s).len() as int),
        trim_end_seq(s).len() > 0 ==> !is_space(trim_end_seq(s).last()),
        s.len() > 0 && !is_space(s[0]) ==> trim_end_seq(s).len() > 0,
    decreases s.len(),
{
    if s.len() > 0 && is_space(s.last()) {
        lemma_trim_end_prefix(s.drop_last());
        let t = trim_end_seq(s.drop_last());
        assert(s.drop_last().take(t.len() as int) =~= s.take(t.len() as int));
        if s.len() > 0 && !is_space(s[0]) {
            assert(s.len() > 1);
            assert(s.drop_last()[0] == s[0]);
        }
    } else {
        assert(s.take(s.len() as int) =~= s);
    }
}

/// Trimming is idempotent: what `trim_seq` leaves has nothing left to trim.
pub proof fn lemma_trim_idempotent(s: Seq<char>)
    ensures
        trim_seq(trim_seq(s)) == trim_seq(s),
{
    let a = trim_start_seq(s);
    let u = trim_end_seq(a);
    lemma_trim_start_leads(s);
    lemma_trim_end_prefix(a);
    if u.len() > 0 {
        assert(u[0] == a[0]);
        assert(trim_start_seq(u) == u);
        lemma_trim_end_prefix(u);
        assert(trim_end_seq(u) == u);
    } else {
        assert(trim_start_seq(u) == u);
        assert(trim_end_seq(u) == u);
    }
}

/// Index of the first character that `trim_start_seq` keeps.
pub fn trim_start_index(cs: &Vec<char>, from: usize) -> (lo: usize)
    requires
        from <= cs@.len(),
    ensures
        from <= lo <= cs@.len(),
        trim_start_seq(cs@.subrange(from as int, cs@.len() as int)) == cs@.subrange(
            lo as int,
            cs@.len() as int,
        ),
        lo < cs@.len() ==> !is_space(cs@[lo as int]),
        forall|k: int| from <= k < lo ==> is_space(#[trigger] cs@[k]),
{
    let n = cs.len();
    let mut i = from;
    while i < n && char_is_space(cs[i])
        invariant
            from <= i <= n,
            n == cs@.len(),
            trim_start_seq(cs@.subrange(from as int, n as int)) == trim_start_seq(
                cs@.subrange(i as int, n as int),
            ),
            forall|k: int| from <= k < i ==> is_space(#[trigger] cs@[k]),
        decreases n - i,
    {
        assert(cs@.subrange(i as int, n as int).drop_first() =~= cs@.subrange(
            i + 1,
            n as int,
        ));
        i = i + 1;
    }
    i
}

/// End (exclusive) of what `trim_end_seq` keeps of `cs[lo..hi]`.
pub fn trim_end_index(cs: &Vec<char>, lo: usize, hi: usize) -> (end: usize)
    requires
        lo <= hi <= cs@.len(),
    ensures
        lo <= end <= hi,
        trim_end_seq(cs@.subrange(lo as int, hi as int)) == cs@.subrange(lo as int, end as int),
        end > lo ==> !is_space(cs@[end - 1]),
        forall|k: int| end <= k < hi ==> is_space(#[trigger] cs@[k]),
{
    let mut j = hi;
    while j > lo && char_is_space(cs[j - 1])
        invariant
            lo <= j <= hi,
            hi <= cs@.len(),
            trim_end_seq(cs@.subrange(lo as int, hi as int)) == trim_end_seq(
                cs@.subrange(lo as int, j as int),
            ),
            forall|k: int| j <= k < hi ==> is_space(#[trigger] cs@[k]),
        decreases j - lo,
    {
        assert(cs@.subrange(lo as int, j as int).drop_last() =~= cs@.subrange(
            lo as int,
            j - 1,
        ));
        j = j - 1;
    }
    j
}

/// Bounds `(lo, hi)` with `cs[lo..hi]` equal to `trim_seq(cs)`.
pub fn trim_bounds(cs: &Vec<char>) -> (r: (usize, usize))
    ensures
        r.0 <= r.1 <= cs@.len(),
        cs@.subrange(r.0 as int, r.1 as int) == trim_seq(cs@),
{
    let lo = trim_start_index(cs, 0);
    assert(cs@.subrange(0, cs@.len() as int) =~= cs@);
    let hi = trim_end_index(cs, lo, cs.len());
    (lo, hi)
}

/// The characters of `cs[lo..hi]`.
pub fn slice_chars(cs: &Vec<char>, lo: usize, hi: usize) -> (r: Vec<char>)
    requires
        lo <= hi <= cs@.len(),
    ensures
        r@ == cs@.subrange(lo as int, hi as int),
{
    let mut out: Vec<char> = Vec::new();
    let mut i = lo;
    while i < hi
        invariant
            lo <= i <= hi,
            hi <= cs@.len(),
            out@ == cs@.subrange(lo as int, i as int),
        decreases hi - i,
    {
        out.push(cs[i]);
        assert(cs@.subrange(lo as int, i + 1) =~= cs@.subrange(lo as int, i as int).push(
            cs@[i as int],
        ));
        i = i + 1;
    }
    out
}

/// `trim_seq` of the given characters, as a new vector.
pub fn trim_chars(cs: &Vec<char>) -> (r: Vec<char>)
    ensures
        r@ == trim_seq(cs@),
{
    let (lo, hi) = trim_bounds(cs);
    slice_chars(cs, lo, hi)
}

/// Does a whitespace-separated word begin at index `i`?
pub open spec fn starts_word(s: Seq<char>, i: int) -> bool {
    0 <= i < s.len() && !is_space(s[i]) && (i == 0 || is_space(s[i - 1]))
}

/// Number of words that begin in `s[..n]`.
pub open spec fn words_in_prefix(s: Seq<char>, n: int) -> nat
    decreases n,
{
    if n <= 0 {
        0
    } else {
        words_in_prefix(s, n - 1) + if starts_word(s, n - 1) {
            1nat
        } else {
            0nat
        }
    }
}

/// Number of items `str::split_whitespace` yields: maximal runs of non-space characters.
pub open spec fn word_count(s: Seq<char>) -> nat {
    words_in_prefix(s, s.len() as int)
}

/// Number of non-space characters in `s[..n]`.
pub open spec fn non_space_in_prefix(s: Seq<char>, n: int) -> nat
    decreases n,
{
    if n <= 0 {
        0
    } else {
        non_space_in_prefix(s, n - 1) + if !is_space(s[n - 1]) {
            1nat
        } else {
            0nat
        }
    }
}

pub open spec fn non_space_count(s: Seq<char>) -> nat {
    non_space_in_prefix(s, s.len() as int)
}

proof fn lemma_prefix_counts_bounded(s: Seq<char>, n: int)
    requires
        0 <= n <= s.len(),
    ensures
        words_in_prefix(s, n) <= n,
        non_space_in_prefix(s, n) <= n,
    decreases n,
{
    if n > 0 {
        lemma_prefix_counts_bounded(s, n - 1);
    }
}

/// Word count and non-space character count of `cs`.
pub fn count_words(cs: &Vec<char>) -> (r: (usize, usize))
    ensures
        r.0 == word_count(cs@),
        r.1 == non_space_count(cs@),
{
    let n = cs.len();
    let mut words: usize = 0;
    let mut solid: usize = 0;
    let mut i: usize = 0;
    while i < n
        invariant
            i <= n,
            n == cs@.len(),
            words == words_in_prefix(cs@, i as int),
            solid == non_space_in_prefix(cs@, i as int),
        decreases n - i,
    {
        proof {
            lemma_prefix_counts_bounded(cs@, i as int);
        }
        let sp = char_is_space(cs[i]);
        if !sp {
            solid = solid + 1;
            if i == 0 || char_is_space(cs[i - 1]) {
                words = words + 1;
            }
        }
        i = i + 1;
    }
    (words, solid)
}


/// Does `p` occur in `h` starting at index `i`?
pub open spec fn occurs_at<T>(h: Seq<T>, p: Seq<T>, i: int) -> bool {
    0 <= i && i + p.len() <= h.len() && h.subrange(i, i + p.len()) == p
}

/// Does `p` occur anywhere in `h`?
pub open spec fn contains_seq<T>(h: Seq<T>, p: Seq<T>) -> bool {
    exists|i: int| occurs_at(h, p, i)
}

/// Start indices of the non-overlapping occurrences of a non-empty `p` in
/// `h[i..]`, scanning left to right and resuming after each occurrence (the
/// occurrences that `str::matches` and `str::match_indices` report).
pub open spec fn match_starts_from<T>(h: Seq<T>, p: Seq<T>, i: int) -> Seq<int>
    decreases h.len() - i,
{
    if p.len() == 0 || i < 0 || i + p.len() > h.len() {
        seq![]
    } else if h.subrange(i, i + p.len()) == p {
        seq![i] + match_starts_from(h, p, i + p.len())
    } else {
        match_starts_from(h, p, i + 1)
    }
}

pub open spec fn match_starts<T>(h: Seq<T>, p: Seq<T>) -> Seq<int> {
    match_starts_from(h, p, 0)
}

/// Number of non-overlapping occurrences of `p` in `h`.
pub open spec fn count_matches<T>(h: Seq<T>, p: Seq<T>) -> nat {
    match_starts(h, p).len()
}

/// First occurrence of `p` in `h` at or after `i`.
pub open spec fn find_from<T>(h: Seq<T>, p: Seq<T>, i: int) -> Option<int>
    decreases h.len() - i,
{
    if i < 0 || i + p.len() > h.len() {
        None
    } else if h.subrange(i, i + p.len()) == p {
        Some(i)
    } else if i < h.len() {
        find_from(h, p, i + 1)
    } else {
        None
    }
}

proof fn lemma_match_starts_len<T>(h: Seq<T>, p: Seq<T>, i: int)
    requires
        0 <= i <= h.len(),
    ensures
        match_starts_from(h, p, i).len() <= h.len() - i,
    decreases h.len() - i,
{
    if p.len() == 0 || i + p.len() > h.len() {
    } else if h.subrange(i, i + p.len()) == p {
        lemma_match_starts_len(h, p, i + p.len());
    } else {
        lemma_match_starts_len(h, p, i + 1);
    }
}

/// Does `p` occur in `h` at index `i`?
pub fn chars_at(h: &Vec<char>, p: &Vec<char>, i: usize) -> (r: bool)
    requires
        i <= h@.len(),
    ensures
        r == (p@.len() <= h@.len() - i && h@.subrange(i as int, i + p@.len()) == p@),
{
    if p.len() > h.len() - i {
        return false;
    }
    let n = h.len();
    let mut k: usize = 0;
    while k < p.len()
        invariant
            k <= p@.len(),
            n == h@.len(),
            i <= h@.len(),
            p@.len() <= h@.len() - i,
            h@.subrange(i as int, i + k) == p@.subrange(0, k as int),
        decreases p@.len() - k,
    {
        if h[i + k] != p[k] {
            assert(h@.subrange(i as int, i + p@.len())[k as int] != p@[k as int]);
            return false;
        }
        assert(h@.subrange(i as int, i + k + 1) =~= h@.subrange(i as int, i + k).push(
            h@[i + k],
        ));
        assert(p@.subrange(0, k + 1) =~= p@.subrange(0, k as int).push(p@[k as int]));
        k = k + 1;
    }
    assert(p@.subrange(0, p@.len() as int) =~= p@);
    true
}

/// Start indices of the non-overlapping occurrences of `p` in `h`.
pub fn find_all(h: &Vec<char>, p: &Vec<char>) -> (r: Vec<usize>)
    ensures
        r@.len() == match_starts(h@, p@).len(),
        forall|k: int| 0 <= k < r@.len() ==> r@[k] as int == match_starts(h@, p@)[k],
{
    let mut out: Vec<usize> = Vec::new();
    if p.len() == 0 {
        return out;
    }
    let n = h.len();
    let mut i: usize = 0;
    let ghost found: Seq<int> = seq![];
    while i < n && p.len() <= n - i
        invariant
            i <= n,
            n == h@.len(),
            p@.len() > 0,
            out@.len() == found.len(),
            forall|k: int| 0 <= k < out@.len() ==> out@[k] as int == found[k],
            found + match_starts_from(h@, p@, i as int) == match_starts(h@, p@),
        decreases n - i,
    {
        if chars_at(h, p, i) {
            out.push(i);
            proof {
                assert(found.push(i as int) + match_starts_from(h@, p@, i + p@.len()) =~= found
                    + match_starts_from(h@, p@, i as int));
                found = found.push(i as int);
            }
            i = i + p.len();
        } else {
            i = i + 1;
        }
    }
    assert(found + match_starts_from(h@, p@, i as int) =~= found);
    out
}

/// Number of non-overlapping occurrences of `p` in `h`.
pub fn count_in(h: &Vec<char>, p: &Vec<char>) -> (r: usize)
    ensures
        r == count_matches(h@, p@),
{
    proof {
        lemma_match_starts_len(h@, p@, 0);
    }
    let all = find_all(h, p);
    all.len()
}

/// Does `p` occur anywhere in `h`?
pub fn contains_chars(h: &Vec<char>, p: &Vec<char>) -> (r: bool)
    ensures
        r == contains_seq(h@, p@),
{
    let n = h.len();
    let mut i: usize = 0;
    while i < n
        invariant
            i <= n,
            n == h@.len(),
            forall|j: int| 0 <= j < i ==> !occurs_at(h@, p@, j),
        decreases n - i,
    {
        if chars_at(h, p, i) {
            assert(occurs_at(h@, p@, i as int));
            return true;
        }
        i = i + 1;
    }
    if chars_at(h, p, n) {
        assert(occurs_at(h@, p@, n as int));
        return true;
    }
    assert forall|j: int| !occurs_at(h@, p@, j) by {
        if 0 <= j && j + p@.len() <= h@.len() && j != n {
            assert(j < i);
        }
    }
    false
}

/// First occurrence of `p` in `h` at or after `from`.
pub fn find_chars_from(h: &Vec<char>, p: &Vec<char>, from: usize) -> (r: Option<usize>)
    requires
        from <= h@.len(),
    ensures
        match r {
            Some(k) => find_from(h@, p@, from as int) == Some(k as int) && from <= k && occurs_at(
                h@,
                p@,
                k as int,
            ),
            None => find_from(h@, p@, from as int) is None,
        },
{
    let n = h.len();
    let mut i: usize = from;
    while i < n
        invariant
            from <= i <= n,
            n == h@.len(),
            find_from(h@, p@, from as int) == find_from(h@, p@, i as int),
        decreases n - i,
    {
        if chars_at(h, p, i) {
            return Some(i);
        }
        if p.len() > n - i {
            return None;
        }
        i = i + 1;
    }
    if chars_at(h, p, n) {
        return Some(n);
    }
    None
}


/// Name for what `str::to_lowercase` returns: full Unicode lowercasing of a
/// string, including the context-dependent final sigma.
pub uninterp spec fn lowercase(s: Seq<char>) -> Seq<char>;

/// `str::to_lowercase`.
#[verifier::external_body]
pub(crate) fn to_lowercase(s: &str) -> (r: String)
    ensures
        r@ == lowercase(s@),
{
    s.to_lowercase()
}

/// Name for the characters that `char::to_lowercase` yields for one `char`.
pub uninterp spec fn char_lowercase(c: char) -> Seq<char>;

/// `char::to_lowercase`, collected.
#[verifier::external_body]
pub(crate) fn char_to_lowercase(c: char) -> (r: Vec<char>)
    ensures
        r@ == char_lowercase(c),
{
    c.to_lowercase().collect()
}

/// `s` with every run of `White_Space` reduced to one `' '` and no space at
/// either end: the words of `s` (as `split_whitespace` yields them) joined by
/// single spaces.
pub open spec fn collapse_spaces(s: Seq<char>) -> Seq<char>
    decreases s.len(),
{
    if s.len() == 0 {
        seq![]
    } else if is_space(s.last()) {
        collapse_spaces(s.drop_last())
    } else {
        let before = collapse_spaces(s.drop_last());
        if before.len() > 0 && is_space(s[s.len() - 2]) {
            before.push(' ').push(s.last())
        } else {
            before.push(s.last())
        }
    }
}

/// `collapse_spaces` of the given characters.
pub fn collapse_chars(cs: &Vec<char>) -> (r: Vec<char>)
    ensures
        r@ == collapse_spaces(cs@),
{
    let n = cs.len();
    let mut out: Vec<char> = Vec::new();
    let mut i: usize = 0;
    while i < n
        invariant
            i <= n,
            n == cs@.len(),
            out@ == collapse_spaces(cs@.take(i as int)),
        decreases n - i,
    {
        let c = cs[i];
        let ghost pre = cs@.take(i as int);
        assert(cs@.take(i + 1).drop_last() =~= pre);
        assert(cs@.take(i + 1).last() == c);
        if !char_is_space(c) {
            if out.len() > 0 && char_is_space(cs[i - 1]) {
                assert(cs@.take(i + 1)[i - 1] == cs@[i - 1]);
                out.push(' ');
            } else {
                proof {
                    if out@.len() > 0 {
                        assert(cs@.take(i + 1)[i - 1] == cs@[i - 1]);
                    }
                }
            }
            out.push(c);
        }
        i = i + 1;
    }
    assert(cs@.take(n as int) =~= cs@);
    out
}

/// Number of bytes in the UTF-8 encoding of `c` (`char::len_utf8`).
pub fn char_utf8_len(c: char) -> (n: usize)
    ensures
        n == encode_scalar(c as u32).len(),
        1 <= n <= 4,
{
    proof {
        char_is_scalar(c);
    }
    let v = c as u32;
    if v <= 0x7f {
        1
    } else if v <= 0x7ff {
        2
    } else if v <= 0xffff {
        3
    } else {
        4
    }
}

/// Encoding distributes over concatenation.
pub proof fn lemma_encode_concat(a: Seq<char>, b: Seq<char>)
    ensures
        encode_utf8(a + b) == encode_utf8(a) + encode_utf8(b),
    decreases a.len(),
{
    if a.len() == 0 {
        assert(a + b =~= b);
        assert(encode_utf8(a) + encode_utf8(b) =~= encode_utf8(b));
    } else {
        assert((a + b).drop_first() =~= a.drop_first() + b);
        assert((a + b)[0] == a[0]);
        lemma_encode_concat(a.drop_first(), b);
        assert(encode_utf8(a + b) =~= encode_utf8(a) + encode_utf8(b));
    }
}

proof fn lemma_encode_single(c: char)
    ensures
        encode_utf8(seq![c]) == encode_scalar(c as u32),
{
    let one = seq![c];
    assert(one.len() == 1);
    assert(one[0] == c);
    assert(one.drop_first() =~= Seq::<char>::empty());
    assert(encode_utf8(Seq::<char>::empty()) =~= Seq::<u8>::empty());
    assert(encode_utf8(one) == encode_scalar(one[0] as u32) + encode_utf8(one.drop_first()));
    assert(encode_scalar(c as u32) + Seq::<u8>::empty() =~= encode_scalar(c as u32));
}

/// Appending one character appends its encoding.
pub proof fn lemma_encode_push(a: Seq<char>, c: char)
    ensures
        encode_utf8(a.push(c)) == encode_utf8(a) + encode_scalar(c as u32),
        encode_utf8(a.push(c)).len() == encode_utf8(a).len() + encode_scalar(c as u32).len(),
{
    lemma_encode_concat(a, seq![c]);
    assert(a.push(c) =~= a + seq![c]);
    lemma_encode_single(c);
}

/// The byte offset at which character `i` of `cs` starts is a char boundary
/// of the encoding of `cs`.
pub proof fn lemma_prefix_is_boundary(cs: Seq<char>, i: int)
    requires
        0 <= i <= cs.len(),
    ensures
        is_char_boundary(encode_utf8(cs), encode_utf8(cs.take(i)).len() as int),
        encode_utf8(cs.take(i)).len() <= encode_utf8(cs).len(),
    decreases i,
{
    encode_utf8_valid_utf8(cs);
    assert(cs =~= cs.take(i) + cs.skip(i));
    lemma_encode_concat(cs.take(i), cs.skip(i));
    if i > 0 {
        let bytes = encode_utf8(cs);
        encode_utf8_first_scalar(cs);
        assert(pop_first_scalar(bytes) =~= encode_utf8(cs.drop_first()));
        assert(cs.take(i) =~= seq![cs[0]] + cs.drop_first().take(i - 1));
        lemma_encode_concat(seq![cs[0]], cs.drop_first().take(i - 1));
        lemma_encode_single(cs[0]);
        lemma_prefix_is_boundary(cs.drop_first(), i - 1);
    }
}


/// Byte offset at which character `k` of `cs` starts in its UTF-8 encoding.
pub open spec fn byte_offset(cs: Seq<char>, k: int) -> nat {
    encode_utf8(cs.take(k)).len()
}

/// Number of bytes in the UTF-8 encoding of `s`, as `str::len` reports it.
pub fn byte_len(s: &str) -> (n: usize)
    ensures
        n == encode_utf8(s@).len(),
{
    s.as_bytes().len()
}

/// Byte offsets of every character start, plus the total length at the end.
pub fn prefix_byte_offsets(cs: &Vec<char>) -> (r: Vec<usize>)
    requires
        encode_utf8(cs@).len() <= usize::MAX,
    ensures
        r@.len() == cs@.len() + 1,
        forall|k: int| 0 <= k <= cs@.len() ==> r@[k] == byte_offset(cs@, k),
{
    let n = cs.len();
    let mut out: Vec<usize> = Vec::new();
    out.push(0);
    assert(cs@.take(0) =~= Seq::<char>::empty());
    let mut total: usize = 0;
    let mut i: usize = 0;
    while i < n
        invariant
            i <= n,
            n == cs@.len(),
            encode_utf8(cs@).len() <= usize::MAX,
            out@.len() == i + 1,
            total == byte_offset(cs@, i as int),
            forall|k: int| 0 <= k <= i ==> out@[k] == byte_offset(cs@, k),
        decreases n - i,
    {
        let w = char_utf8_len(cs[i]);
        proof {
            assert(cs@.take(i + 1) =~= cs@.take(i as int).push(cs@[i as int]));
            lemma_encode_push(cs@.take(i as int), cs@[i as int]);
            lemma_prefix_is_boundary(cs@, i + 1);
        }
        total = total + w;
        out.push(total);
        i = i + 1;
    }
    out
}

/// Index of the last character whose start byte offset is at most `b`
/// (`cs.len()` when the whole encoding fits within `b` bytes): the character
/// at which `str::floor_char_boundary`-style slicing at byte `b` begins.
pub open spec fn char_floor(cs: Seq<char>, b: int) -> int
    decreases cs.len(),
{
    if cs.len() == 0 {
        0
    } else if byte_offset(cs, cs.len() as int) <= b {
        cs.len() as int
    } else {
        char_floor(cs.drop_last(), b)
    }
}

/// `char_floor` does not decrease as the byte bound grows, and stays within `cs`.
pub proof fn char_floor_monotone(cs: Seq<char>, a: int, b: int)
    requires
        a <= b,
    ensures
        char_floor(cs, a) <= char_floor(cs, b),
        0 <= char_floor(cs, a) <= cs.len(),
        0 <= char_floor(cs, b) <= cs.len(),
    decreases cs.len(),
{
    if cs.len() > 0 {
        char_floor_monotone(cs.drop_last(), a, b);
    }
}

/// `char_floor` of `cs` at byte `b`, given the offsets table of `cs`.
pub fn char_floor_index(cs: &Vec<char>, offsets: &Vec<usize>, b: usize) -> (k: usize)
    requires
        offsets@.len() == cs@.len() + 1,
        forall|j: int| 0 <= j <= cs@.len() ==> offsets@[j] == byte_offset(cs@, j),
    ensures
        k == char_floor(cs@, b as int),
        k <= cs@.len(),
{
    let mut k = cs.len();
    assert(cs@.take(k as int) =~= cs@);
    while k > 0 && offsets[k] > b
        invariant
            k <= cs@.len(),
            offsets@.len() == cs@.len() + 1,
            forall|j: int| 0 <= j <= cs@.len() ==> offsets@[j] == byte_offset(cs@, j),
            char_floor(cs@, b as int) == char_floor(cs@.take(k as int), b as int),
        decreases k,
    {
        proof {
            let t = cs@.take(k as int);
            assert(t.take(t.len() as int) =~= t);
            assert(t.drop_last() =~= cs@.take(k - 1));
        }
        k = k - 1;
    }
    proof {
        let t = cs@.take(k as int);
        assert(t.take(t.len() as int) =~= t);
        if k == 0 {
            assert(t.len() == 0);
        }
    }
    k
}


/// Total number of non-overlapping occurrences in `h` of the first `k`
/// phrases of `phrases`, each phrase counted on its own.
pub open spec fn phrase_hits(h: Seq<char>, phrases: Seq<Seq<char>>, k: int) -> nat
    decreases k,
{
    if k <= 0 {
        0
    } else {
        phrase_hits(h, phrases, k - 1) + count_matches(h, phrases[k - 1])
    }
}

pub open spec fn total_hits(h: Seq<char>, phrases: Seq<Seq<char>>) -> nat {
    phrase_hits(h, phrases, phrases.len() as int)
}

/// `n`, or `usize::MAX` when `n` does not fit in a `usize`.
pub open spec fn capped(n: nat) -> nat {
    if n > usize::MAX {
        usize::MAX as nat
    } else {
        n
    }
}

/// Sum of the occurrence counts of every phrase in `h` (capped at `usize::MAX`).
pub fn count_phrases(h: &Vec<char>, phrases: &Vec<&str>) -> (r: usize)
    ensures
        r == capped(total_hits(h@, str_views(phrases@))),
{
    let mut total: usize = 0;
    let mut i: usize = 0;
    while i < phrases.len()
        invariant
            i <= phrases@.len(),
            total == capped(phrase_hits(h@, str_views(phrases@), i as int)),
        decreases phrases@.len() - i,
    {
        let p = chars_of(phrases[i]);
        let c = count_in(h, &p);
        assert(str_views(phrases@)[i as int] == p@);
        if total > usize::MAX - c {
            total = usize::MAX;
        } else {
            total = total + c;
        }
        i = i + 1;
    }
    total
}

/// Does any of the phrases occur in `h`?
pub open spec fn any_phrase(h: Seq<char>, phrases: Seq<Seq<char>>) -> bool {
    exists|k: int| 0 <= k < phrases.len() && contains_seq(h, phrases[k])
}

pub fn contains_any(h: &Vec<char>, phrases: &Vec<&str>) -> (r: bool)
    ensures
        r == any_phrase(h@, str_views(phrases@)),
{
    let mut i: usize = 0;
    while i < phrases.len()
        invariant
            i <= phrases@.len(),
            forall|k: int| 0 <= k < i ==> !contains_seq(h@, #[trigger] str_views(phrases@)[k]),
        decreases phrases@.len() - i,
    {
        let p = chars_of(phrases[i]);
        assert(str_views(phrases@)[i as int] == p@);
        if contains_chars(h, &p) {
            return true;
        }
        i = i + 1;
    }
    false
}

/// Number of the phrases that occur in `h` at least once.
pub open spec fn phrases_present(h: Seq<char>, phrases: Seq<Seq<char>>, k: int) -> nat
    decreases k,
{
    if k <= 0 {
        0
    } else {
        phrases_present(h, phrases, k - 1) + if contains_seq(h, phrases[k - 1]) {
            1nat
        } else {
            0nat
        }
    }
}

pub fn count_present(h: &Vec<char>, phrases: &Vec<&str>) -> (r: usize)
    ensures
        r == phrases_present(h@, str_views(phrases@), phrases@.len() as int),
{
    let mut total: usize = 0;
    let mut i: usize = 0;
    while i < phrases.len()
        invariant
            i <= phrases@.len(),
            total <= i,
            total == phrases_present(h@, str_views(phrases@), i as int),
        decreases phrases@.len() - i,
    {
        let p = chars_of(phrases[i]);
        assert(str_views(phrases@)[i as int] == p@);
        if contains_chars(h, &p) {
            total = total + 1;
        }
        i = i + 1;
    }
    total
}

proof fn lemma_mul_div_split(n: int, num: int, den: int, q: int, rem: int)
    requires
        0 < den,
        0 <= num <= den,
        0 <= n,
        q == n / den,
        rem == n % den,
    ensures
        n * num / den == q * num + (rem * num) / den,
        (rem * num) / den <= rem,
        q * num + rem <= n,
        0 <= rem < den,
        0 <= q,
{
    assert(n == den * q + rem) by (nonlinear_arith)
        requires
            q == n / den,
            rem == n % den,
            den > 0,
    ;
    assert(0 <= rem < den) by (nonlinear_arith)
        requires
            rem == n % den,
            den > 0,
    ;
    assert(q >= 0) by (nonlinear_arith)
        requires
            q == n / den,
            den > 0,
            n >= 0,
    ;
    assert(n * num == den * (q * num) + rem * num) by (nonlinear_arith)
        requires
            n == den * q + rem,
    ;
    assert(rem * num >= 0) by (nonlinear_arith)
        requires
            rem >= 0,
            num >= 0,
    ;
    assert((den * (q * num) + rem * num) / den == q * num + (rem * num) / den) by (
    nonlinear_arith)
        requires
            den > 0,
            rem * num >= 0,
    ;
    assert(rem * num <= rem * den) by (nonlinear_arith)
        requires
            num <= den,
            rem >= 0,
    ;
    assert((rem * num) / den <= rem) by (nonlinear_arith)
        requires
            rem * num <= rem * den,
            den > 0,
            rem >= 0,
    ;
    assert(q * num <= q * den) by (nonlinear_arith)
        requires
            num <= den,
            q >= 0,
    ;
}

/// `n * num / den` without intermediate overflow.
pub fn mul_div(n: usize, num: usize, den: usize) -> (r: usize)
    requires
        0 < den <= 0x1000,
        num <= den,
    ensures
        r as int == (n as int) * (num as int) / (den as int),
        r <= n,
{
    let q = n / den;
    let rem = n % den;
    proof {
        lemma_mul_div_split(n as int, num as int, den as int, q as int, rem as int);
        assert((q as int) * (num as int) <= (q as int) * (den as int)) by (nonlinear_arith)
            requires
                num <= den,
                q >= 0,
        ;
        assert((q as int) * (den as int) <= n) by (nonlinear_arith)
            requires
                q == n / den,
                den > 0,
        ;
        assert((rem as int) * (num as int) <= (rem as int) * (den as int)) by (nonlinear_arith)
            requires
                num <= den,
        ;
        assert((rem as int) * (den as int) < (den as int) * (den as int)) by (nonlinear_arith)
            requires
                rem < den,
                den > 0,
        ;
        assert((den as int) * (den as int) <= 0x1000 * 0x1000) by (nonlinear_arith)
            requires
                0 < den <= 0x1000,
        ;
    }
    let a = q * num;
    let b = rem * num;
    a + b / den
}


/// Number of entries of `keys` equal to `key`.
pub open spec fn count_equal(keys: Seq<Seq<char>>, key: Seq<char>) -> nat
    decreases keys.len(),
{
    if keys.len() == 0 {
        0
    } else {
        count_equal(keys.drop_last(), key) + if keys.last() == key {
            1nat
        } else {
            0nat
        }
    }
}

pub proof fn lemma_count_equal_bounded(keys: Seq<Seq<char>>, key: Seq<char>)
    ensures
        count_equal(keys, key) <= keys.len(),
    decreases keys.len(),
{
    if keys.len() > 0 {
        lemma_count_equal_bounded(keys.drop_last(), key);
    }
}

/// Whether two character vectors hold the same characters.
pub fn chars_equal(a: &Vec<char>, b: &Vec<char>) -> (r: bool)
    ensures
        r == (a@ == b@),
{
    if a.len() != b.len() {
        return false;
    }
    let mut i: usize = 0;
    while i < a.len()
        invariant
            i <= a@.len(),
            a@.len() == b@.len(),
            forall|k: int| 0 <= k < i ==> a@[k] == b@[k],
        decreases a@.len() - i,
    {
        if a[i] != b[i] {
            return false;
        }
        i = i + 1;
    }
    assert(a@ =~= b@);
    true
}

pub open spec fn key_views(keys: Seq<Vec<char>>) -> Seq<Seq<char>> {
    keys.map_values(|v: Vec<char>| v@)
}

/// Number of entries of `keys` equal to `key`.
pub fn count_equal_keys(keys: &Vec<Vec<char>>, key: &Vec<char>) -> (r: usize)
    ensures
        r == count_equal(key_views(keys@), key@),
{
    let mut n: usize = 0;
    let mut i: usize = 0;
    while i < keys.len()
        invariant
            i <= keys@.len(),
            n <= i,
            n == count_equal(key_views(keys@).take(i as int), key@),
        decreases keys@.len() - i,
    {
        let ghost kv = key_views(keys@);
        assert(kv.take(i + 1).drop_last() =~= kv.take(i as int));
        if chars_equal(&keys[i], key) {
            n = n + 1;
        }
        i = i + 1;
    }
    assert(key_views(keys@).take(keys@.len() as int) =~= key_views(keys@));
    n
}


/// `a` sorts strictly before `b` in lexicographic order of code points (the
/// order of `str`'s `Ord`, which compares UTF-8 bytes and so agrees with it).
pub open spec fn chars_lt(a: Seq<char>, b: Seq<char>) -> bool
    decreases a.len(),
{
    if a.len() == 0 {
        b.len() > 0
    } else if b.len() == 0 {
        false
    } else if a[0] != b[0] {
        (a[0] as int) < (b[0] as int)
    } else {
        chars_lt(a.drop_first(), b.drop_first())
    }
}

/// No sequence sorts before itself, and of two sequences at most one sorts
/// before the other.
pub proof fn lemma_chars_lt_asymmetric(a: Seq<char>, b: Seq<char>)
    ensures
        chars_lt(a, b) ==> !chars_lt(b, a),
        !chars_lt(a, a),
    decreases a.len(),
{
    if a.len() > 0 && b.len() > 0 && a[0] == b[0] {
        lemma_chars_lt_asymmetric(a.drop_first(), b.drop_first());
    }
    if a.len() > 0 {
        lemma_chars_lt_asymmetric(a.drop_first(), a.drop_first());
    }
}

/// Sorting before is transitive.
pub proof fn lemma_chars_lt_transitive(a: Seq<char>, b: Seq<char>, c: Seq<char>)
    requires
        chars_lt(a, b),
        chars_lt(b, c),
    ensures
        chars_lt(a, c),
    decreases a.len(),
{
    if a.len() > 0 && a[0] == b[0] && b[0] == c[0] {
        lemma_chars_lt_transitive(a.drop_first(), b.drop_first(), c.drop_first());
    }
}

/// Of two different sequences, one sorts before the other.
pub proof fn lemma_chars_lt_total(a: Seq<char>, b: Seq<char>)
    requires
        a != b,
    ensures
        chars_lt(a, b) || chars_lt(b, a),
    decreases a.len(),
{
    if a.len() > 0 && b.len() > 0 && a[0] == b[0] {
        if a.drop_first() == b.drop_first() {
            assert(a =~= seq![a[0]] + a.drop_first());
            assert(b =~= seq![b[0]] + b.drop_first());
        }
        lemma_chars_lt_total(a.drop_first(), b.drop_first());
    } else if a.len() > 0 && b.len() > 0 {
        assert((a[0] as int) != (b[0] as int));
    } else if a.len() == 0 && b.len() == 0 {
        assert(a =~= b);
    }
}

/// Whether `a` sorts strictly before `b`.
pub fn chars_less(a: &Vec<char>, b: &Vec<char>) -> (r: bool)
    ensures
        r == chars_lt(a@, b@),
{
    let mut i: usize = 0;
    assert(a@.skip(0) =~= a@ && b@.skip(0) =~= b@);
    while i < a.len() && i < b.len()
        invariant
            i <= a@.len(),
            i <= b@.len(),
            chars_lt(a@, b@) == chars_lt(a@.skip(i as int), b@.skip(i as int)),
        decreases a@.len() - i,
    {
        let x = a[i];
        let y = b[i];
        assert(a@.skip(i as int)[0] == x && b@.skip(i as int)[0] == y);
        if x != y {
            return x < y;
        }
        assert(a@.skip(i as int).drop_first() =~= a@.skip(i + 1));
        assert(b@.skip(i as int).drop_first() =~= b@.skip(i + 1));
        i = i + 1;
    }
    a.len() < b.len()
}

} // verus!
