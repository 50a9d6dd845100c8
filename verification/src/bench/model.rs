//! The model backend abstraction: a `Model` yields a `Completion` for a prompt.

use vstd::prelude::*;

use crate::text::{chars_of, push_str};

verus! {

#[derive(Debug, Clone)]
pub struct Completion {
    pub text: String,
    /// Completion-token count from the endpoint's `usage`, when provided.
    pub completion_tokens: Option<usize>,
}

impl View for Completion {
    type V = (Seq<char>, Option<usize>);

    open spec fn view(&self) -> (Seq<char>, Option<usize>) {
        (self.text@, self.completion_tokens)
    }
}

impl Completion {
    /// A copy of this completion.
    fn duplicate(&self) -> (r: Completion)
        ensures
            r@ == self@,
    {
        Completion { text: self.text.clone(), completion_tokens: self.completion_tokens }
    }
}

/// A backend that answers prompts; the error is a human-readable message.
pub trait Model: Sync {
    fn complete(&self, prompt: &str) -> Result<Completion, String>;
}

/// Test/offline model: returns a canned completion keyed by exact prompt.
pub struct MockModel {
    responses: Vec<(String, Completion)>,
}

/// The canned response for `prompt` among `pairs`: that of the last pair
/// with this prompt, as a map built from the pairs in order keeps it.
pub open spec fn canned_response(pairs: Seq<(Seq<char>, (Seq<char>, Option<usize>))>, prompt: Seq<
    char,
>) -> Option<(Seq<char>, Option<usize>)>
    decreases pairs.len(),
{
    if pairs.len() == 0 {
        None
    } else if pairs.last().0 == prompt {
        Some(pairs.last().1)
    } else {
        canned_response(pairs.drop_last(), prompt)
    }
}

pub open spec fn pair_views(pairs: Seq<(String, Completion)>) -> Seq<
    (Seq<char>, (Seq<char>, Option<usize>)),
> {
    pairs.map_values(|p: (String, Completion)| (p.0@, p.1@))
}

/// Name for how `{:?}` writes a string: quoted, with escapes.
pub uninterp spec fn debug_quoted(s: Seq<char>) -> Seq<char>;

/// `format!("{s:?}")` for a string.
#[verifier::external_body]
pub(crate) fn debug_string(s: &str) -> (r: String)
    ensures
        r@ == debug_quoted(s@),
{
    format!("{s:?}")
}

/// The message of a prompt the mock has no answer for.
pub open spec fn no_response_message(prompt: Seq<char>) -> Seq<char> {
    "MockModel: no canned response for prompt "@ + debug_quoted(prompt)
}

impl View for MockModel {
    type V = Seq<(Seq<char>, (Seq<char>, Option<usize>))>;

    closed spec fn view(&self) -> Seq<(Seq<char>, (Seq<char>, Option<usize>))> {
        pair_views(self.responses@)
    }
}

/// Whether two strings hold the same characters.
fn same_text(a: &String, b: &str) -> (r: bool)
    ensures
        r == (a@ == b@),
{
    let x = chars_of(a.as_str());
    let y = chars_of(b);
    crate::text::chars_equal(&x, &y)
}

impl MockModel {
    /// A mock answering each prompt of `pairs` with its completion; where a
    /// prompt occurs more than once, its last completion is the one kept.
    pub fn new(pairs: Vec<(String, Completion)>) -> (r: Self)
        ensures
            r@ == pair_views(pairs@),
    {
        MockModel { responses: pairs }
    }

}

impl Model for MockModel {
    /// The canned completion for `prompt`, or an error naming the prompt.
    fn complete(&self, prompt: &str) -> (r: Result<Completion, String>)
        ensures
            match canned_response(self@, prompt@) {
                Some(c) => r is Ok && r->Ok_0@ == c,
                None => r is Err && r->Err_0@ == no_response_message(prompt@),
            },
    {
        let mut i = self.responses.len();
        assert(self@.take(i as int) =~= self@);
        while i > 0
            invariant
                i <= self.responses@.len(),
                canned_response(self@, prompt@) == canned_response(self@.take(i as int), prompt@),
            decreases i,
        {
            let ghost t = self@.take(i as int);
            assert(t.last() == (self.responses@[i - 1].0@, self.responses@[i - 1].1@));
            assert(t.drop_last() =~= self@.take(i - 1));
            if same_text(&self.responses[i - 1].0, prompt) {
                return Ok(self.responses[i - 1].1.duplicate());
            }
            i = i - 1;
        }
        let mut msg = String::new();
        push_str(&mut msg, "MockModel: no canned response for prompt ");
        let quoted = debug_string(prompt);
        push_str(&mut msg, quoted.as_str());
        Err(msg)
    }
}

/// A URL delimiter that ends the host part.
pub open spec fn is_url_delim(c: char) -> bool {
    c == '/' || c == '?' || c == '#'
}

/// What follows the first `"://"` of `url`, or all of `url` without one.
pub open spec fn after_scheme(url: Seq<char>) -> Seq<char> {
    match crate::text::find_from(url, "://"@, 0) {
        Some(i) => url.subrange(i + 3, url.len() as int),
        None => url,
    }
}

/// `s` up to its first `/`, `?` or `#`.
pub open spec fn before_delim(s: Seq<char>) -> Seq<char>
    decreases s.len(),
{
    if s.len() == 0 {
        s
    } else if is_url_delim(s[0]) {
        seq![]
    } else {
        seq![s[0]] + before_delim(s.drop_first())
    }
}

/// What follows the last `@` of `s` (all of `s` without one).
pub open spec fn after_last_at(s: Seq<char>) -> Seq<char>
    decreases s.len(),
{
    if s.len() == 0 {
        s
    } else if s.last() == '@' {
        seq![]
    } else {
        after_last_at(s.drop_last()).push(s.last())
    }
}

/// Host[:port] of a URL: scheme, path, query, fragment and credentials dropped.
pub open spec fn host_part(url: Seq<char>) -> Seq<char> {
    after_last_at(before_delim(after_scheme(url)))
}

/// Host[:port] of a URL, dropping scheme, path, and any credentials.
pub fn host_of(url: &str) -> (r: String)
    ensures
        r@ == host_part(url@),
{
    let cs = chars_of(url);
    let sep = chars_of("://");
    proof {
        reveal_strlit("://");
    }
    let n = cs.len();
    let start = match crate::text::find_chars_from(&cs, &sep, 0) {
        Some(i) => i + 3,
        None => 0,
    };
    let ghost rest = after_scheme(url@);
    assert(rest =~= cs@.subrange(start as int, n as int));
    let mut end = start;
    while end < n && !(cs[end] == '/' || cs[end] == '?' || cs[end] == '#')
        invariant
            start <= end <= n,
            n == cs@.len(),
            rest == cs@.subrange(start as int, n as int),
            before_delim(rest) == cs@.subrange(start as int, end as int) + before_delim(
                cs@.subrange(end as int, n as int),
            ),
        decreases n - end,
    {
        let ghost tail = cs@.subrange(end as int, n as int);
        assert(tail.drop_first() =~= cs@.subrange(end + 1, n as int));
        assert(cs@.subrange(start as int, end + 1) =~= cs@.subrange(start as int, end as int)
            + seq![cs@[end as int]]);
        end = end + 1;
    }
    let ghost hp = cs@.subrange(start as int, end as int);
    assert(before_delim(cs@.subrange(end as int, n as int)) =~= Seq::<char>::empty());
    assert(before_delim(rest) =~= hp);
    let mut from = end;
    while from > start && cs[from - 1] != '@'
        invariant
            start <= from <= end,
            end <= n,
            n == cs@.len(),
            hp == cs@.subrange(start as int, end as int),
            after_last_at(hp) == after_last_at(cs@.subrange(start as int, from as int))
                + cs@.subrange(from as int, end as int),
        decreases from - start,
    {
        let ghost pre = cs@.subrange(start as int, from as int);
        assert(pre.drop_last() =~= cs@.subrange(start as int, from - 1));
        assert(cs@.subrange(from - 1, end as int) =~= seq![pre.last()] + cs@.subrange(
            from as int,
            end as int,
        ));
        from = from - 1;
    }
    proof {
        let pre = cs@.subrange(start as int, from as int);
        if from > start {
            assert(pre.last() == '@');
        }
        assert(after_last_at(pre) =~= Seq::<char>::empty());
    }
    let host = crate::text::slice_chars(&cs, from, end);
    crate::text::string_from_chars(host.as_slice())
}


proof fn lemma_before_delim(s: Seq<char>)
    ensures
        forall|i: int| 0 <= i < before_delim(s).len() ==> !is_url_delim(#[trigger] before_delim(s)[i]),
    decreases s.len(),
{
    if s.len() > 0 && !is_url_delim(s[0]) {
        lemma_before_delim(s.drop_first());
        let r = before_delim(s);
        let q = before_delim(s.drop_first());
        assert forall|i: int| 0 <= i < r.len() implies !is_url_delim(#[trigger] r[i]) by {
            if i > 0 {
                assert(r[i] == q[i - 1]);
            }
        }
    }
}

proof fn lemma_after_last_at(s: Seq<char>)
    ensures
        after_last_at(s).len() <= s.len(),
        after_last_at(s) == s.subrange(s.len() - after_last_at(s).len(), s.len() as int),
        forall|i: int| 0 <= i < after_last_at(s).len() ==> #[trigger] after_last_at(s)[i] != '@',
    decreases s.len(),
{
    if s.len() > 0 && s.last() != '@' {
        lemma_after_last_at(s.drop_last());
        let r = after_last_at(s);
        let q = after_last_at(s.drop_last());
        assert(r =~= s.subrange(s.len() - r.len(), s.len() as int));
        assert forall|i: int| 0 <= i < r.len() implies #[trigger] r[i] != '@' by {
            if i < q.len() {
                assert(r[i] == q[i]);
            }
        }
    } else if s.len() > 0 {
        assert(after_last_at(s) =~= s.subrange(s.len() as int, s.len() as int));
    }
}

/// `host_of` keeps neither a path, a query, a fragment nor credentials: its
/// result holds no `/`, `?`, `#` or `@`.
pub proof fn host_has_no_path_or_credentials(url: Seq<char>)
    ensures
        forall|i: int|
            0 <= i < host_part(url).len() ==> {
                let c = #[trigger] host_part(url)[i];
                c != '/' && c != '?' && c != '#' && c != '@'
            },
{
    let b = before_delim(after_scheme(url));
    lemma_before_delim(after_scheme(url));
    lemma_after_last_at(b);
    let h = host_part(url);
    assert forall|i: int| 0 <= i < h.len() implies ({
        let c = #[trigger] h[i];
        c != '/' && c != '?' && c != '#' && c != '@'
    }) by {
        assert(h[i] == b[b.len() - h.len() + i]);
    }
}

/// A mock answers a prompt exactly when one of its pairs carries that prompt.
pub proof fn mock_answers_registered_prompts(
    pairs: Seq<(Seq<char>, (Seq<char>, Option<usize>))>,
    prompt: Seq<char>,
)
    ensures
        canned_response(pairs, prompt) is Some <==> exists|i: int|
            0 <= i < pairs.len() && (#[trigger] pairs[i]).0 == prompt,
    decreases pairs.len(),
{
    if pairs.len() > 0 {
        mock_answers_registered_prompts(pairs.drop_last(), prompt);
        if canned_response(pairs.drop_last(), prompt) is Some {
            let w = choose|i: int| 0 <= i < pairs.drop_last().len() && (#[trigger] pairs.drop_last()[i]).0 == prompt;
            assert(pairs[w] == pairs.drop_last()[w]);
        }
        if pairs.last().0 != prompt {
            assert forall|i: int| 0 <= i < pairs.len() && (#[trigger] pairs[i]).0 == prompt implies
                0 <= i < pairs.drop_last().len() && pairs.drop_last()[i].0 == prompt by {
                if i == pairs.len() - 1 {
                    assert(pairs[i] == pairs.last());
                }
            }
        } else {
            assert(pairs[pairs.len() - 1].0 == prompt);
        }
    }
}


proof fn lemma_no_scheme(s: Seq<char>, i: int)
    requires
        0 <= i,
        forall|k: int| 0 <= k < s.len() ==> s[k] != '/',
    ensures
        crate::text::find_from(s, "://"@, i) is None,
    decreases s.len() - i,
{
    reveal_strlit("://");
    if i + 3 <= s.len() {
        assert(s.subrange(i, i + 3)[1] == s[i + 1]);
        assert(s.subrange(i, i + 3) != "://"@);
        if i < s.len() {
            lemma_no_scheme(s, i + 1);
        }
    }
}

/// Taking the host of a host changes nothing.
pub proof fn host_is_idempotent(url: Seq<char>)
    ensures
        host_part(host_part(url)) == host_part(url),
{
    let h = host_part(url);
    host_has_no_path_or_credentials(url);
    lemma_no_scheme(h, 0);
    assert(after_scheme(h) == h);
    assert(before_delim(h) == h) by {
        lemma_before_delim_keeps(h);
    }
    lemma_after_last_at_keeps(h);
}

proof fn lemma_before_delim_keeps(s: Seq<char>)
    requires
        forall|k: int| 0 <= k < s.len() ==> !is_url_delim(s[k]),
    ensures
        before_delim(s) == s,
    decreases s.len(),
{
    if s.len() > 0 {
        assert(!is_url_delim(s[0]));
        lemma_before_delim_keeps(s.drop_first());
        assert(seq![s[0]] + s.drop_first() =~= s);
    }
}

proof fn lemma_after_last_at_keeps(s: Seq<char>)
    requires
        forall|k: int| 0 <= k < s.len() ==> s[k] != '@',
    ensures
        after_last_at(s) == s,
    decreases s.len(),
{
    if s.len() > 0 {
        assert(s.last() != '@');
        lemma_after_last_at_keeps(s.drop_last());
        assert(s.drop_last().push(s.last()) =~= s);
    }
}


/// `s` without its trailing run of `/`.
pub open spec fn trim_end_slashes(s: Seq<char>) -> Seq<char>
    decreases s.len(),
{
    if s.len() > 0 && s.last() == '/' {
        trim_end_slashes(s.drop_last())
    } else {
        s
    }
}

/// The chat-completions URL of an OpenAI-compatible endpoint.
pub open spec fn chat_url_of(endpoint: Seq<char>) -> Seq<char> {
    trim_end_slashes(endpoint) + "/chat/completions"@
}

/// The chat-completions URL of `endpoint` (see `chat_url_of`).
pub fn chat_completions_url(endpoint: &str) -> (r: String)
    ensures
        r@ == chat_url_of(endpoint@),
{
    let cs = chars_of(endpoint);
    let mut end = cs.len();
    assert(cs@.subrange(0, end as int) =~= cs@);
    while end > 0 && cs[end - 1] == '/'
        invariant
            end <= cs@.len(),
            cs@ == endpoint@,
            trim_end_slashes(endpoint@) == trim_end_slashes(cs@.subrange(0, end as int)),
        decreases end,
    {
        assert(cs@.subrange(0, end as int).drop_last() =~= cs@.subrange(0, end - 1));
        end = end - 1;
    }
    let base = crate::text::slice_chars(&cs, 0, end);
    let mut out = crate::text::string_from_chars(base.as_slice());
    push_str(&mut out, "/chat/completions");
    out
}

} // verus!
