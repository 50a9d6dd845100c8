//! Model-family registry data: how a family marks its thinking, and the
//! per-language phrase additions it carries.

use vstd::prelude::*;

use crate::text::{chars_of, string_from_chars};
use crate::trace::{tagged_content, tagged_content_of};

verus! {

#[derive(Debug, Clone, Default)]
pub struct Extraction {
    /// Ordered `[start, end]` tag pairs tried against raw text; first hit wins.
    pub think_tags: Vec<(String, String)>,
    /// Top-level JSON fields that hold the reasoning in structured records.
    pub reasoning_fields: Vec<String>,
}

#[derive(Debug, Clone, Default)]
pub struct Lexicon {
    pub restart: Vec<String>,
    pub verification: Vec<String>,
}

pub open spec fn tag_views(tags: Seq<(String, String)>) -> Seq<(Seq<char>, Seq<char>)> {
    tags.map_values(|p: (String, String)| (p.0@, p.1@))
}

/// The trimmed content of the first tag pair in `tags` that encloses
/// something in `raw`; `None` when no pair does.
pub open spec fn thinking_by_tags(tags: Seq<(Seq<char>, Seq<char>)>, raw: Seq<char>) -> Option<
    Seq<char>,
>
    decreases tags.len(),
{
    if tags.len() == 0 {
        None
    } else {
        match tagged_content(raw, tags[0].0, tags[0].1) {
            Some(t) => Some(t),
            None => thinking_by_tags(tags.drop_first(), raw),
        }
    }
}

/// Extract thinking from raw text using the extraction's tag pairs.
pub fn extract_thinking(extraction: &Extraction, raw: &str) -> (r: Option<String>)
    ensures
        match thinking_by_tags(tag_views(extraction.think_tags@), raw@) {
            Some(t) => r is Some && r->0@ == t,
            None => r is None,
        },
{
    let cs = chars_of(raw);
    let tags = &extraction.think_tags;
    let ghost all = tag_views(tags@);
    let mut i: usize = 0;
    assert(all.skip(0) =~= all);
    while i < tags.len()
        invariant
            i <= tags@.len(),
            all == tag_views(tags@),
            all == tag_views(extraction.think_tags@),
            cs@ == raw@,
            thinking_by_tags(all, raw@) == thinking_by_tags(all.skip(i as int), raw@),
        decreases tags@.len() - i,
    {
        assert(all.skip(i as int)[0] == (tags@[i as int].0@, tags@[i as int].1@));
        assert(all.skip(i as int).drop_first() =~= all.skip(i + 1));
        let open = tags[i].0.as_str();
        let close = tags[i].1.as_str();
        assert(open@ == all.skip(i as int)[0].0 && close@ == all.skip(i as int)[0].1);
        match tagged_content_of(&cs, open, close) {
            Some(t) => {
                assert(thinking_by_tags(all.skip(i as int), raw@) == Some(t@));
                return Some(string_from_chars(t.as_slice()));
            },
            None => {},
        }
        i = i + 1;
    }
    None
}

} // verus!
