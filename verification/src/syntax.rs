//! The wiki-link and hashtag grammars.
//!
//! A wiki-link is `[[target]]`, `[[target#fragment]]`, `[[target|alias]]`
//! or `[[target#fragment|alias]]`: the target is a non-empty run without
//! `]`, `#` or `|` (whitespace-trimmed in the result), the fragment a
//! non-empty run without `]` or `|`, the alias a non-empty run without `]`.
//! Links are found left to right without overlapping; after a link the
//! search resumes at its closing `]]`.
//!
//! A hashtag is `#` followed by an ASCII letter or digit and then any run of
//! ASCII letters, digits, `/`, `_` and `-`; the `#` must open the text or
//! follow a whitespace character.

use vstd::prelude::*;
use crate::text::{is_whitespace, is_ws, opt_chars, string_of_range, trim, trimmed_string};

verus! {

/// The character classes used by the two grammars.
#[derive(Clone, Copy, PartialEq, Eq)]
pub enum CharClass {
    /// Any character but `]`, `#`, `|`.
    Target,
    /// Any character but `]`, `|`.
    Fragment,
    /// Any character but `]`.
    Alias,
    /// ASCII letter or digit, `/`, `_`, `-`.
    TagBody,
}

pub open spec fn is_tag_start(c: char) -> bool {
    ('a' <= c && c <= 'z') || ('A' <= c && c <= 'Z') || ('0' <= c && c <= '9')
}

impl CharClass {
    pub open spec fn holds(self, c: char) -> bool {
        match self {
            CharClass::Target => c != ']' && c != '#' && c != '|',
            CharClass::Fragment => c != ']' && c != '|',
            CharClass::Alias => c != ']',
            CharClass::TagBody => is_tag_start(c) || c == '/' || c == '_' || c == '-',
        }
    }

    pub fn contains(self, c: char) -> (b: bool)
        ensures
            b == self.holds(c),
    {
        match self {
            CharClass::Target => c != ']' && c != '#' && c != '|',
            CharClass::Fragment => c != ']' && c != '|',
            CharClass::Alias => c != ']',
            CharClass::TagBody => ('a' <= c && c <= 'z') || ('A' <= c && c <= 'Z') || ('0' <= c
                && c <= '9') || c == '/' || c == '_' || c == '-',
        }
    }
}

/// End of the longest run of `class` characters of `s` that starts at `i`.
pub open spec fn run_end(s: Seq<char>, i: int, class: CharClass) -> int
    decreases s.len() - i,
{
    if 0 <= i < s.len() && class.holds(s[i]) {
        run_end(s, i + 1, class)
    } else {
        i
    }
}

pub proof fn lemma_run_end_bounds(s: Seq<char>, i: int, class: CharClass)
    requires
        0 <= i <= s.len(),
    ensures
        i <= run_end(s, i, class) <= s.len(),
        forall|k: int| i <= k < run_end(s, i, class) ==> class.holds(#[trigger] s[k]),
        run_end(s, i, class) < s.len() ==> !class.holds(s[run_end(s, i, class)]),
    decreases s.len() - i,
{
    if i < s.len() && class.holds(s[i]) {
        lemma_run_end_bounds(s, i + 1, class);
    }
}

/// A run of `class` characters from `i` to `j`, followed by the end of
/// `s` or by a character outside `class`, ends at `j`.
pub proof fn lemma_run_end_exact(s: Seq<char>, i: int, j: int, class: CharClass)
    requires
        0 <= i <= j <= s.len(),
        forall|k: int| i <= k < j ==> class.holds(#[trigger] s[k]),
        j < s.len() ==> !class.holds(s[j]),
    ensures
        run_end(s, i, class) == j,
    decreases j - i,
{
    if i < j {
        lemma_run_end_exact(s, i + 1, j, class);
    }
}

/// A wiki-link as the grammar reads it: target, fragment, alias.
pub type LinkParts = (Seq<char>, Option<Seq<char>>, Option<Seq<char>>);

/// The tail of a wiki-link from position `p` (just after the target or the
/// fragment): an optional `|alias`, then `]]`. Gives the link and the
/// position after it.
pub open spec fn link_close(
    s: Seq<char>,
    p: int,
    target: Seq<char>,
    fragment: Option<Seq<char>>,
) -> Option<(LinkParts, int)> {
    if 0 <= p < s.len() && s[p] == '|' {
        let ae = run_end(s, p + 1, CharClass::Alias);
        if ae > p + 1 && ae + 1 < s.len() && s[ae + 1] == ']' {
            Some(((target, fragment, Some(s.subrange(p + 1, ae))), ae + 2))
        } else {
            None
        }
    } else if 0 <= p && p + 1 < s.len() && s[p] == ']' && s[p + 1] == ']' {
        Some(((target, fragment, None), p + 2))
    } else {
        None
    }
}

/// The wiki-link that starts at position `i` of `s`, if any, and the
/// position just after it.
pub open spec fn wiki_link_at(s: Seq<char>, i: int) -> Option<(LinkParts, int)> {
    if 0 <= i && i + 1 < s.len() && s[i] == '[' && s[i + 1] == '[' {
        let te = run_end(s, i + 2, CharClass::Target);
        if te == i + 2 {
            None
        } else {
            let target = trim(s.subrange(i + 2, te));
            if te < s.len() && s[te] == '#' {
                let fe = run_end(s, te + 1, CharClass::Fragment);
                if fe == te + 1 {
                    None
                } else {
                    link_close(s, fe, target, Some(s.subrange(te + 1, fe)))
                }
            } else {
                link_close(s, te, target, None)
            }
        }
    } else {
        None
    }
}

/// All wiki-links of `s` found by scanning from position `i`.
pub open spec fn wiki_links_from(s: Seq<char>, i: int) -> Seq<LinkParts>
    decreases s.len() - i,
{
    if i < 0 || i >= s.len() {
        Seq::empty()
    } else {
        match wiki_link_at(s, i) {
            Some((link, end)) => if i < end <= s.len() {
                seq![link] + wiki_links_from(s, end)
            } else {
                Seq::empty()
            },
            None => wiki_links_from(s, i + 1),
        }
    }
}

/// All wiki-links of `s`, left to right.
pub open spec fn wiki_links(s: Seq<char>) -> Seq<LinkParts> {
    wiki_links_from(s, 0)
}

/// The hashtag whose `#` is at position `h`, and the position after it.
pub open spec fn tag_after_hash(s: Seq<char>, h: int) -> Option<(Seq<char>, int)> {
    if 0 <= h && h + 1 < s.len() && s[h] == '#' && is_tag_start(s[h + 1]) {
        let e = run_end(s, h + 2, CharClass::TagBody);
        Some((s.subrange(h + 1, e), e))
    } else {
        None
    }
}

/// The hashtag match that starts at position `i` (at the start of the
/// text, or at the whitespace before the `#`).
pub open spec fn tag_at(s: Seq<char>, i: int) -> Option<(Seq<char>, int)> {
    if i == 0 && tag_after_hash(s, 0) is Some {
        tag_after_hash(s, 0)
    } else if 0 <= i < s.len() && is_ws(s[i]) {
        tag_after_hash(s, i + 1)
    } else {
        None
    }
}

/// All hashtag names of `s` found by scanning from position `i`.
pub open spec fn tags_from(s: Seq<char>, i: int) -> Seq<Seq<char>>
    decreases s.len() - i,
{
    if i < 0 || i >= s.len() {
        Seq::empty()
    } else {
        match tag_at(s, i) {
            Some((tag, end)) => if i < end <= s.len() {
                seq![tag] + tags_from(s, end)
            } else {
                Seq::empty()
            },
            None => tags_from(s, i + 1),
        }
    }
}

/// All hashtag names of `s` (without the `#`), left to right.
pub open spec fn tags(s: Seq<char>) -> Seq<Seq<char>> {
    tags_from(s, 0)
}

/// The characters a hashtag is made of: ASCII letters and digits, `/`
/// (nested tags such as `#area/work`), `_` and `-`.
pub open spec fn hashtag_char(c: char) -> bool {
    ('a' <= c && c <= 'z') || ('A' <= c && c <= 'Z') || ('0' <= c && c <= '9') || c == '/' || c
        == '_' || c == '-'
}

/// `s[h]` is a `#` at the start of `s` or after whitespace, and
/// `s[h + 1 .. e]` is a maximal run of hashtag characters after it that
/// starts with an ASCII letter or digit: it ends at the end of `s` or
/// before a character that cannot be part of a hashtag.
pub open spec fn hashtag_run(s: Seq<char>, h: int, e: int) -> bool {
    &&& 0 <= h
    &&& h + 1 < e <= s.len()
    &&& (h == 0 || is_ws(s[h - 1]))
    &&& s[h] == '#'
    &&& (('a' <= s[h + 1] && s[h + 1] <= 'z') || ('A' <= s[h + 1] && s[h + 1] <= 'Z') || ('0'
        <= s[h + 1] && s[h + 1] <= '9'))
    &&& forall|m: int| h + 1 <= m < e ==> hashtag_char(#[trigger] s[m])
    &&& e < s.len() ==> !hashtag_char(s[e])
}

proof fn lemma_tag_after_hash_run(s: Seq<char>, h: int)
    requires
        tag_after_hash(s, h) is Some,
    ensures
        tag_after_hash(s, h) matches Some((t, e)) && (h == 0 || is_ws(s[h - 1])
            ==> hashtag_run(s, h, e)) && t == s.subrange(h + 1, e),
{
    lemma_run_end_bounds(s, h + 2, CharClass::TagBody);
    let e = run_end(s, h + 2, CharClass::TagBody);
    assert forall|m: int| h + 1 <= m < e implies hashtag_char(#[trigger] s[m]) by {
        if m >= h + 2 {
            assert(CharClass::TagBody.holds(s[m]));
        }
    }
}

/// `t` is a whole hashtag of `s`: the maximal run of hashtag characters
/// right after some `#` of `s`.
pub open spec fn whole_hashtag(s: Seq<char>, t: Seq<char>) -> bool {
    exists|h: int, e: int| #[trigger] hashtag_run(s, h, e) && t == s.subrange(h + 1, e)
}

proof fn lemma_tags_from_runs(s: Seq<char>, i: int)
    ensures
        forall|k: int|
            0 <= k < tags_from(s, i).len() ==> whole_hashtag(s, #[trigger] tags_from(s, i)[k]),
    decreases s.len() - i,
{
    if 0 <= i < s.len() {
        match tag_at(s, i) {
            Some((tag, end)) => {
                if i < end <= s.len() {
                    lemma_tags_from_runs(s, end);
                    let h = if i == 0 && tag_after_hash(s, 0) is Some {
                        0
                    } else {
                        i + 1
                    };
                    assert(tag_at(s, i) == tag_after_hash(s, h));
                    lemma_tag_after_hash_run(s, h);
                    let rest = tags_from(s, end);
                    assert(tags_from(s, i) == seq![tag] + rest);
                    assert(hashtag_run(s, h, end));
                    assert(whole_hashtag(s, tag));
                    assert forall|k: int| 0 <= k < tags_from(s, i).len() implies whole_hashtag(
                        s,
                        #[trigger] tags_from(s, i)[k],
                    ) by {
                        if k > 0 {
                            assert(tags_from(s, i)[k] == rest[k - 1]);
                        }
                    }
                }
            },
            None => {
                lemma_tags_from_runs(s, i + 1);
                assert(tags_from(s, i) == tags_from(s, i + 1));
            },
        }
    }
}

proof fn lemma_tags_from_complete(s: Seq<char>, i0: int, h: int, e: int)
    requires
        hashtag_run(s, h, e),
        0 <= i0 <= (if h == 0 {
            0
        } else {
            h - 1
        }),
    ensures
        tags_from(s, i0).contains(s.subrange(h + 1, e)),
    decreases (if h == 0 {
        0
    } else {
        h - 1
    }) - i0,
{
    let start = if h == 0 {
        0
    } else {
        h - 1
    };
    lemma_tag_at_bounds(s, i0);
    if i0 == start {
        lemma_run_end_exact(s, h + 2, e, CharClass::TagBody);
        assert(tag_after_hash(s, h) == Some((s.subrange(h + 1, e), e)));
        assert(tag_at(s, i0) == Some((s.subrange(h + 1, e), e)));
        let rest = tags_from(s, e);
        assert(tags_from(s, i0) == seq![s.subrange(h + 1, e)] + rest);
        assert(tags_from(s, i0)[0] == s.subrange(h + 1, e));
    } else {
        match tag_at(s, i0) {
            Some((t, end)) => {
                let h0 = if i0 == 0 && tag_after_hash(s, 0) is Some {
                    0
                } else {
                    i0 + 1
                };
                assert(tag_at(s, i0) == tag_after_hash(s, h0));
                lemma_run_end_bounds(s, h0 + 2, CharClass::TagBody);
                assert(end <= start) by {
                    if end > start {
                        if start == h0 {
                            assert(s[h0] == '#');
                            assert(is_ws(s[start]));
                        } else {
                            assert(h0 + 1 <= start);
                            if start >= h0 + 2 {
                                assert(CharClass::TagBody.holds(s[start]));
                            } else {
                                assert(is_tag_start(s[h0 + 1]));
                            }
                            assert(is_ws(s[start]));
                        }
                    }
                }
                lemma_tags_from_complete(s, end, h, e);
                let rest = tags_from(s, end);
                assert(tags_from(s, i0) == seq![t] + rest);
                let k = choose|k: int| 0 <= k < rest.len() && rest[k] == s.subrange(h + 1, e);
                assert(tags_from(s, i0)[k + 1] == rest[k]);
            },
            None => {
                lemma_tags_from_complete(s, i0 + 1, h, e);
                assert(tags_from(s, i0) == tags_from(s, i0 + 1));
            },
        }
    }
}

/// No hashtag is missed: every maximal run of hashtag characters after a
/// `#` that opens the text or follows whitespace, starting with a letter
/// or digit, is read as a hashtag.
pub proof fn every_hashtag_is_read(s: Seq<char>, h: int, e: int)
    requires
        hashtag_run(s, h, e),
    ensures
        tags(s).contains(s.subrange(h + 1, e)),
{
    lemma_tags_from_complete(s, 0, h, e);
}

/// Every hashtag read from a text is a whole hashtag: it is the maximal
/// run of hashtag characters (ASCII letters and digits, `/`, `_`, `-`),
/// starting with a letter or digit, right after a `#` that opens the text
/// or follows whitespace; so it ends at the end of the text or before a
/// character outside that class, and a nested tag such as `#area/work` is
/// read whole.
pub proof fn hashtags_are_maximal_runs(s: Seq<char>)
    ensures
        forall|k: int| 0 <= k < tags(s).len() ==> whole_hashtag(s, #[trigger] tags(s)[k]),
{
    lemma_tags_from_runs(s, 0);
}

/// Exec counterpart of [`run_end`].
pub fn scan_run(v: &Vec<char>, i: usize, class: CharClass) -> (r: usize)
    requires
        i <= v@.len(),
    ensures
        r as int == run_end(v@, i as int, class),
        i <= r <= v@.len(),
{
    proof {
        lemma_run_end_bounds(v@, i as int, class);
    }
    let mut j = i;
    while j < v.len() && class.contains(v[j])
        invariant
            i <= j <= v@.len(),
            run_end(v@, j as int, class) == run_end(v@, i as int, class),
        decreases v@.len() - j,
    {
        j = j + 1;
    }
    j
}

/// A wiki-link extracted from a markdown document.
///
/// - `[[note]]` gives target `note`, no fragment, no alias;
/// - `[[note#heading]]` adds the fragment `heading`;
/// - `[[note|display]]` adds the alias `display`;
/// - `[[folder/note]]` is a path-qualified target.
#[derive(Debug, Clone, PartialEq)]
pub struct ParsedLink {
    /// The note target (filename stem or path-qualified target).
    pub target: String,
    /// Optional heading or block-reference fragment after `#`.
    pub fragment: Option<String>,
    /// Optional display text after `|`.
    pub alias: Option<String>,
}

impl ParsedLink {
    pub open spec fn parts(self) -> LinkParts {
        (self.target@, opt_chars(self.fragment), opt_chars(self.alias))
    }
}

fn link_close_exec(
    v: &Vec<char>,
    p: usize,
    target: String,
    fragment: Option<String>,
) -> (r: Option<(ParsedLink, usize)>)
    requires
        p <= v@.len(),
    ensures
        match (r, link_close(v@, p as int, target@, opt_chars(fragment))) {
            (Some((l, e)), Some((parts, e2))) => l.parts() == parts && e as int == e2,
            (None, None) => true,
            _ => false,
        },
{
    if p < v.len() && v[p] == '|' {
        let ae = scan_run(v, p + 1, CharClass::Alias);
        if ae > p + 1 && ae < v.len() && ae + 1 < v.len() && v[ae + 1] == ']' {
            let alias = string_of_range(v, p + 1, ae);
            Some((ParsedLink { target, fragment, alias: Some(alias) }, ae + 2))
        } else {
            None
        }
    } else if p < v.len() && p + 1 < v.len() && v[p] == ']' && v[p + 1] == ']' {
        Some((ParsedLink { target, fragment, alias: None }, p + 2))
    } else {
        None
    }
}

/// The wiki-link starting at position `i` of `v`, if any.
pub fn wiki_link_at_exec(v: &Vec<char>, i: usize) -> (r: Option<(ParsedLink, usize)>)
    requires
        i <= v@.len(),
    ensures
        match (r, wiki_link_at(v@, i as int)) {
            (Some((l, e)), Some((parts, e2))) => l.parts() == parts && e as int == e2,
            (None, None) => true,
            _ => false,
        },
{
    if i < v.len() && i + 1 < v.len() && v[i] == '[' && v[i + 1] == '[' {
        let te = scan_run(v, i + 2, CharClass::Target);
        if te == i + 2 {
            None
        } else {
            let target = trimmed_string(v, i + 2, te);
            if te < v.len() && v[te] == '#' {
                let fe = scan_run(v, te + 1, CharClass::Fragment);
                if fe == te + 1 {
                    None
                } else {
                    let fragment = string_of_range(v, te + 1, fe);
                    link_close_exec(v, fe, target, Some(fragment))
                }
            } else {
                link_close_exec(v, te, target, None)
            }
        }
    } else {
        None
    }
}

pub open spec fn found_parts(links: Seq<ParsedLink>) -> Seq<LinkParts> {
    links.map_values(|l: ParsedLink| l.parts())
}

/// A wiki-link found at `i` ends after `i` and within `s`.
pub proof fn lemma_wiki_link_at_bounds(s: Seq<char>, i: int)
    requires
        0 <= i <= s.len(),
    ensures
        wiki_link_at(s, i) matches Some((_, e)) ==> i < e <= s.len(),
{
    if 0 <= i && i + 1 < s.len() && s[i] == '[' && s[i + 1] == '[' {
        lemma_run_end_bounds(s, i + 2, CharClass::Target);
        let te = run_end(s, i + 2, CharClass::Target);
        if te < s.len() && s[te] == '#' {
            lemma_run_end_bounds(s, te + 1, CharClass::Fragment);
            let fe = run_end(s, te + 1, CharClass::Fragment);
            if fe < s.len() && s[fe] == '|' {
                lemma_run_end_bounds(s, fe + 1, CharClass::Alias);
            }
        } else if te < s.len() && s[te] == '|' {
            lemma_run_end_bounds(s, te + 1, CharClass::Alias);
        }
    }
}

/// A hashtag match at `i` ends after `i` and within `s`.
pub proof fn lemma_tag_at_bounds(s: Seq<char>, i: int)
    requires
        0 <= i <= s.len(),
    ensures
        tag_at(s, i) matches Some((_, e)) ==> i < e <= s.len(),
{
    if 1 < s.len() {
        lemma_run_end_bounds(s, 2, CharClass::TagBody);
    }
    if 0 <= i && i + 2 < s.len() {
        lemma_run_end_bounds(s, i + 3, CharClass::TagBody);
    }
}

/// Appends every wiki-link of `v` to `out`, left to right.
pub fn scan_wiki_links(v: &Vec<char>, out: &mut Vec<ParsedLink>)
    ensures
        found_parts(final(out)@) == found_parts(old(out)@) + wiki_links(v@),
{
    let mut i: usize = 0;
    while i < v.len()
        invariant
            i <= v@.len(),
            found_parts(out@) + wiki_links_from(v@, i as int) == found_parts(old(out)@)
                + wiki_links(v@),
        decreases v@.len() - i,
    {
        match wiki_link_at_exec(v, i) {
            Some((link, end)) => {
                proof {
                    lemma_wiki_link_at_bounds(v@, i as int);
                }
                let ghost before = found_parts(out@);
                let ghost p = link.parts();
                out.push(link);
                assert(found_parts(out@) =~= before.push(p));
                assert(wiki_links_from(v@, i as int) == seq![p] + wiki_links_from(
                    v@,
                    end as int,
                ));
                assert(before.push(p) + wiki_links_from(v@, end as int) =~= before + (seq![p]
                    + wiki_links_from(v@, end as int)));
                i = end;
            },
            None => {
                i = i + 1;
            },
        }
    }
    assert(wiki_links_from(v@, i as int) =~= Seq::<LinkParts>::empty());
    assert(found_parts(out@) + Seq::<LinkParts>::empty() =~= found_parts(out@));
}

/// The hashtag starting at position `i` of `v`, if any.
pub fn tag_at_exec(v: &Vec<char>, i: usize) -> (r: Option<(String, usize)>)
    requires
        i <= v@.len(),
    ensures
        match (r, tag_at(v@, i as int)) {
            (Some((t, e)), Some((t2, e2))) => t@ == t2 && e as int == e2,
            (None, None) => true,
            _ => false,
        },
{
    let hash = if i == 0 && v.len() > 1 && v[0] == '#' && is_tag_start_exec(v[1]) {
        0
    } else if i < v.len() && is_whitespace(v[i]) {
        i + 1
    } else {
        return None;
    };
    if hash < v.len() && hash + 1 < v.len() && v[hash] == '#' && is_tag_start_exec(v[hash + 1]) {
        let e = scan_run(v, hash + 2, CharClass::TagBody);
        Some((string_of_range(v, hash + 1, e), e))
    } else {
        None
    }
}

pub fn is_tag_start_exec(c: char) -> (b: bool)
    ensures
        b == is_tag_start(c),
{
    ('a' <= c && c <= 'z') || ('A' <= c && c <= 'Z') || ('0' <= c && c <= '9')
}

pub open spec fn string_views(v: Seq<String>) -> Seq<Seq<char>> {
    v.map_values(|s: String| s@)
}

/// Appends every hashtag name of `v` to `out`, left to right.
pub fn scan_tags(v: &Vec<char>, out: &mut Vec<String>)
    ensures
        string_views(final(out)@) == string_views(old(out)@) + tags(v@),
{
    let mut i: usize = 0;
    while i < v.len()
        invariant
            i <= v@.len(),
            string_views(out@) + tags_from(v@, i as int) == string_views(old(out)@) + tags(
                v@,
            ),
        decreases v@.len() - i,
    {
        match tag_at_exec(v, i) {
            Some((tag, end)) => {
                proof {
                    lemma_tag_at_bounds(v@, i as int);
                }
                let ghost before = string_views(out@);
                let ghost t = tag@;
                out.push(tag);
                assert(string_views(out@) =~= before.push(t));
                assert(tags_from(v@, i as int) == seq![t] + tags_from(v@, end as int));
                assert(before.push(t) + tags_from(v@, end as int) =~= before + (seq![t]
                    + tags_from(v@, end as int)));
                i = end;
            },
            None => {
                i = i + 1;
            },
        }
    }
    assert(tags_from(v@, i as int) =~= Seq::<Seq<char>>::empty());
    assert(string_views(out@) + Seq::<Seq<char>>::empty() =~= string_views(out@));
}

} // verus!
